//! The 20-bit fingerprint of a 3x3 neighborhood, and the 64-bit Zobrist
//! hash of a whole position.

use crate::fast_random::{lcg_iter, FastRandom};
use crate::nat_map::NatMap;
use crate::types::{
    color_is_player, color_to_player, has_nbr, player_index, vertex_nbr, Color, Dir, Move,
    MoveMap, Nat, Player, Vertex, VertexMap,
};
use vstd::prelude::*;

verus! {

/// Number of 3x3 fingerprints.
pub const HASH3X3_COUNT: usize = 0x100000;

/// The color with index `raw` (OffBoard for anything above 2).
pub open spec fn color_of_raw(raw: int) -> Color {
    if raw == 0 {
        Color::Black
    } else if raw == 1 {
        Color::White
    } else if raw == 2 {
        Color::Empty
    } else {
        Color::OffBoard
    }
}

/// 1 if `b` holds, else 0.
pub open spec fn b2i(b: bool) -> int {
    if b {
        1
    } else {
        0
    }
}

// ---------------------------------------------------------------------------
// Bit-level facts
// ---------------------------------------------------------------------------
/// The two bits of `x` that hold the color of direction number `j`.
pub open spec fn slot_bits(x: u32, j: u32) -> u32 {
    (x >> (2 * j)) & 3
}

/// Bit number `i` of `x`.
pub open spec fn flag_bit(x: u32, i: u32) -> bool {
    x & (1u32 << i) != 0
}

proof fn lemma_slot_write(x: u32, k: u32, c: u32, j: u32)
    requires
        k < 8,
        j < 8,
        c < 4,
    ensures
        ({
            let y = (x & !(3u32 << (2 * k))) | (c << (2 * k));
            &&& (y >> (2 * j)) & 3 == if j == k {
                c
            } else {
                (x >> (2 * j)) & 3
            }
            &&& (y >> (2 * j)) & 3 < 4
            &&& y & 0xf0000 == x & 0xf0000
            &&& (x < 0x100000 ==> y < 0x100000)
            &&& (x >> (2 * k) == 0 ==> y == x | (c << (2 * k)))
            &&& (x >> (2 * k) == 0 ==> y >> (2 * (k + 1)) == 0)
        }),
{
    assert({
        let y = (x & !(3u32 << (2 * k))) | (c << (2 * k));
        &&& (y >> (2 * j)) & 3 == if j == k {
            c
        } else {
            (x >> (2 * j)) & 3
        }
        &&& (y >> (2 * j)) & 3 < 4
        &&& y & 0xf0000 == x & 0xf0000
        &&& (x < 0x100000 ==> y < 0x100000)
        &&& (x >> (2 * k) == 0 ==> y == x | (c << (2 * k)))
        &&& (x >> (2 * k) == 0 ==> y >> (2 * (k + 1)) == 0)
    }) by (bit_vector)
        requires
            k < 8,
            j < 8,
            c < 4,
    ;
}

proof fn lemma_slot_read(x: u32, j: u32)
    requires
        j < 8,
    ensures
        (x >> (2 * j)) & 3 < 4,
        x >> 16 == 0 ==> x < 0x10000,
        (x & 0xffff) < 0x10000,
        ((x & 0xffff) >> (2 * j)) & 3 == (x >> (2 * j)) & 3,
{
    assert({
        &&& (x >> (2 * j)) & 3 < 4
        &&& (x >> 16 == 0 ==> x < 0x10000)
        &&& (x & 0xffff) < 0x10000
        &&& ((x & 0xffff) >> (2 * j)) & 3 == (x >> (2 * j)) & 3
    }) by (bit_vector)
        requires
            j < 8,
    ;
}

proof fn lemma_flag_mask(m16: u32, m17: u32, m18: u32, m19: u32)
    requires
        m16 == 0 || m16 == 0x10000,
        m17 == 0 || m17 == 0x20000,
        m18 == 0 || m18 == 0x40000,
        m19 == 0 || m19 == 0x80000,
    ensures
        ({
            let m = m16 | m17 | m18 | m19;
            &&& m & 0xffff == 0
            &&& m < 0x100000
            &&& (m & (1u32 << 16) != 0) == (m16 != 0)
            &&& (m & (1u32 << 17) != 0) == (m17 != 0)
            &&& (m & (1u32 << 18) != 0) == (m18 != 0)
            &&& (m & (1u32 << 19) != 0) == (m19 != 0)
        }),
{
    assert({
        let m = m16 | m17 | m18 | m19;
        &&& m & 0xffff == 0
        &&& m < 0x100000
        &&& (m & (1u32 << 16) != 0) == (m16 != 0)
        &&& (m & (1u32 << 17) != 0) == (m17 != 0)
        &&& (m & (1u32 << 18) != 0) == (m18 != 0)
        &&& (m & (1u32 << 19) != 0) == (m19 != 0)
    }) by (bit_vector)
        requires
            m16 == 0 || m16 == 0x10000,
            m17 == 0 || m17 == 0x20000,
            m18 == 0 || m18 == 0x40000,
            m19 == 0 || m19 == 0x80000,
    ;
}

proof fn lemma_flag_write(x: u32, m: u32, i: u32, j: u32)
    requires
        m & 0xffff == 0,
        m < 0x100000,
        i < 32,
        j < 8,
    ensures
        ((x | m) & (1u32 << i) != 0) == ((x & (1u32 << i) != 0) || (m & (1u32 << i) != 0)),
        ((x & !m) & (1u32 << i) != 0) == ((x & (1u32 << i) != 0) && (m & (1u32 << i) == 0)),
        ((x | m) >> (2 * j)) & 3 == (x >> (2 * j)) & 3,
        ((x & !m) >> (2 * j)) & 3 == (x >> (2 * j)) & 3,
        x < 0x100000 ==> (x | m) < 0x100000 && (x & !m) < 0x100000,
{
    assert({
        &&& ((x | m) & (1u32 << i) != 0) == ((x & (1u32 << i) != 0) || (m & (1u32 << i) != 0))
        &&& ((x & !m) & (1u32 << i) != 0) == ((x & (1u32 << i) != 0) && (m & (1u32 << i) == 0))
        &&& ((x | m) >> (2 * j)) & 3 == (x >> (2 * j)) & 3
        &&& ((x & !m) >> (2 * j)) & 3 == (x >> (2 * j)) & 3
        &&& (x < 0x100000 ==> (x | m) < 0x100000 && (x & !m) < 0x100000)
    }) by (bit_vector)
        requires
            m & 0xffff == 0,
            m < 0x100000,
            i < 32,
            j < 8,
    ;
}

proof fn lemma_bits_determined(x: u32, y: u32)
    requires
        x < 0x100000,
        y < 0x100000,
        forall|j: u32| j < 8 ==> #[trigger] slot_bits(x, j) == slot_bits(y, j),
        forall|i: u32| 16 <= i < 20 ==> #[trigger] flag_bit(x, i) == flag_bit(y, i),
    ensures
        x == y,
{
    assert(slot_bits(x, 0) == slot_bits(y, 0));
    assert(slot_bits(x, 1) == slot_bits(y, 1));
    assert(slot_bits(x, 2) == slot_bits(y, 2));
    assert(slot_bits(x, 3) == slot_bits(y, 3));
    assert(slot_bits(x, 4) == slot_bits(y, 4));
    assert(slot_bits(x, 5) == slot_bits(y, 5));
    assert(slot_bits(x, 6) == slot_bits(y, 6));
    assert(slot_bits(x, 7) == slot_bits(y, 7));
    assert(flag_bit(x, 16) == flag_bit(y, 16));
    assert(flag_bit(x, 17) == flag_bit(y, 17));
    assert(flag_bit(x, 18) == flag_bit(y, 18));
    assert(flag_bit(x, 19) == flag_bit(y, 19));
    assert((x >> (2 * 0u32)) & 3 == (y >> (2 * 0u32)) & 3);
    assert((x >> (2 * 1u32)) & 3 == (y >> (2 * 1u32)) & 3);
    assert((x >> (2 * 2u32)) & 3 == (y >> (2 * 2u32)) & 3);
    assert((x >> (2 * 3u32)) & 3 == (y >> (2 * 3u32)) & 3);
    assert((x >> (2 * 4u32)) & 3 == (y >> (2 * 4u32)) & 3);
    assert((x >> (2 * 5u32)) & 3 == (y >> (2 * 5u32)) & 3);
    assert((x >> (2 * 6u32)) & 3 == (y >> (2 * 6u32)) & 3);
    assert((x >> (2 * 7u32)) & 3 == (y >> (2 * 7u32)) & 3);
    assert((x & (1u32 << 16u32) != 0) == (y & (1u32 << 16u32) != 0));
    assert((x & (1u32 << 17u32) != 0) == (y & (1u32 << 17u32) != 0));
    assert((x & (1u32 << 18u32) != 0) == (y & (1u32 << 18u32) != 0));
    assert((x & (1u32 << 19u32) != 0) == (y & (1u32 << 19u32) != 0));
    assert(x == y) by (bit_vector)
        requires
            x < 0x100000,
            y < 0x100000,
            (x >> (2 * 0u32)) & 3 == (y >> (2 * 0u32)) & 3,
            (x >> (2 * 1u32)) & 3 == (y >> (2 * 1u32)) & 3,
            (x >> (2 * 2u32)) & 3 == (y >> (2 * 2u32)) & 3,
            (x >> (2 * 3u32)) & 3 == (y >> (2 * 3u32)) & 3,
            (x >> (2 * 4u32)) & 3 == (y >> (2 * 4u32)) & 3,
            (x >> (2 * 5u32)) & 3 == (y >> (2 * 5u32)) & 3,
            (x >> (2 * 6u32)) & 3 == (y >> (2 * 6u32)) & 3,
            (x >> (2 * 7u32)) & 3 == (y >> (2 * 7u32)) & 3,
            (x & (1u32 << 16u32) != 0) == (y & (1u32 << 16u32) != 0),
            (x & (1u32 << 17u32) != 0) == (y & (1u32 << 17u32) != 0),
            (x & (1u32 << 18u32) != 0) == (y & (1u32 << 18u32) != 0),
            (x & (1u32 << 19u32) != 0) == (y & (1u32 << 19u32) != 0),
    ;
}

// ---------------------------------------------------------------------------
// Hash3x3
// ---------------------------------------------------------------------------
/// Fingerprint of the eight neighbors of a vertex.  From the least
/// significant bit: two bits of color for each of N, E, S, W, NW, NE, SE,
/// SW, then one atari flag for each of N, E, S, W.
#[derive(Copy, Clone, Debug, PartialEq, Eq, Structural)]
pub struct Hash3x3 {
    raw: u32,
}

impl Default for Hash3x3 {
    fn default() -> (r: Hash3x3)
        ensures
            r.bits() == 0,
    {
        Hash3x3 { raw: 0 }
    }
}

impl Hash3x3 {
    pub const COUNT: usize = 0x100000;

    /// A fingerprint has 20 bits.
    #[verifier::type_invariant]
    pub open spec fn well_formed(self) -> bool {
        self.bits() < 0x100000
    }

    /// The fingerprint as a number.
    pub closed spec fn bits(self) -> u32 {
        self.raw
    }

    /// The color recorded for the neighbor in direction `dir`.
    pub open spec fn spec_color_at(self, dir: Dir) -> Color {
        color_of_raw(((self.bits() >> ((2 * dir.raw_spec()) as u32)) & 3) as int)
    }

    /// The atari flag recorded for the neighbor in the cardinal direction
    /// `dir`.
    pub open spec fn spec_is_in_atari(self, dir: Dir) -> bool {
        self.bits() & (1u32 << ((16 + dir.raw_spec()) as u32)) != 0
    }

    /// Whether no atari flag is set.
    pub open spec fn no_atari(self) -> bool {
        forall|d: Dir| d.spec_is_simple4() ==> !#[trigger] self.spec_is_in_atari(d)
    }

    /// Number of cardinal neighbors of color `c`.
    pub open spec fn cardinal_count(self, c: Color) -> int {
        b2i(self.spec_color_at(Dir::N) == c) + b2i(self.spec_color_at(Dir::E) == c) + b2i(
            self.spec_color_at(Dir::S) == c,
        ) + b2i(self.spec_color_at(Dir::W) == c)
    }

    /// Number of cardinal neighbors of color `c` that are flagged in atari.
    pub open spec fn cardinal_atari_count(self, c: Color) -> int {
        b2i(self.spec_color_at(Dir::N) == c && self.spec_is_in_atari(Dir::N)) + b2i(
            self.spec_color_at(Dir::E) == c && self.spec_is_in_atari(Dir::E),
        ) + b2i(self.spec_color_at(Dir::S) == c && self.spec_is_in_atari(Dir::S)) + b2i(
            self.spec_color_at(Dir::W) == c && self.spec_is_in_atari(Dir::W),
        )
    }

    /// Number of diagonal neighbors of color `c`.
    pub open spec fn diagonal_count(self, c: Color) -> int {
        b2i(self.spec_color_at(Dir::NW) == c) + b2i(self.spec_color_at(Dir::NE) == c) + b2i(
            self.spec_color_at(Dir::SE) == c,
        ) + b2i(self.spec_color_at(Dir::SW) == c)
    }

    /// A move of `pl` here is legal as far as the fingerprint can tell: a
    /// cardinal neighbor is empty, or an enemy one is in atari, or more
    /// cardinal neighbors are friendly than are friendly and in atari.
    pub open spec fn spec_is_legal(self, pl: Player) -> bool {
        ||| self.cardinal_count(Color::Empty) > 0
        ||| self.cardinal_atari_count(Color::of_player(pl.spec_opponent())) > 0
        ||| self.cardinal_atari_count(Color::of_player(pl)) < self.cardinal_count(
            Color::of_player(pl),
        )
    }

    /// The point looks like an eye of `pl`: every cardinal neighbor is
    /// friendly or off the board, and fewer than two diagonals are bad, where
    /// each enemy diagonal is bad and all diagonals off the board count as one.
    pub open spec fn spec_is_eyelike(self, pl: Player) -> bool {
        &&& forall|d: Dir|
            d.spec_is_simple4() ==> #[trigger] self.spec_color_at(d) == Color::of_player(pl)
                || self.spec_color_at(d) == Color::OffBoard
        &&& self.diagonal_count(Color::of_player(pl.spec_opponent())) + b2i(
            self.diagonal_count(Color::OffBoard) > 0,
        ) < 2
    }

    /// A fingerprint is determined by its eight colors and four flags.
    pub proof fn lemma_ext(a: Hash3x3, b: Hash3x3)
        requires
            a.well_formed(),
            b.well_formed(),
            forall|d: Dir| #[trigger] a.spec_color_at(d) == b.spec_color_at(d),
            forall|d: Dir|
                d.spec_is_simple4() ==> #[trigger] a.spec_is_in_atari(d) == b.spec_is_in_atari(d),
        ensures
            a == b,
    {
        let x = a.bits();
        let y = b.bits();
        assert forall|j: u32| j < 8 implies #[trigger] slot_bits(x, j) == slot_bits(y, j) by {
            let d = dir_of_raw(j as int);
            lemma_slot_read(x, j);
            lemma_slot_read(y, j);
            assert(a.spec_color_at(d) == b.spec_color_at(d));
            assert((2 * d.raw_spec()) as u32 == 2 * j);
        }
        assert forall|i: u32| 16 <= i < 20 implies #[trigger] flag_bit(x, i) == flag_bit(y, i) by {
            let d = dir_of_raw(i as int - 16);
            assert(a.spec_is_in_atari(d) == b.spec_is_in_atari(d));
            assert((16 + d.raw_spec()) as u32 == i);
        }
        lemma_bits_determined(x, y);
    }

    /// The fingerprint of the neighborhood of `v` on the board `color_at`,
    /// without atari flags; zero for a vertex that is off the board.
    pub fn of_board(color_at: &VertexMap<Color>, v: Vertex) -> (r: Hash3x3)
        requires
            color_at@[v.id()] != Color::OffBoard ==> forall|d: Dir| has_nbr(v.id(), d),
        ensures
            color_at@[v.id()] == Color::OffBoard ==> r.bits() == 0,
            color_at@[v.id()] != Color::OffBoard ==> forall|d: Dir| #[trigger]
                r.spec_color_at(d) == color_at@[v.id() + d.offset()],
            r.no_atari(),
    {
        proof {
            use_type_invariant(v);
            color_at.lemma_len();
        }
        if color_at.get(v) == Color::OffBoard {
            let r = Hash3x3 { raw: 0 };
            assert forall|d: Dir| d.spec_is_simple4() implies !#[trigger] r.spec_is_in_atari(
                d,
            ) by {
                lemma_no_high_bits(0, (16 + d.raw_spec()) as u32);
            }
            return r;
        }
        let mut raw: u32 = 0;
        let mut i: usize = 0;
        assert(raw >> (2 * 0u32) == 0) by (bit_vector)
            requires
                raw == 0,
        ;
        while i < 8
            invariant
                0 <= i <= 8,
                raw >> ((2 * i) as u32) == 0,
                forall|d: Dir| has_nbr(v.id(), d),
                0 <= v.id() < 443,
                color_at@.len() == 443,
                forall|d: Dir|
                    d.raw_spec() < i ==> color_of_raw(
                        ((raw >> ((2 * #[trigger] d.raw_spec()) as u32)) & 3) as int,
                    ) == color_at@[v.id() + d.offset()],
            decreases 8 - i,
        {
            let dir = Dir::of_raw(i);
            assert(has_nbr(v.id(), dir));
            let c: u32 = color_at.get(vertex_nbr(v, dir)).raw() as u32;
            let ghost before = raw;
            let shift: u32 = 2 * (i as u32);
            raw = raw | (c << shift);
            proof {
                lemma_slot_write(before, i as u32, c, i as u32);
                assert forall|d: Dir| d.raw_spec() < i + 1 implies color_of_raw(
                    ((raw >> ((2 * #[trigger] d.raw_spec()) as u32)) & 3) as int,
                ) == color_at@[v.id() + d.offset()] by {
                    lemma_slot_write(before, i as u32, c, d.raw_spec() as u32);
                    if d.raw_spec() == i {
                        assert(d == dir);
                    }
                }
            }
            i += 1;
        }
        proof {
            lemma_slot_read(raw, 0);
        }
        let r = Hash3x3 { raw };
        assert forall|d: Dir| d.spec_is_simple4() implies !#[trigger] r.spec_is_in_atari(d) by {
            lemma_no_high_bits(raw, (16 + d.raw_spec()) as u32);
        }
        r
    }

    /// The color recorded for the neighbor in direction `dir`.
    pub fn color_at(&self, dir: Dir) -> (r: Color)
        ensures
            r == self.spec_color_at(dir),
    {
        let shift: u32 = 2 * (dir.raw() as u32);
        proof {
            lemma_slot_read(self.raw, dir.raw_spec() as u32);
        }
        Color::of_raw(((self.raw >> shift) & 3) as usize)
    }

    /// Records `color` for the neighbor in direction `dir`; everything else
    /// stays.
    pub fn set_color_at(&mut self, dir: Dir, color: Color)
        ensures
            forall|d: Dir| #[trigger]
                final(self).spec_color_at(d) == if d == dir {
                    color
                } else {
                    old(self).spec_color_at(d)
                },
            forall|d: Dir| #[trigger]
                final(self).spec_is_in_atari(d) == old(self).spec_is_in_atari(d),
    {
        proof {
            use_type_invariant(*self);
        }
        let shift: u32 = 2 * (dir.raw() as u32);
        let c: u32 = color.raw() as u32;
        let ghost x = self.raw;
        let y: u32 = (self.raw & !(3u32 << shift)) | (c << shift);
        proof {
            lemma_slot_write(x, dir.raw_spec() as u32, c, 0);
        }
        self.raw = y;
        proof {
            assert forall|d: Dir| #[trigger]
                self.spec_color_at(d) == if d == dir {
                    color
                } else {
                    old(self).spec_color_at(d)
                } by {
                lemma_slot_write(x, dir.raw_spec() as u32, c, d.raw_spec() as u32);
            }
            assert forall|d: Dir| #[trigger]
                self.spec_is_in_atari(d) == old(self).spec_is_in_atari(d) by {
                lemma_flags_follow(x, y, (16 + d.raw_spec()) as u32);
            }
        }
    }

    /// Raises the atari flags of the directions whose argument is true.
    pub fn set_atari_bits(&mut self, b_n: bool, b_e: bool, b_s: bool, b_w: bool)
        ensures
            forall|d: Dir| #[trigger] final(self).spec_color_at(d) == old(self).spec_color_at(d),
            forall|d: Dir|
                d.spec_is_simple4() ==> #[trigger] final(self).spec_is_in_atari(d) == (old(
                    self,
                ).spec_is_in_atari(d) || flag_of(d, b_n, b_e, b_s, b_w)),
    {
        proof {
            use_type_invariant(*self);
        }
        let m16: u32 = if b_n { 0x10000 } else { 0 };
        let m17: u32 = if b_e { 0x20000 } else { 0 };
        let m18: u32 = if b_s { 0x40000 } else { 0 };
        let m19: u32 = if b_w { 0x80000 } else { 0 };
        let mask: u32 = m16 | m17 | m18 | m19;
        let ghost x = self.raw;
        proof {
            lemma_flag_mask(m16, m17, m18, m19);
            lemma_flag_write(x, mask, 0, 0);
        }
        self.raw = self.raw | mask;
        proof {
            assert forall|d: Dir| #[trigger] self.spec_color_at(d) == old(self).spec_color_at(
                d,
            ) by {
                lemma_flag_write(x, mask, 0, d.raw_spec() as u32);
            }
            assert forall|d: Dir| d.spec_is_simple4() implies #[trigger] self.spec_is_in_atari(d)
                == (old(self).spec_is_in_atari(d) || flag_of(d, b_n, b_e, b_s, b_w)) by {
                lemma_flag_write(x, mask, (16 + d.raw_spec()) as u32, 0);
            }
        }
    }

    /// Lowers the atari flags of the directions whose argument is true.
    pub fn unset_atari_bits(&mut self, b_n: bool, b_e: bool, b_s: bool, b_w: bool)
        ensures
            forall|d: Dir| #[trigger] final(self).spec_color_at(d) == old(self).spec_color_at(d),
            forall|d: Dir|
                d.spec_is_simple4() ==> #[trigger] final(self).spec_is_in_atari(d) == (old(
                    self,
                ).spec_is_in_atari(d) && !flag_of(d, b_n, b_e, b_s, b_w)),
    {
        proof {
            use_type_invariant(*self);
        }
        let m16: u32 = if b_n { 0x10000 } else { 0 };
        let m17: u32 = if b_e { 0x20000 } else { 0 };
        let m18: u32 = if b_s { 0x40000 } else { 0 };
        let m19: u32 = if b_w { 0x80000 } else { 0 };
        let mask: u32 = m16 | m17 | m18 | m19;
        let ghost x = self.raw;
        proof {
            lemma_flag_mask(m16, m17, m18, m19);
            lemma_flag_write(x, mask, 0, 0);
        }
        self.raw = self.raw & !mask;
        proof {
            assert forall|d: Dir| #[trigger] self.spec_color_at(d) == old(self).spec_color_at(
                d,
            ) by {
                lemma_flag_write(x, mask, 0, d.raw_spec() as u32);
            }
            assert forall|d: Dir| d.spec_is_simple4() implies #[trigger] self.spec_is_in_atari(d)
                == (old(self).spec_is_in_atari(d) && !flag_of(d, b_n, b_e, b_s, b_w)) by {
                lemma_flag_write(x, mask, (16 + d.raw_spec()) as u32, 0);
            }
        }
    }

    /// Lowers all four atari flags.
    pub fn reset_atari_bits(&mut self)
        ensures
            forall|d: Dir| #[trigger] final(self).spec_color_at(d) == old(self).spec_color_at(d),
            final(self).no_atari(),
    {
        let ghost x = self.raw;
        proof {
            lemma_slot_read(x, 0);
        }
        self.raw = self.raw & 0xffff;
        proof {
            assert forall|d: Dir| #[trigger] self.spec_color_at(d) == old(self).spec_color_at(
                d,
            ) by {
                lemma_slot_read(x, d.raw_spec() as u32);
            }
            assert forall|d: Dir| d.spec_is_simple4() implies !#[trigger] self.spec_is_in_atari(
                d,
            ) by {
                lemma_no_high_bits(x & 0xffff, (16 + d.raw_spec()) as u32);
            }
        }
    }

    /// The atari flag of the neighbor in the cardinal direction `dir`.
    pub fn is_in_atari(&self, dir: Dir) -> (r: bool)
        requires
            dir.spec_is_simple4(),
        ensures
            r == self.spec_is_in_atari(dir),
    {
        let shift: u32 = 16 + dir.raw() as u32;
        (self.raw & (1u32 << shift)) != 0
    }

    /// Whether the fingerprint allows `pl` to play here.
    pub fn is_legal(&self, pl: Player) -> (r: bool)
        ensures
            r == self.spec_is_legal(pl),
    {
        let mut color_cnt: NatMap<4, Color, u32> = NatMap::new_with(0u32);
        let mut atari_cnt: NatMap<2, Player, u32> = NatMap::new_with(0u32);
        let mut i: usize = 0;
        while i < 8
            invariant
                0 <= i <= 8,
                color_cnt@.len() == 4,
                atari_cnt@.len() == 2,
                forall|c: Color| #[trigger]
                    color_cnt@[c.raw_spec() as int] == self.cardinal_count_upto(c, i as int),
                forall|p: Player| #[trigger]
                    atari_cnt@[p.raw_spec() as int] == self.cardinal_atari_count_upto(
                        Color::of_player(p),
                        i as int,
                    ),
            decreases 8 - i,
        {
            let dir = Dir::of_raw(i);
            if dir.is_simple4() {
                let c = self.color_at(dir);
                let ghost cc = color_cnt@;
                let ghost ac = atari_cnt@;
                assert(cc[c.raw_spec() as int] == self.cardinal_count_upto(c, i as int));
                color_cnt.set(c, color_cnt.get(c) + 1);
                if color_is_player(c) && self.is_in_atari(dir) {
                    let p = color_to_player(c);
                    assert(ac[p.raw_spec() as int] == self.cardinal_atari_count_upto(
                        Color::of_player(p),
                        i as int,
                    ));
                    atari_cnt.set(p, atari_cnt.get(p) + 1);
                }
                proof {
                    assert forall|c2: Color| #[trigger]
                        color_cnt@[c2.raw_spec() as int] == self.cardinal_count_upto(
                            c2,
                            i as int + 1,
                        ) by {
                        assert(cc[c2.raw_spec() as int] == self.cardinal_count_upto(c2, i as int));
                    }
                    assert forall|who: Player| #[trigger]
                        atari_cnt@[who.raw_spec() as int] == self.cardinal_atari_count_upto(
                            Color::of_player(who),
                            i as int + 1,
                        ) by {
                        assert(ac[who.raw_spec() as int] == self.cardinal_atari_count_upto(
                            Color::of_player(who),
                            i as int,
                        ));
                    }
                }
            }
            i += 1;
        }
        let e = color_cnt.get(Color::Empty);
        let opp = atari_cnt.get(pl.opponent());
        let own_atari = atari_cnt.get(pl);
        let own = color_cnt.get(Color::from(pl));
        proof {
            assert(e == self.cardinal_count_upto(Color::Empty, 8));
            assert(opp == self.cardinal_atari_count_upto(
                Color::of_player(pl.spec_opponent()),
                8,
            ));
            assert(own_atari == self.cardinal_atari_count_upto(Color::of_player(pl), 8));
            assert(own == self.cardinal_count_upto(Color::of_player(pl), 8));
        }
        if e > 0 {
            return true;
        }
        if opp > 0 {
            return true;
        }
        if own_atari < own {
            return true;
        }
        false
    }

    /// Whether the fingerprint shows an eye of `pl`.
    pub fn is_eyelike(&self, pl: Player) -> (r: bool)
        ensures
            r == self.spec_is_eyelike(pl),
    {
        let my_color = Color::from(pl);
        let enemy_color = Color::from(pl.opponent());
        let mut i: usize = 0;
        while i < 4
            invariant
                0 <= i <= 4,
                my_color == Color::of_player(pl),
                forall|d: Dir|
                    d.raw_spec() < i ==> #[trigger] self.spec_color_at(d) == my_color
                        || self.spec_color_at(d) == Color::OffBoard,
            decreases 4 - i,
        {
            let dir = Dir::of_raw(i);
            let color = self.color_at(dir);
            if color != my_color && color != Color::OffBoard {
                return false;
            }
            proof {
                assert forall|d: Dir| d.raw_spec() < i + 1 implies #[trigger] self.spec_color_at(d)
                    == my_color || self.spec_color_at(d) == Color::OffBoard by {
                    if d.raw_spec() == i {
                        assert(d == dir);
                    }
                }
            }
            i += 1;
        }
        let mut enemy_diag_count: u32 = 0;
        let mut off_board_diag_count: u32 = 0;
        let mut i: usize = 4;
        while i < 8
            invariant
                4 <= i <= 8,
                enemy_color == Color::of_player(pl.spec_opponent()),
                enemy_diag_count == self.diagonal_count_upto(enemy_color, i as int),
                off_board_diag_count == self.diagonal_count_upto(Color::OffBoard, i as int),
            decreases 8 - i,
        {
            let dir = Dir::of_raw(i);
            let color = self.color_at(dir);
            if color == enemy_color {
                enemy_diag_count += 1;
            }
            if color == Color::OffBoard {
                off_board_diag_count += 1;
            }
            i += 1;
        }
        let bad: u32 = if off_board_diag_count > 0 {
            1
        } else {
            0
        };
        enemy_diag_count + bad < 2
    }

    /// Cardinal neighbors of color `c` among the directions below `n`.
    pub open spec fn cardinal_count_upto(self, c: Color, n: int) -> int {
        b2i(n > 0 && self.spec_color_at(Dir::N) == c) + b2i(
            n > 1 && self.spec_color_at(Dir::E) == c,
        ) + b2i(n > 2 && self.spec_color_at(Dir::S) == c) + b2i(
            n > 3 && self.spec_color_at(Dir::W) == c,
        )
    }

    /// Cardinal neighbors of color `c` in atari among the directions below
    /// `n`.
    pub open spec fn cardinal_atari_count_upto(self, c: Color, n: int) -> int {
        b2i(n > 0 && self.spec_color_at(Dir::N) == c && self.spec_is_in_atari(Dir::N)) + b2i(
            n > 1 && self.spec_color_at(Dir::E) == c && self.spec_is_in_atari(Dir::E),
        ) + b2i(n > 2 && self.spec_color_at(Dir::S) == c && self.spec_is_in_atari(Dir::S)) + b2i(
            n > 3 && self.spec_color_at(Dir::W) == c && self.spec_is_in_atari(Dir::W),
        )
    }

    /// Diagonal neighbors of color `c` among the directions below `n`.
    pub open spec fn diagonal_count_upto(self, c: Color, n: int) -> int {
        b2i(n > 4 && self.spec_color_at(Dir::NW) == c) + b2i(
            n > 5 && self.spec_color_at(Dir::NE) == c,
        ) + b2i(n > 6 && self.spec_color_at(Dir::SE) == c) + b2i(
            n > 7 && self.spec_color_at(Dir::SW) == c,
        )
    }
}

/// The direction with index `raw` (SW for anything above 6).
pub open spec fn dir_of_raw(raw: int) -> Dir {
    if raw == 0 {
        Dir::N
    } else if raw == 1 {
        Dir::E
    } else if raw == 2 {
        Dir::S
    } else if raw == 3 {
        Dir::W
    } else if raw == 4 {
        Dir::NW
    } else if raw == 5 {
        Dir::NE
    } else if raw == 6 {
        Dir::SE
    } else {
        Dir::SW
    }
}

/// The one of four cardinal arguments that belongs to `d`.
pub open spec fn flag_of(d: Dir, b_n: bool, b_e: bool, b_s: bool, b_w: bool) -> bool {
    match d {
        Dir::N => b_n,
        Dir::E => b_e,
        Dir::S => b_s,
        Dir::W => b_w,
        _ => false,
    }
}

proof fn lemma_flags_follow(x: u32, y: u32, i: u32)
    requires
        y & 0xf0000 == x & 0xf0000,
        x < 0x100000,
        y < 0x100000,
        16 <= i < 24,
    ensures
        (x & (1u32 << i) != 0) == (y & (1u32 << i) != 0),
{
    assert((x & (1u32 << i) != 0) == (y & (1u32 << i) != 0)) by (bit_vector)
        requires
            y & 0xf0000 == x & 0xf0000,
            x < 0x100000,
            y < 0x100000,
            16 <= i < 24,
    ;
}

proof fn lemma_no_high_bits(x: u32, i: u32)
    requires
        x < 0x10000,
        16 <= i < 32,
    ensures
        x & (1u32 << i) == 0,
{
    assert(x & (1u32 << i) == 0) by (bit_vector)
        requires
            x < 0x10000,
            16 <= i < 32,
    ;
}

impl Nat for Hash3x3 {
    open spec fn count() -> nat {
        0x100000
    }

    open spec fn raw_spec(self) -> nat {
        self.bits() as nat
    }

    fn raw(self) -> (r: usize) {
        proof {
            use_type_invariant(self);
        }
        self.raw as usize
    }

    fn of_raw(raw: usize) -> (r: Self) {
        Hash3x3 { raw: raw as u32 }
    }

    proof fn lemma_raw_injective(a: Self, b: Self) {
    }
}

// ---------------------------------------------------------------------------
// Hash3x3Map
// ---------------------------------------------------------------------------
/// A total map from fingerprints to `T`, kept on the heap because of its
/// size.  The view is the sequence of its `2^20` slots.
pub struct Hash3x3Map<T> {
    data: Vec<T>,
}

impl<T> View for Hash3x3Map<T> {
    type V = Seq<T>;

    closed spec fn view(&self) -> Seq<T> {
        self.data@
    }
}

impl<T> Hash3x3Map<T> {
    /// The map has one slot per fingerprint.
    #[verifier::type_invariant]
    pub open spec fn inv(&self) -> bool {
        self@.len() == 0x100000
    }
}

impl<T: Copy> Hash3x3Map<T> {
    /// The map that sends every fingerprint to `value`.
    pub fn new_with(value: T) -> (r: Self)
        ensures
            r@ == Seq::new(0x100000, |i: int| value),
    {
        let mut data: Vec<T> = Vec::with_capacity(HASH3X3_COUNT);
        let mut i: usize = 0;
        while i < HASH3X3_COUNT
            invariant
                0 <= i <= HASH3X3_COUNT,
                data@ =~= Seq::new(i as nat, |k: int| value),
            decreases HASH3X3_COUNT - i,
        {
            data.push(value);
            i += 1;
        }
        Hash3x3Map { data }
    }

    /// The value at `idx`.
    pub fn get(&self, idx: Hash3x3) -> (r: T)
        ensures
            r == self@[idx.bits() as int],
    {
        proof {
            use_type_invariant(self);
        }
        self.data[idx.raw()]
    }

    /// Replaces the value at `idx`.
    pub fn set(&mut self, idx: Hash3x3, value: T)
        ensures
            final(self)@ == old(self)@.update(idx.bits() as int, value),
    {
        proof {
            use_type_invariant(&*self);
        }
        let i: usize = idx.raw();
        self.data[i] = value;
    }
}

impl<T: Copy + Default> Hash3x3Map<T> {
    /// The map that sends every fingerprint to one default value of `T`.
    pub fn new() -> (r: Self)
        ensures
            forall|i: int| 0 <= i < 0x100000 ==> #[trigger] r@[i] == r@[0],
            call_ensures(T::default, (), r@[0]),
    {
        Self::new_with(T::default())
    }
}

// ---------------------------------------------------------------------------
// Hash
// ---------------------------------------------------------------------------
/// The word made of four generator outputs, each XOR-ed in at a 16-bit step.
pub open spec fn mix4(a: u32, b: u32, c: u32, d: u32) -> u64 {
    (a as u64) ^ ((b as u64) << 16) ^ ((c as u64) << 32) ^ ((d as u64) << 48)
}

/// Zobrist hash of a whole position.  The view is the 64-bit value.
#[derive(Copy, Clone, Debug, PartialEq, Eq, Structural)]
pub struct Hash {
    hash: u64,
}

impl View for Hash {
    type V = u64;

    closed spec fn view(&self) -> u64 {
        self.hash
    }
}

impl Default for Hash {
    fn default() -> (r: Hash)
        ensures
            r@ == 0,
    {
        Hash { hash: 0 }
    }
}

impl Hash {
    /// The zero hash.
    pub fn new() -> (r: Self)
        ensures
            r@ == 0,
    {
        Hash { hash: 0 }
    }

    pub fn set_zero(&mut self)
        ensures
            final(self)@ == 0,
    {
        self.hash = 0;
    }

    /// Replaces the hash by a word made of the next four outputs of `fr`.
    pub fn randomize(&mut self, fr: &mut FastRandom)
        ensures
            final(fr)@ == lcg_iter(old(fr)@, 4),
            final(self)@ == mix4(
                lcg_iter(old(fr)@, 1),
                lcg_iter(old(fr)@, 2),
                lcg_iter(old(fr)@, 3),
                lcg_iter(old(fr)@, 4),
            ),
    {
        proof {
            reveal_with_fuel(lcg_iter, 5);
        }
        let a: u64 = fr.get_next_uint() as u64;
        let b: u64 = fr.get_next_uint() as u64;
        let c: u64 = fr.get_next_uint() as u64;
        let d: u64 = fr.get_next_uint() as u64;
        self.hash = a ^ (b << 16) ^ (c << 32) ^ (d << 48);
    }

    /// The bitwise XOR of two hashes.
    pub fn xor(self, other: Hash) -> (r: Hash)
        ensures
            r@ == self@ ^ other@,
    {
        Hash { hash: self.hash ^ other.hash }
    }

    /// Equal hashes have equal values.
    pub broadcast proof fn lemma_view_eq(a: Hash, b: Hash)
        ensures
            (#[trigger] a@ == #[trigger] b@) <==> a == b,
    {
    }
}

// ---------------------------------------------------------------------------
// Zobrist
// ---------------------------------------------------------------------------
/// Seed of the generator that fills the Zobrist table.
pub const ZOBRIST_SEED: u32 = 123;

/// The Zobrist word of a stone of `pl` on the vertex `id`: the table is
/// filled for Black first, then for White, each over all vertex ids in order,
/// and every word takes four outputs of the generator.
#[verifier::opaque]
pub open spec fn zobrist_word(pl: Player, id: int) -> u64 {
    let k = (443 * pl.raw_spec() + id) as nat;
    mix4(
        lcg_iter(ZOBRIST_SEED, 4 * k + 1),
        lcg_iter(ZOBRIST_SEED, 4 * k + 2),
        lcg_iter(ZOBRIST_SEED, 4 * k + 3),
        lcg_iter(ZOBRIST_SEED, 4 * k + 4),
    )
}

proof fn lemma_lcg_iter_add(seed: u32, n: nat, m: nat)
    ensures
        lcg_iter(lcg_iter(seed, n), m) == lcg_iter(seed, n + m),
    decreases m,
{
    if m > 0 {
        lemma_lcg_iter_add(seed, n, (m - 1) as nat);
    }
}

/// The word drawn after `4 * k` outputs is the word of the player and vertex
/// number `k`, and the generator is then four outputs further.
proof fn lemma_word_drawn(k: nat, pl: Player, id: int)
    requires
        0 <= id < 443,
        k == 443 * player_index(pl) + id,
    ensures
        mix4(
            lcg_iter(lcg_iter(ZOBRIST_SEED, 4 * k), 1),
            lcg_iter(lcg_iter(ZOBRIST_SEED, 4 * k), 2),
            lcg_iter(lcg_iter(ZOBRIST_SEED, 4 * k), 3),
            lcg_iter(lcg_iter(ZOBRIST_SEED, 4 * k), 4),
        ) == zobrist_word(pl, id),
        lcg_iter(lcg_iter(ZOBRIST_SEED, 4 * k), 4) == lcg_iter(ZOBRIST_SEED, 4 * (k + 1)),
{
    reveal(zobrist_word);
    lemma_lcg_iter_add(ZOBRIST_SEED, 4 * k, 1);
    lemma_lcg_iter_add(ZOBRIST_SEED, 4 * k, 2);
    lemma_lcg_iter_add(ZOBRIST_SEED, 4 * k, 3);
    lemma_lcg_iter_add(ZOBRIST_SEED, 4 * k, 4);
    assert(pl.raw_spec() == player_index(pl));
}

/// Whether the first `k` entries of the table, in the order in which it is
/// filled, hold their words.
pub open spec fn table_filled(table: Seq<Hash>, k: int) -> bool {
    forall|p: Player, id: int|
        0 <= id < 443 && 443 * player_index(p) + id < k ==> #[trigger] table_word(table, p, id)
            == zobrist_word(p, id)
}

/// Writing the word of entry number `k` fills one entry more.
proof fn lemma_table_step(before: Seq<Hash>, k: int, pl: Player, id: int, h: Hash)
    requires
        before.len() == 886,
        table_filled(before, k),
        0 <= id < 443,
        k == 443 * player_index(pl) + id,
        h@ == zobrist_word(pl, id),
    ensures
        table_filled(before.update(player_index(pl) + 2 * id, h), k + 1),
{
    let after = before.update(player_index(pl) + 2 * id, h);
    assert forall|p: Player, j: int| 0 <= j < 443 && 443 * player_index(p) + j < k + 1 implies #[trigger] table_word(
        after,
        p,
        j,
    ) == zobrist_word(p, j) by {
        if p == pl && j == id {
        } else {
            assert(table_word(before, p, j) == zobrist_word(p, j));
            assert(player_index(p) + 2 * j != player_index(pl) + 2 * id);
        }
    }
}

/// The entry of a table of 886 words that belongs to `pl` and the vertex `id`.
pub open spec fn table_word(table: Seq<Hash>, pl: Player, id: int) -> u64 {
    table[player_index(pl) + 2 * id]@
}

/// The table of Zobrist words, one per player and vertex.
pub struct Zobrist {
    hashes: MoveMap<Hash>,
}

impl Zobrist {
    /// The word stored for a stone of `pl` on the vertex `id`.
    pub closed spec fn word(&self, pl: Player, id: int) -> u64 {
        table_word(self.hashes@, pl, id)
    }

    /// Every table holds the words that the seed determines.
    #[verifier::type_invariant]
    pub open spec fn inv(&self) -> bool {
        forall|pl: Player, id: int|
            0 <= id < 443 ==> #[trigger] self.word(pl, id) == zobrist_word(pl, id)
    }

    /// Fills the table from the generator seeded with 123: for every player
    /// and vertex it holds the word that four draws of the generator make,
    /// in the order black before white, and vertex by vertex.
    pub fn new() -> (r: Self)
        ensures
            forall|pl: Player, id: int|
                0 <= id < 443 ==> #[trigger] r.word(pl, id) == zobrist_word(pl, id),
    {
        let mut hashes: MoveMap<Hash> = NatMap::new_with(Hash::new());
        let mut rng = FastRandom::new(ZOBRIST_SEED);
        let mut k: usize = 0;
        while k < 886
            invariant
                0 <= k <= 886,
                hashes@.len() == 886,
                rng@ == lcg_iter(ZOBRIST_SEED, (4 * k) as nat),
                table_filled(hashes@, k as int),
            decreases 886 - k,
        {
            let pl = if k < 443 {
                Player::Black
            } else {
                Player::White
            };
            let v_raw: usize = if k < 443 {
                k
            } else {
                k - 443
            };
            let v = Vertex::from_index(v_raw);
            let mv = Move::of_player_vertex(pl, v);
            let ghost before = hashes@;
            let mut h = hashes.get(mv);
            h.randomize(&mut rng);
            hashes.set(mv, h);
            proof {
                lemma_word_drawn(k as nat, pl, v_raw as int);
                assert(mv.raw_spec() == player_index(pl) + 2 * v_raw);
                lemma_table_step(before, k as int, pl, v_raw as int, h);
            }
            k += 1;
        }
        let r = Zobrist { hashes };
        assert forall|pl: Player, id: int| 0 <= id < 443 implies #[trigger] r.word(pl, id)
            == zobrist_word(pl, id) by {
            assert(table_word(hashes@, pl, id) == zobrist_word(pl, id));
        }
        r
    }

    /// A copy of the table: it holds the word of `self` for every player
    /// and vertex.
    pub fn duplicate(&self) -> (r: Self)
        ensures
            forall|pl: Player, id: int|
                0 <= id < 443 ==> #[trigger] r.word(pl, id) == self.word(pl, id),
            forall|pl: Player, id: int|
                0 <= id < 443 ==> #[trigger] r.word(pl, id) == zobrist_word(pl, id),
    {
        proof {
            use_type_invariant(self);
        }
        let hashes = self.hashes.clone();
        assert forall|pl: Player, id: int| 0 <= id < 443 implies #[trigger] table_word(
            hashes@,
            pl,
            id,
        ) == zobrist_word(pl, id) by {
            assert(self.word(pl, id) == zobrist_word(pl, id));
        }
        let r = Zobrist { hashes };
        assert forall|pl: Player, id: int| 0 <= id < 443 implies #[trigger] r.word(pl, id)
            == self.word(pl, id) by {
            assert(table_word(hashes@, pl, id) == zobrist_word(pl, id));
            assert(self.word(pl, id) == zobrist_word(pl, id));
        }
        r
    }

    /// The word of a stone of `pl` on `v`.
    pub fn of_player_vertex(&self, pl: Player, v: Vertex) -> (r: Hash)
        ensures
            r@ == zobrist_word(pl, v.id()),
    {
        proof {
            use_type_invariant(self);
            use_type_invariant(v);
            assert(self.word(pl, v.id()) == zobrist_word(pl, v.id()));
        }
        self.hashes.get(Move::of_player_vertex(pl, v))
    }
}

} // verus!
