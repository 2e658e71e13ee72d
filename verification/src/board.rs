//! The board: stones, strings, liberties, ko, atari flags and 3x3
//! fingerprints, updated incrementally with every move.

use crate::atari::atari_ok;
use crate::hash::{Hash3x3, Zobrist};
use crate::joined::joined_ok;
use crate::liberties::{alive_ok, libs_ok};
use crate::nat_map::NatMap;
use crate::nat_set::NatSet;
use crate::position::{
    chains_ok, changed_ok, count_color, counters_ok, empty_ok, geom_ok, patterns_ok,
    position_hash, within, within_before,
};
use crate::types::{Color, Nat, Player, PlayerMap, Vertex, VertexMap};
use crate::vertex_list::listed;
use arrayvec::ArrayVec;
use vstd::prelude::*;

verus! {

/// `x` reduced to 32 bits.
pub open spec fn wrap32(x: int) -> u32 {
    (x % 0x1_0000_0000) as u32
}

/// Adding and subtracting the same amount cancel out, wrapped or not.
pub proof fn lemma_wrap_inverse(a: u32, d: int)
    requires
        0 <= d < 0x1_0000_0000,
    ensures
        wrap32(wrap32(a - d) + d) == a,
        wrap32(wrap32(a + d) - d) == a,
{
}

// ---------------------------------------------------------------------------
// NbrCounter
// ---------------------------------------------------------------------------
/// Packed counts of the cardinal neighbors of a vertex: the black count in
/// bits 0..4, the white count in bits 4..8, the empty count from bit 8 up.
/// A neighbor that is off the board counts as black and as white.
#[derive(Copy, Clone, Debug)]
pub struct NbrCounter {
    bitfield: u32,
}

/// Weight of one neighbor of `pl` in the packed field.
pub open spec fn player_unit(pl: Player) -> int {
    match pl {
        Player::Black => 1,
        Player::White => 16,
    }
}

impl Default for NbrCounter {
    fn default() -> (r: NbrCounter)
        ensures
            r.bits() == 4 * 256,
    {
        Self::empty()
    }
}

impl NbrCounter {
    /// The packed field.
    pub closed spec fn bits(self) -> u32 {
        self.bitfield
    }

    /// The field that holds exactly the counts `b`, `w` and `e`.
    pub open spec fn holds(self, b: int, w: int, e: int) -> bool {
        self.bits() == b + 16 * w + 256 * e
    }

    /// The empty count.
    pub open spec fn spec_empty_cnt(self) -> int {
        self.bits() as int / 256
    }

    /// The count of neighbors that are of `pl` or off the board.
    pub open spec fn spec_player_cnt(self, pl: Player) -> int {
        (self.bits() as int / player_unit(pl)) % 16
    }

    /// The counter of a vertex with four empty neighbors.
    pub fn empty() -> (r: Self)
        ensures
            r.holds(0, 0, 4),
    {
        Self::of_counts(0, 0, 4)
    }

    /// The counter with the given counts, each at most 4.
    pub fn of_counts(black_cnt: u32, white_cnt: u32, empty_cnt: u32) -> (r: Self)
        requires
            black_cnt <= 4,
            white_cnt <= 4,
            empty_cnt <= 4,
        ensures
            r.holds(black_cnt as int, white_cnt as int, empty_cnt as int),
    {
        assert(white_cnt << 4 == 16 * white_cnt && empty_cnt << 8 == 256 * empty_cnt)
            by (bit_vector)
            requires
                white_cnt <= 4,
                empty_cnt <= 4,
        ;
        NbrCounter { bitfield: black_cnt + (white_cnt << 4) + (empty_cnt << 8) }
    }

    /// A neighbor turns from empty into a stone of `player`.
    pub fn player_inc(&mut self, player: Player)
        ensures
            final(self).bits() == wrap32(old(self).bits() + player_unit(player) - 256),
    {
        let inc: u32 = match player {
            Player::Black => 0xffff_ff01,
            Player::White => 0xffff_ff10,
        };
        self.bitfield = self.bitfield.wrapping_add(inc);
    }

    /// A neighbor turns from a stone of `player` into empty.
    pub fn player_dec(&mut self, player: Player)
        ensures
            final(self).bits() == wrap32(old(self).bits() - player_unit(player) + 256),
    {
        let inc: u32 = match player {
            Player::Black => 0xffff_ff01,
            Player::White => 0xffff_ff10,
        };
        self.bitfield = self.bitfield.wrapping_sub(inc);
    }

    /// A neighbor that counted as empty turns out to be off the board.
    pub fn off_board_inc(&mut self)
        ensures
            final(self).bits() == wrap32(old(self).bits() + 1 + 16 - 256),
    {
        let inc: u32 = 1u32.wrapping_add(16).wrapping_sub(256);
        self.bitfield = self.bitfield.wrapping_add(inc);
    }

    pub fn empty_cnt(&self) -> (r: u32)
        ensures
            r == self.spec_empty_cnt(),
    {
        let x: u32 = self.bitfield;
        assert(x >> 8 == x / 256) by (bit_vector);
        self.bitfield >> 8
    }

    pub fn player_cnt(&self, pl: Player) -> (r: u32)
        ensures
            r == self.spec_player_cnt(pl),
    {
        let x: u32 = self.bitfield;
        assert((x >> 0) & 15 == (x / 1) % 16 && (x >> 4) & 15 == (x / 16) % 16) by (bit_vector);
        match pl {
            Player::Black => (self.bitfield >> 0) & 15,
            Player::White => (self.bitfield >> 4) & 15,
        }
    }

    /// Whether bit 2 of the count of `pl` is set: for counts up to 4, whether
    /// all four neighbors are of `pl` or off the board.
    pub fn player_cnt_is_max(&self, pl: Player) -> (r: bool)
        ensures
            r == (self.spec_player_cnt(pl) / 4 % 2 == 1),
            self.spec_player_cnt(pl) <= 4 ==> r == (self.spec_player_cnt(pl) == 4),
    {
        let x: u32 = self.bitfield;
        assert(((4u32 & x) == 4u32) == (((x / 1) % 16) / 4 % 2 == 1) && ((64u32 & x) == 64u32) == (((
        x / 16) % 16) / 4 % 2 == 1)) by (bit_vector);
        match pl {
            Player::Black => (4u32 & self.bitfield) == 4u32,
            Player::White => (64u32 & self.bitfield) == 64u32,
        }
    }

    /// Reading the counts of a field that holds counts below 16.
    pub proof fn lemma_holds(self, b: int, w: int, e: int)
        requires
            self.holds(b, w, e),
            0 <= b < 16,
            0 <= w < 16,
            0 <= e,
        ensures
            self.spec_player_cnt(Player::Black) == b,
            self.spec_player_cnt(Player::White) == w,
            self.spec_empty_cnt() == e,
    {
        let x = self.bits() as int;
        assert(player_unit(Player::Black) == 1 && player_unit(Player::White) == 16);
        assert(x == b + 16 * (w + 16 * e));
        assert(x / 1 == x);
        assert(x % 16 == b);
        assert(x / 16 == w + 16 * e);
        assert((x / 16) % 16 == w);
        assert(x / 256 == e);
    }
}

// ---------------------------------------------------------------------------
// Chain
// ---------------------------------------------------------------------------
/// The record of a string: its size and the first moments of its liberties,
/// counted once for every stone of the string that touches them.
#[derive(Copy, Clone, Debug)]
pub struct Chain {
    pub lib_cnt: u32,
    pub lib_sum: u32,
    pub lib_sum2: u32,
    pub size: u32,
    pub atari_v: Vertex,
}

impl Default for Chain {
    fn default() -> (r: Chain)
        ensures
            r.lib_cnt == 0,
            r.lib_sum == 0,
            r.lib_sum2 == 0,
            r.size == 0,
            r.atari_v.id() == 442,
    {
        Chain { lib_cnt: 0, lib_sum: 0, lib_sum2: 0, size: 0, atari_v: Vertex::none() }
    }
}

impl Chain {
    /// The record after the liberty `id` was counted once more, each moment
    /// reduced to 32 bits.
    pub open spec fn lib_added(self, id: int) -> Chain {
        Chain {
            lib_cnt: wrap32(self.lib_cnt + 1),
            lib_sum: wrap32(self.lib_sum + id),
            lib_sum2: wrap32(self.lib_sum2 + id * id),
            size: self.size,
            atari_v: self.atari_v,
        }
    }

    /// The record after the liberty `id` was counted once less, each moment
    /// reduced to 32 bits.
    pub open spec fn lib_removed(self, id: int) -> Chain {
        Chain {
            lib_cnt: wrap32(self.lib_cnt - 1),
            lib_sum: wrap32(self.lib_sum - id),
            lib_sum2: wrap32(self.lib_sum2 - id * id),
            size: self.size,
            atari_v: self.atari_v,
        }
    }

    /// Whether the moments are those of one vertex counted `lib_cnt` times.
    pub open spec fn spec_is_in_atari(self) -> bool {
        self.lib_cnt as int * self.lib_sum2 as int == self.lib_sum as int * self.lib_sum as int
    }

    /// The record of a string without stones.
    pub fn reset(&mut self)
        ensures
            final(self).lib_cnt == 0,
            final(self).lib_sum == 0,
            final(self).lib_sum2 == 0,
            final(self).size == 0,
            final(self).atari_v.id() == 442,
    {
        self.lib_cnt = 0;
        self.lib_sum = 0;
        self.lib_sum2 = 0;
        self.size = 0;
        self.atari_v = Vertex::none();
    }

    /// The record kept at a vertex off the board, which never looks captured
    /// nor in atari.
    pub fn reset_off_board(&mut self)
        ensures
            final(self).is_off_board_record(),
            final(self).atari_v.id() == 442,
            !final(self).spec_is_in_atari(),
    {
        self.lib_cnt = 2;
        self.lib_sum = 1;
        self.lib_sum2 = 1;
        self.size = 100;
        self.atari_v = Vertex::none();
    }

    /// Counts the liberty `v` once more.
    pub fn add_lib(&mut self, v: Vertex)
        ensures
            *final(self) == old(self).lib_added(v.id()),
    {
        let id: u32 = v.index() as u32;
        assert(id * id < 0x1_0000_0000) by (nonlinear_arith)
            requires
                id < 443,
        ;
        self.lib_cnt = self.lib_cnt.wrapping_add(1);
        self.lib_sum = self.lib_sum.wrapping_add(id);
        self.lib_sum2 = self.lib_sum2.wrapping_add(id * id);
    }

    /// Counts the liberty `v` once less.
    pub fn sub_lib(&mut self, v: Vertex)
        ensures
            *final(self) == old(self).lib_removed(v.id()),
    {
        let id: u32 = v.index() as u32;
        assert(id * id < 0x1_0000_0000) by (nonlinear_arith)
            requires
                id < 443,
        ;
        let sq: u32 = id * id;
        assert(sq == v.id() * v.id());
        self.lib_cnt = self.lib_cnt.wrapping_sub(1);
        self.lib_sum = self.lib_sum.wrapping_sub(id);
        self.lib_sum2 = self.lib_sum2.wrapping_sub(sq);
        assert(self.lib_cnt == wrap32(old(self).lib_cnt - 1));
        assert(self.lib_sum == wrap32(old(self).lib_sum - id));
        assert(self.lib_sum2 == wrap32(old(self).lib_sum2 - sq));
    }

    /// Removing a liberty and adding it again restores the record, and the
    /// other way round, whatever wrapped in between.
    pub proof fn lemma_add_sub_inverse(self, id: int)
        requires
            0 <= id < 443,
        ensures
            self.lib_removed(id).lib_added(id) == self,
            self.lib_added(id).lib_removed(id) == self,
    {
        let q = id * id;
        assert(0 <= q < 0x1_0000_0000) by (nonlinear_arith)
            requires
                0 <= id < 443,
                q == id * id,
        ;
        lemma_wrap_inverse(self.lib_cnt, 1);
        lemma_wrap_inverse(self.lib_sum, id);
        lemma_wrap_inverse(self.lib_sum2, q);
    }

    /// Adds the size and the moments of `other`, each reduced to 32 bits.
    pub fn merge(&mut self, other: &Chain)
        ensures
            final(self).lib_cnt == wrap32(old(self).lib_cnt + other.lib_cnt),
            final(self).lib_sum == wrap32(old(self).lib_sum + other.lib_sum),
            final(self).lib_sum2 == wrap32(old(self).lib_sum2 + other.lib_sum2),
            final(self).size == wrap32(old(self).size + other.size),
            final(self).atari_v == old(self).atari_v,
    {
        self.lib_cnt = self.lib_cnt.wrapping_add(other.lib_cnt);
        self.lib_sum = self.lib_sum.wrapping_add(other.lib_sum);
        self.lib_sum2 = self.lib_sum2.wrapping_add(other.lib_sum2);
        self.size = self.size.wrapping_add(other.size);
    }

    pub fn is_captured(&self) -> (r: bool)
        ensures
            r == (self.lib_cnt == 0),
    {
        self.lib_cnt == 0
    }

    pub fn is_in_atari(&self) -> (r: bool)
        ensures
            r == self.spec_is_in_atari(),
    {
        let a: u64 = self.lib_cnt as u64;
        let b: u64 = self.lib_sum2 as u64;
        let c: u64 = self.lib_sum as u64;
        assert(a * b <= 0xffff_ffff * 0xffff_ffff && c * c <= 0xffff_ffff * 0xffff_ffff)
            by (nonlinear_arith)
            requires
                a <= 0xffff_ffff,
                b <= 0xffff_ffff,
                c <= 0xffff_ffff,
        ;
        a * b == c * c
    }

    /// The liberty recorded for a string in atari.
    pub fn atari_vertex(&self) -> (r: Vertex)
        requires
            self.spec_is_in_atari(),
        ensures
            r == self.atari_v,
    {
        self.atari_v
    }

    /// The record kept at a vertex off the board.
    pub open spec fn is_off_board_record(self) -> bool {
        self.lib_cnt == 2 && self.lib_sum == 1 && self.lib_sum2 == 1 && self.size == 100
    }
}

// ---------------------------------------------------------------------------
// Board
// ---------------------------------------------------------------------------
/// Number of points of the largest board.
pub const K_AREA: usize = 361;

/// `ceil(-komi)` for the komi of 6.5 points.
pub const KOMI_INVERSE: i32 = -6;

pub struct Board {
    pub(crate) move_no: usize,
    pub(crate) color_at: VertexMap<Color>,
    pub(crate) ko_v: Vertex,
    pub(crate) last_player: Player,
    pub(crate) last_play: PlayerMap<Vertex>,
    pub(crate) board_width: usize,
    pub(crate) board_height: usize,
    pub(crate) hash: crate::hash::Hash,
    pub(crate) zobrist: Zobrist,
    pub(crate) player_v_cnt: PlayerMap<u32>,
    pub(crate) chain_next_v: VertexMap<Vertex>,
    pub(crate) chain_id: VertexMap<Vertex>,
    pub(crate) chain: VertexMap<Chain>,
    pub(crate) nbr_cnt: VertexMap<NbrCounter>,
    pub(crate) empty_v_cnt: u32,
    pub(crate) empty_v: [Vertex; 361],
    pub(crate) empty_pos: VertexMap<u32>,
    pub(crate) play_count: VertexMap<u32>,
    pub(crate) hash3x3: VertexMap<Hash3x3>,
    pub(crate) hash3x3_changed: ArrayVec<u32, 361>,
    pub(crate) tmp_vertex_set: NatSet<443, Vertex>,
    /// For every head of a string, the stones of the string in link order.
    pub(crate) order: Ghost<Seq<Seq<int>>>,
    /// For every stone, its place in the order of its string.
    pub(crate) place: Ghost<Seq<int>>,
}

impl Board {
    // -- the model ----------------------------------------------------------
    /// Number of columns.
    pub open(crate) spec fn width(&self) -> int {
        self.board_width as int
    }

    /// Number of rows.
    pub open(crate) spec fn height(&self) -> int {
        self.board_height as int
    }

    /// The color of every vertex, by id.
    pub open(crate) spec fn colors(&self) -> Seq<Color> {
        self.color_at@
    }

    /// Number of moves played, passes included.
    pub open(crate) spec fn spec_move_count(&self) -> int {
        self.move_no as int
    }

    pub open(crate) spec fn spec_last_player(&self) -> Player {
        self.last_player
    }

    /// The last move of `pl`, `none` before the first.
    pub open(crate) spec fn spec_last_play(&self, pl: Player) -> Vertex {
        self.last_play@[pl.raw_spec() as int]
    }

    pub open(crate) spec fn spec_ko_vertex(&self) -> Vertex {
        self.ko_v
    }

    pub open(crate) spec fn spec_positional_hash(&self) -> u64 {
        self.hash@
    }

    /// Number of empty vertices.
    pub open(crate) spec fn spec_empty_count(&self) -> int {
        self.empty_v_cnt as int
    }

    /// The list of empty vertices; its first `spec_empty_count()` entries
    /// count.
    pub open(crate) spec fn empties(&self) -> Seq<Vertex> {
        self.empty_v@
    }

    /// The place of every empty vertex in `empties()`.
    pub open(crate) spec fn empty_places(&self) -> Seq<u32> {
        self.empty_pos@
    }

    /// The number of stones of `pl`.
    pub open(crate) spec fn spec_stone_count(&self, pl: Player) -> int {
        self.player_v_cnt@[pl.raw_spec() as int] as int
    }

    /// The head of the string of every vertex.
    pub open(crate) spec fn chain_ids(&self) -> Seq<Vertex> {
        self.chain_id@
    }

    /// The next stone on the string of every vertex.
    pub open(crate) spec fn chain_nexts(&self) -> Seq<Vertex> {
        self.chain_next_v@
    }

    /// The string records, by head.
    pub open(crate) spec fn chain_records(&self) -> Seq<Chain> {
        self.chain@
    }

    /// The neighbor counters.
    pub open(crate) spec fn counters(&self) -> Seq<NbrCounter> {
        self.nbr_cnt@
    }

    /// The 3x3 fingerprints.
    pub open(crate) spec fn patterns(&self) -> Seq<Hash3x3> {
        self.hash3x3@
    }

    /// The ids of the vertices whose fingerprint the last move changed.
    pub open(crate) spec fn changed(&self) -> Seq<u32> {
        listed(self.hash3x3_changed)
    }

    /// The tables have one slot per key.
    pub open(crate) spec fn lens_ok(&self) -> bool {
        &&& self.color_at@.len() == 443
        &&& self.last_play@.len() == 2
        &&& self.player_v_cnt@.len() == 2
        &&& self.chain_next_v@.len() == 443
        &&& self.chain_id@.len() == 443
        &&& self.chain@.len() == 443
        &&& self.nbr_cnt@.len() == 443
        &&& self.empty_v@.len() == 361
        &&& self.empty_pos@.len() == 443
        &&& self.play_count@.len() == 443
        &&& self.hash3x3@.len() == 443
    }

    pub(crate) proof fn lemma_lens(&self)
        ensures
            self.lens_ok(),
    {
        broadcast use NatMap::lemma_len;

    }

    /// The dimensions are between 1 and 19.
    pub open(crate) spec fn dims_ok(&self) -> bool {
        1 <= self.board_width <= 19 && 1 <= self.board_height <= 19
    }

    /// The stone counts are the numbers of stones, and with the empty count
    /// they make up the area.
    #[verifier::opaque]
    pub open(crate) spec fn counts_ok(&self) -> bool {
        &&& self.spec_empty_count() == count_color(self.colors(), Color::Empty, 443)
        &&& self.spec_stone_count(Player::Black) == count_color(self.colors(), Color::Black, 443)
        &&& self.spec_stone_count(Player::White) == count_color(self.colors(), Color::White, 443)
        &&& self.spec_empty_count() + self.spec_stone_count(Player::Black)
            + self.spec_stone_count(Player::White) == self.width() * self.height()
    }

    /// The tables that do not speak of strings agree with the colors: the
    /// list of empty vertices, the stone counts, the neighbor counters, the
    /// fingerprints, the hash and the list of changed vertices.
    #[verifier::opaque]
    pub open(crate) spec fn wf_geo(&self) -> bool {
        &&& self.wf_flat()
        &&& patterns_ok(self.colors(), self.patterns(), self.width(), self.height())
    }

    /// `wf_geo` without the fingerprints.
    #[verifier::opaque]
    pub open(crate) spec fn wf_flat(&self) -> bool {
        &&& self.wf_stones()
        &&& counters_ok(self.colors(), self.counters(), self.width(), self.height())
    }

    /// `wf_flat` without the neighbor counters.
    #[verifier::opaque]
    pub open(crate) spec fn wf_stones(&self) -> bool {
        &&& self.lens_ok()
        &&& geom_ok(self.colors(), self.width(), self.height())
        &&& empty_ok(self.colors(), self.empties(), self.empty_places(), self.spec_empty_count())
        &&& self.counts_ok()
        &&& self.spec_positional_hash() == position_hash(self.colors(), 443)
        &&& changed_ok(self.colors(), self.changed())
        &&& self.plays_ok()
    }

    /// What the list of changed vertices rests on: the board, and the list
    /// of empty vertices.
    #[verifier::opaque]
    pub open(crate) spec fn wf_listing(&self) -> bool {
        &&& self.lens_ok()
        &&& geom_ok(self.colors(), self.width(), self.height())
        &&& empty_ok(self.colors(), self.empties(), self.empty_places(), self.spec_empty_count())
        &&& changed_ok(self.colors(), self.changed())
    }

    /// No vertex was played more often than moves were made.
    #[verifier::opaque]
    pub open(crate) spec fn plays_ok(&self) -> bool {
        forall|i: int| 0 <= i < 443 ==> #[trigger] self.play_count@[i] <= self.move_no
    }

    /// Whether `self` differs from `o` at most in the groups of tables that
    /// are named `true`: the tables that follow the colors, the links of the
    /// strings, the string records, the fingerprints, the list of changed
    /// vertices with its marks, and the state of the turn.
    pub open(crate) spec fn same_except(
        &self,
        o: &Board,
        stones: bool,
        links: bool,
        records: bool,
        patterns: bool,
        list: bool,
        turn: bool,
    ) -> bool {
        &&& self.board_width == o.board_width
        &&& self.board_height == o.board_height
        &&& self.zobrist == o.zobrist
        &&& (stones || (self.color_at == o.color_at && self.hash == o.hash && self.player_v_cnt
            == o.player_v_cnt && self.empty_v_cnt == o.empty_v_cnt && self.empty_v == o.empty_v
            && self.empty_pos == o.empty_pos && self.nbr_cnt == o.nbr_cnt))
        &&& (links || (self.chain_next_v == o.chain_next_v && self.chain_id == o.chain_id
            && self.order == o.order && self.place == o.place))
        &&& (records || self.chain == o.chain)
        &&& (patterns || self.hash3x3 == o.hash3x3)
        &&& (list || (self.hash3x3_changed == o.hash3x3_changed && self.tmp_vertex_set
            == o.tmp_vertex_set))
        &&& (turn || (self.move_no == o.move_no && self.ko_v == o.ko_v && self.last_player
            == o.last_player && self.last_play == o.last_play && self.play_count == o.play_count))
    }

    /// The strings partition the stones.
    pub open(crate) spec fn wf_chains(&self) -> bool {
        chains_ok(
            self.colors(),
            self.chain_ids(),
            self.chain_nexts(),
            self.chain_records(),
            self.order@,
            self.place@,
        )
    }

    /// The ko vertex, if there is one, is empty.
    pub open(crate) spec fn wf_ko(&self) -> bool {
        self.ko_v.id() == 442 || (0 <= self.ko_v.id() < 443 && self.colors()[self.ko_v.id()]
            == Color::Empty)
    }

    /// The string records hold the moments of the liberties of their
    /// strings.
    pub open(crate) spec fn wf_libs(&self) -> bool {
        libs_ok(self.colors(), self.colors(), self.chain_ids(), self.chain_records())
    }

    /// Stones of one color that touch belong to one string.
    pub open(crate) spec fn wf_joined(&self) -> bool {
        joined_ok(self.colors(), self.chain_ids(), -1)
    }

    /// Every string has a liberty.
    pub open(crate) spec fn wf_alive(&self) -> bool {
        alive_ok(self.colors(), self.chain_ids(), self.chain_records())
    }

    /// The atari flags of the fingerprint of an empty vertex say which of its
    /// neighbors are stones of strings in atari.
    pub open(crate) spec fn wf_atari(&self) -> bool {
        atari_ok(
            self.colors(),
            self.chain_ids(),
            self.chain_records(),
            self.patterns(),
            Set::empty(),
        )
    }

    /// The invariant of the board: every table agrees with the colors.
    pub open(crate) spec fn wf(&self) -> bool {
        &&& self.wf_geo()
        &&& self.wf_chains()
        &&& self.wf_libs()
        &&& self.wf_joined()
        &&& self.wf_alive()
        &&& self.wf_atari()
        &&& self.wf_ko()
    }

    /// The position without stones on a board of the same size, before the
    /// first move.
    pub open(crate) spec fn is_cleared(&self) -> bool {
        &&& forall|i: int|
            0 <= i < 443 ==> #[trigger] self.colors()[i] == if within(
                i,
                self.width(),
                self.height(),
            ) {
                Color::Empty
            } else {
                Color::OffBoard
            }
        &&& forall|i: int|
            0 <= i < 443 && within(i, self.width(), self.height())
                ==> #[trigger] self.empty_places()[i] == within_before(
                i,
                self.width(),
                self.height(),
            )
        &&& forall|i: int|
            0 <= i < 443 ==> (#[trigger] self.patterns()[i]).no_atari() && (!within(
                i,
                self.width(),
                self.height(),
            ) ==> self.patterns()[i].bits() == 0)
        &&& self.spec_empty_count() == self.width() * self.height()
        &&& self.spec_move_count() == 0
        &&& self.spec_last_player() == Player::White
        &&& self.spec_last_play(Player::Black).id() == 442
        &&& self.spec_last_play(Player::White).id() == 442
        &&& self.spec_ko_vertex().id() == 442
        &&& self.spec_positional_hash() == 0
        &&& self.changed() == Seq::<u32>::empty()
    }

}

} // verus!
