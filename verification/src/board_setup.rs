//! Construction and reset of the board.

use crate::atari::{atari_ok, flag_ok};
use crate::board::{Board, Chain, NbrCounter};
use crate::hash::{Hash3x3, Zobrist};
use crate::nat_map::NatMap;
use crate::nat_set::NatSet;
use crate::position::{
    chains_ok, changed_ok, counter_matches, counters_ok, empty_ok, geom_ok, lemma_count_cleared,
    lemma_hash_no_stones, lemma_on_board, lemma_within_range, lemma_within_step, pattern_matches,
    patterns_ok, position_hash, within, within_before,
};
use crate::types::{color_is_player, color_to_player, Color, Dir, Player, Vertex};
use crate::vertex_list::{list_clear, list_new};
use vstd::prelude::*;

verus! {

impl Board {
    // -- construction ---------------------------------------------------------
    /// The empty 9x9 board.
    pub fn new() -> (r: Self)
        ensures
            r.wf(),
            r.is_cleared(),
            r.width() == 9,
            r.height() == 9,
    {
        Self::with_size(9, 9)
    }

    /// The empty board of `width` columns and `height` rows.
    pub fn with_size(width: usize, height: usize) -> (r: Self)
        requires
            1 <= width <= 19,
            1 <= height <= 19,
        ensures
            r.wf(),
            r.is_cleared(),
            r.width() == width,
            r.height() == height,
    {
        let mut board = Board {
            move_no: 0,
            color_at: NatMap::new_with(Color::Empty),
            ko_v: Vertex::none(),
            last_player: Player::White,
            last_play: NatMap::new_with(Vertex::none()),
            board_width: width,
            board_height: height,
            hash: crate::hash::Hash::new(),
            zobrist: Zobrist::new(),
            player_v_cnt: NatMap::new_with(0u32),
            chain_next_v: NatMap::new_with(Vertex::none()),
            chain_id: NatMap::new_with(Vertex::none()),
            chain: NatMap::new_with(Chain::default()),
            nbr_cnt: NatMap::new_with(NbrCounter::empty()),
            empty_v_cnt: 0,
            empty_v: [Vertex::none();361],
            empty_pos: NatMap::new_with(0u32),
            play_count: NatMap::new_with(0u32),
            hash3x3: NatMap::new_with(Hash3x3::default()),
            hash3x3_changed: list_new(),
            tmp_vertex_set: NatSet::new(),
            order: Ghost(Seq::new(443, |i: int| Seq::<int>::empty())),
            place: Ghost(Seq::new(443, |i: int| 0int)),
        };
        board.reset();
        board
    }

    /// Resets to the position without stones.
    pub fn clear(&mut self)
        requires
            old(self).wf(),
        ensures
            final(self).wf(),
            final(self).is_cleared(),
            final(self).width() == old(self).width(),
            final(self).height() == old(self).height(),
    {
        proof {
            reveal(Board::wf_geo);
            reveal(Board::wf_flat);
            reveal(Board::wf_stones);
            reveal(Board::counts_ok);
        }
        proof {
            self.lemma_wf_basics();
        }
        self.reset();
    }

    /// The tables other than the counters and the fingerprints are those of
    /// the position without stones.
    pub(crate) open spec fn stage_filled(&self) -> bool {
        let w = self.board_width as int;
        let h = self.board_height as int;
        &&& self.lens_ok()
        &&& self.dims_ok()
        &&& self.move_no == 0
        &&& self.last_player == Player::White
        &&& self.ko_v.id() == 442
        &&& self.empty_v_cnt == w * h
        &&& forall|j: int|
            0 <= j < 443 ==> {
                &&& #[trigger] self.color_at@[j] == if within(j, w, h) {
                    Color::Empty
                } else {
                    Color::OffBoard
                }
                &&& self.chain_next_v@[j].id() == j
                &&& self.chain_id@[j].id() == j
                &&& self.play_count@[j] == 0
            }
        &&& forall|j: int|
            0 <= j < 443 && within(j, w, h) ==> #[trigger] self.empty_pos@[j] == within_before(
                j,
                w,
                h,
            ) && self.empty_pos@[j] < self.empty_v_cnt && self.empty_v@[self.empty_pos@[j] as int].id()
                == j
        &&& forall|k: int|
            0 <= k < self.empty_v_cnt ==> 0 <= (#[trigger] self.empty_v@[k]).id() < 443 && within(
                self.empty_v@[k].id(),
                w,
                h,
            ) && self.empty_pos@[self.empty_v@[k].id()] == k
    }

    /// The counters of the vertices below `n` are those of the position
    /// without stones.
    pub(crate) open spec fn stage_counted(&self, n: int) -> bool {
        forall|j: int|
            0 <= j < n && within(j, self.board_width as int, self.board_height as int)
                ==> #[trigger] counter_matches(self.color_at@, j, self.nbr_cnt@[j])
    }

    /// The fingerprints of the vertices below `n` are those of the position
    /// without stones.
    pub(crate) open spec fn stage_patterned(&self, n: int) -> bool {
        let w = self.board_width as int;
        let h = self.board_height as int;
        forall|j: int|
            0 <= j < n ==> (#[trigger] self.hash3x3@[j]).no_atari() && (within(j, w, h)
                ==> pattern_matches(self.color_at@, j, self.hash3x3@[j])) && (!within(j, w, h)
                ==> self.hash3x3@[j].bits() == 0)
    }

    fn reset(&mut self)
        requires
            old(self).dims_ok(),
        ensures
            final(self).wf(),
            final(self).is_cleared(),
            final(self).width() == old(self).width(),
            final(self).height() == old(self).height(),
    {
        proof {
            reveal(Board::wf_geo);
            reveal(Board::wf_flat);
            reveal(Board::wf_stones);
            reveal(Board::counts_ok);
        }
        let ghost w = self.board_width as int;
        let ghost h = self.board_height as int;
        proof {
            self.lemma_lens();
        }
        self.move_no = 0;
        self.last_player = Player::White;
        self.ko_v = Vertex::none();
        let mut i: usize = 0;
        while i < 443
            invariant
                0 <= i <= 443,
                self.lens_ok(),
                self.board_width == w,
                self.board_height == h,
                self.move_no == 0,
                self.last_player == Player::White,
                self.ko_v.id() == 442,
                forall|j: int|
                    0 <= j < i ==> {
                        &&& #[trigger] self.color_at@[j] == Color::OffBoard
                        &&& self.chain_next_v@[j].id() == j
                        &&& self.chain_id@[j].id() == j
                        &&& self.play_count@[j] == 0
                    },
            decreases 443 - i,
        {
            let v = Vertex::from_index(i);
            self.color_at.set(v, Color::OffBoard);
            self.chain_next_v.set(v, v);
            self.chain_id.set(v, v);
            self.nbr_cnt.set(v, NbrCounter::empty());
            self.play_count.set(v, 0);
            self.empty_pos.set(v, 0);
            let mut c = self.chain.get(v);
            c.reset_off_board();
            self.chain.set(v, c);
            i += 1;
        }
        self.empty_v_cnt = 0;
        let mut i: usize = 0;
        proof {
            lemma_within_step(0, w, h);
        }
        while i < 443
            invariant
                0 <= i <= 443,
                self.lens_ok(),
                1 <= w <= 19,
                1 <= h <= 19,
                self.board_width == w,
                self.board_height == h,
                self.move_no == 0,
                self.last_player == Player::White,
                self.ko_v.id() == 442,
                self.empty_v_cnt == within_before(i as int, w, h),
                self.empty_v_cnt <= i,
                forall|j: int|
                    0 <= j < 443 ==> {
                        &&& #[trigger] self.color_at@[j] == if j < i && within(j, w, h) {
                            Color::Empty
                        } else {
                            Color::OffBoard
                        }
                        &&& self.chain_next_v@[j].id() == j
                        &&& self.chain_id@[j].id() == j
                        &&& self.play_count@[j] == 0
                    },
                forall|j: int|
                    0 <= j < i && within(j, w, h) ==> #[trigger] self.empty_pos@[j]
                        == within_before(j, w, h) && self.empty_pos@[j] < self.empty_v_cnt
                        && self.empty_v@[self.empty_pos@[j] as int].id() == j,
                forall|k: int|
                    0 <= k < self.empty_v_cnt ==> 0 <= (#[trigger] self.empty_v@[k]).id() < i
                        && within(self.empty_v@[k].id(), w, h) && self.empty_pos@[self.empty_v@[k].id()]
                        == k,
            decreases 443 - i,
        {
            let v = Vertex::from_index(i);
            proof {
                lemma_within_step(i as int, w, h);
            }
            if self.is_within_board(v) {
                self.color_at.set(v, Color::Empty);
                let mut c = self.chain.get(v);
                c.reset();
                self.chain.set(v, c);
                let ghost list0 = self.empty_v@;
                let ghost pos0 = self.empty_pos@;
                let ghost cnt0 = self.empty_v_cnt as int;
                self.empty_pos.set(v, self.empty_v_cnt);
                self.empty_v[self.empty_v_cnt as usize] = v;
                self.empty_v_cnt += 1;
                proof {
                    assert(self.empty_v@ == list0.update(cnt0, v));
                    assert(self.empty_pos@ == pos0.update(i as int, cnt0 as u32));
                    assert forall|k: int| 0 <= k < self.empty_v_cnt implies 0 <= (
                    #[trigger] self.empty_v@[k]).id() < i + 1 && within(
                        self.empty_v@[k].id(),
                        w,
                        h,
                    ) && self.empty_pos@[self.empty_v@[k].id()] == k by {
                        if k < cnt0 {
                            assert(self.empty_v@[k] == list0[k]);
                            assert(0 <= list0[k].id() < i);
                        }
                    }
                    assert forall|j: int| 0 <= j < i + 1 && within(j, w, h) implies #[trigger] self.empty_pos@[j]
                        == within_before(j, w, h) && self.empty_pos@[j] < self.empty_v_cnt
                        && self.empty_v@[self.empty_pos@[j] as int].id() == j by {
                        if j < i {
                            assert(pos0[j] == within_before(j, w, h));
                            assert(list0[pos0[j] as int].id() == j);
                            assert(pos0[j] < cnt0);
                        }
                    }
                }
            }
            i += 1;
        }
        proof {
            lemma_within_step(0, w, h);
            assert(self.stage_filled());
        }
        let mut i: usize = 0;
        while i < 443
            invariant
                0 <= i <= 443,
                1 <= w <= 19,
                1 <= h <= 19,
                self.board_width == w,
                self.board_height == h,
                self.stage_filled(),
                self.stage_counted(i as int),
            decreases 443 - i,
        {
            let v = Vertex::from_index(i);
            let ghost colors = self.color_at@;
            let ghost before = *self;
            if self.color_at.get(v) == Color::Empty {
                proof {
                    assert(within(i as int, w, h));
                    lemma_within_range(i as int, w, h);
                    assert(colors[i - 21] == Color::Empty || colors[i - 21] == Color::OffBoard);
                    assert(colors[i - 1] == Color::Empty || colors[i - 1] == Color::OffBoard);
                    assert(colors[i + 1] == Color::Empty || colors[i + 1] == Color::OffBoard);
                    assert(colors[i + 21] == Color::Empty || colors[i + 21] == Color::OffBoard);
                }
                let mut c = NbrCounter::empty();
                if self.color_at.get(v.up()) == Color::OffBoard {
                    c.off_board_inc();
                }
                if self.color_at.get(v.left()) == Color::OffBoard {
                    c.off_board_inc();
                }
                if self.color_at.get(v.right()) == Color::OffBoard {
                    c.off_board_inc();
                }
                if self.color_at.get(v.down()) == Color::OffBoard {
                    c.off_board_inc();
                }
                self.nbr_cnt.set(v, c);
                proof {
                    assert(counter_matches(colors, i as int, c));
                }
            } else {
                proof {
                    assert(!within(i as int, w, h));
                }
            }
            proof {
                assert forall|j: int| 0 <= j < i + 1 && within(j, w, h) implies #[trigger] counter_matches(
                    self.color_at@,
                    j,
                    self.nbr_cnt@[j],
                ) by {
                    if j < i {
                        assert(counter_matches(before.color_at@, j, before.nbr_cnt@[j]));
                    }
                }
            }
            i += 1;
        }
        self.player_v_cnt.set(Player::Black, 0);
        self.player_v_cnt.set(Player::White, 0);
        self.last_play.set(Player::Black, Vertex::none());
        self.last_play.set(Player::White, Vertex::none());
        let mut i: usize = 0;
        while i < 443
            invariant
                0 <= i <= 443,
                1 <= w <= 19,
                1 <= h <= 19,
                self.board_width == w,
                self.board_height == h,
                self.stage_filled(),
                self.stage_counted(443),
                self.stage_patterned(i as int),
                self.player_v_cnt@[0] == 0,
                self.player_v_cnt@[1] == 0,
                self.last_play@[0].id() == 442,
                self.last_play@[1].id() == 442,
            decreases 443 - i,
        {
            let v = Vertex::from_index(i);
            proof {
                assert(self.color_at@[i as int] != Color::OffBoard ==> within(i as int, w, h));
                if within(i as int, w, h) {
                    lemma_within_range(i as int, w, h);
                }
            }
            let hv = Hash3x3::of_board(&self.color_at, v);
            self.hash3x3.set(v, hv);
            i += 1;
        }
        list_clear(&mut self.hash3x3_changed);
        self.hash = self.recalc_hash();
        self.order = Ghost(Seq::new(443, |i: int| Seq::<int>::empty()));
        self.place = Ghost(Seq::new(443, |i: int| 0int));
        proof {
            reveal(geom_ok);
            reveal(empty_ok);
            reveal(chains_ok);
            reveal(counters_ok);
            reveal(patterns_ok);
            reveal(changed_ok);
            reveal(crate::liberties::libs_ok);
            reveal(crate::joined::joined_ok);
            reveal(crate::liberties::alive_ok);
            lemma_within_step(0, w, h);
            lemma_hash_no_stones(self.color_at@, 443);
            lemma_count_cleared(self.color_at@, w, h, 443);
            assert(self.counts_ok());
            assert(geom_ok(self.colors(), w, h));
            assert(empty_ok(
                self.colors(),
                self.empties(),
                self.empty_places(),
                self.spec_empty_count(),
            ));
            assert(chains_ok(
                self.colors(),
                self.chain_ids(),
                self.chain_nexts(),
                self.chain_records(),
                self.order@,
                self.place@,
            ));
            assert(counters_ok(self.colors(), self.counters(), self.width(), self.height()));
            assert(patterns_ok(self.colors(), self.patterns(), self.width(), self.height()));
            assert(changed_ok(self.colors(), self.changed()));
            assert(self.plays_ok()) by {
                reveal(Board::plays_ok);
                assert forall|i: int| 0 <= i < 443 implies #[trigger] self.play_count@[i]
                    <= self.move_no by {
                    assert(self.color_at@[i] == Color::Empty || self.color_at@[i]
                        == Color::OffBoard);
                }
            }
            assert(self.spec_positional_hash() == position_hash(self.colors(), 443));
            assert(self.wf_atari()) by {
                reveal(atari_ok);
                assert forall|e: int, d: Dir|
                    0 <= e < 443 && self.colors()[e] == Color::Empty && d.spec_is_simple4() implies #[trigger] flag_ok(
                    self.colors(),
                    self.chain_ids(),
                    self.chain_records(),
                    self.patterns(),
                    Set::empty(),
                    e,
                    d,
                ) by {
                    assert(self.hash3x3@[e].no_atari());
                    lemma_on_board(self.colors(), w, h, e);
                    assert(0 <= e + d.offset() < 443);
                    assert(!self.colors()[e + d.offset()].is_player());
                }
            }
            assert(self.wf());
            assert(self.is_cleared());
        }
    }

    pub(crate) fn is_within_board(&self, v: Vertex) -> (r: bool)
        requires
            self.dims_ok(),
        ensures
            r == within(v.id(), self.width(), self.height()),
    {
        proof {
            use_type_invariant(v);
        }
        let row: i32 = v.row() as i32 + 1;
        let col: i32 = v.column() as i32 + 1;
        row > 0 && row <= self.board_height as i32 && col > 0 && col <= self.board_width as i32
    }

    /// The hash of the position, computed from the colors alone.
    pub fn recalc_hash(&self) -> (r: crate::hash::Hash)
        ensures
            r@ == position_hash(self.colors(), 443),
    {
        broadcast use NatMap::lemma_len;

        let mut new_hash = crate::hash::Hash::new();
        new_hash.set_zero();
        let mut i: usize = 0;
        while i < 443
            invariant
                0 <= i <= 443,
                new_hash@ == position_hash(self.color_at@, i as int),
            decreases 443 - i,
        {
            let v = Vertex::from_index(i);
            let c = self.color_at.get(v);
            if color_is_player(c) {
                new_hash = new_hash.xor(self.zobrist.of_player_vertex(color_to_player(c), v));
            } else {
                let ghost x: u64 = new_hash@;
                assert(x ^ 0 == x) by (bit_vector);
            }
            i += 1;
        }
        new_hash
    }
}

} // verus!
