//! What holds of every board that the operations can reach, stated over the
//! model of the board and proved from its invariant.

use crate::atari::lemma_flag;
use crate::board::Board;
use crate::board_play::color_of;
use crate::hash::Hash3x3;
use crate::joined::lemma_joined;
use crate::liberties::{
    alive_ok, chain_lib_list, chain_libs, distinct_libs, lemma_chain_lib_list,
    lemma_libs_by_vertex, lemma_libs_distinct, lemma_witness, libs_ok, masked, rec_matches,
    touching,
};
use crate::moments::lemma_single_liberty;
use crate::position::{
    changed_ok, count_color, is_head, lemma_empty_entry, lemma_empty_vertex, lemma_on_board,
    lemma_pattern, lemma_within_range, position_hash, within, within_before,
};
use crate::strings::{lemma_walk, offset_in};
use crate::types::{Color, Dir, Player, Vertex};
use crate::updates::in_list;
use vstd::prelude::*;

verus! {

/// The vertex reached from `v` after `k` steps along `nexts`.
pub open spec fn walk(nexts: Seq<Vertex>, v: int, k: nat) -> int
    decreases k,
{
    if k == 0 {
        v
    } else {
        nexts[walk(nexts, v, (k - 1) as nat)].id()
    }
}

impl Board {
    /// The head of the string of the stone on `v`.
    pub open(crate) spec fn spec_head(&self, v: int) -> int {
        self.chain_id@[v].id()
    }

    /// The recorded size of the string with the head `c`.
    pub open(crate) spec fn spec_size(&self, c: int) -> int {
        self.chain@[c].size as int
    }

    /// Where a walk of `k` steps from the stone on `v` stands: on a stone of
    /// the same string, `k` places further on its cycle.
    proof fn lemma_walk_of(&self, v: int, k: nat)
        requires
            self.wf(),
            0 <= v < 443,
            self.colors()[v].is_player(),
            k <= self.spec_size(self.spec_head(v)),
        ensures
            0 <= walk(self.chain_nexts(), v, k) < 443,
            self.colors()[walk(self.chain_nexts(), v, k)] == self.colors()[v],
            self.spec_head(walk(self.chain_nexts(), v, k)) == self.spec_head(v),
            k < self.spec_size(self.spec_head(v)) ==> offset_in(
                self.place@[walk(self.chain_nexts(), v, k)],
                self.place@[v],
                self.spec_size(self.spec_head(v)),
            ) == k,
            k == self.spec_size(self.spec_head(v)) ==> walk(self.chain_nexts(), v, k) == v,
        decreases k,
    {
        lemma_walk(
            self.colors(),
            self.chain_id@,
            self.chain_next_v@,
            self.chain@,
            self.order@,
            self.place@,
            v,
        );
        if k > 0 {
            self.lemma_walk_of(v, (k - 1) as nat);
            let u = walk(self.chain_nexts(), v, (k - 1) as nat);
            lemma_walk(
                self.colors(),
                self.chain_id@,
                self.chain_next_v@,
                self.chain@,
                self.order@,
                self.place@,
                u,
            );
            self.lemma_walk_step(v, k - 1, u);
        }
    }

    /// Every stone belongs to a string whose head has its color, and the
    /// walk along the links of the string comes back to the stone after as
    /// many steps as the string has stones, and not before.
    pub proof fn lemma_string_cycle(&self, v: int, k: nat)
        requires
            self.wf(),
            0 <= v < 443,
            self.colors()[v].is_player(),
        ensures
            0 <= self.spec_head(v) < 443,
            self.colors()[self.spec_head(v)] == self.colors()[v],
            self.spec_head(self.spec_head(v)) == self.spec_head(v),
            self.spec_size(self.spec_head(v)) >= 1,
            walk(self.chain_nexts(), v, self.spec_size(self.spec_head(v)) as nat) == v,
            0 < k < self.spec_size(self.spec_head(v)) ==> walk(self.chain_nexts(), v, k) != v,
    {
        lemma_walk(
            self.colors(),
            self.chain_id@,
            self.chain_next_v@,
            self.chain@,
            self.order@,
            self.place@,
            v,
        );
        self.lemma_walk_of(v, self.spec_size(self.spec_head(v)) as nat);
        if 0 < k < self.spec_size(self.spec_head(v)) {
            self.lemma_walk_of(v, k);
        }
    }

    /// The record of every string holds the count, the sum and the sum of
    /// squares of the liberties of the string, each liberty counted once for
    /// every stone of the string that touches it.
    pub proof fn lemma_liberty_moments(&self, c: int)
        requires
            self.wf(),
            0 <= c < 443,
            self.colors()[c].is_player(),
            self.spec_head(c) == c,
        ensures
            self.chain_records()[c].lib_cnt == chain_libs(
                self.colors(),
                self.colors(),
                self.chain_ids(),
                c,
                443,
                0,
            ),
            self.chain_records()[c].lib_sum == chain_libs(
                self.colors(),
                self.colors(),
                self.chain_ids(),
                c,
                443,
                1,
            ),
            self.chain_records()[c].lib_sum2 == chain_libs(
                self.colors(),
                self.colors(),
                self.chain_ids(),
                c,
                443,
                2,
            ),
    {
        reveal(libs_ok);
        assert(is_head(self.colors(), self.chain_ids(), c));
        assert(rec_matches(
            self.colors(),
            self.colors(),
            self.chain_ids(),
            self.chain_records()[c],
            c,
        ));
    }

    /// For a string none of whose liberties touches two of its stones, the
    /// record holds the number of the liberties, their sum and the sum of
    /// their squares.
    pub proof fn lemma_liberty_counts(&self, c: int)
        requires
            self.wf(),
            0 <= c < 443,
            self.colors()[c].is_player(),
            self.spec_head(c) == c,
            forall|e: int|
                0 <= e < 443 && self.colors()[e] == Color::Empty ==> #[trigger] touching(
                    self.colors(),
                    self.chain_ids(),
                    c,
                    e,
                    443,
                    0,
                ) <= 1,
        ensures
            self.chain_records()[c].lib_cnt == distinct_libs(
                self.colors(),
                self.colors(),
                self.chain_ids(),
                c,
                443,
                0,
            ),
            self.chain_records()[c].lib_sum == distinct_libs(
                self.colors(),
                self.colors(),
                self.chain_ids(),
                c,
                443,
                1,
            ),
            self.chain_records()[c].lib_sum2 == distinct_libs(
                self.colors(),
                self.colors(),
                self.chain_ids(),
                c,
                443,
                2,
            ),
    {
        self.lemma_liberty_moments(c);
        reveal(Board::wf_geo);
        reveal(Board::wf_flat);
        self.lemma_stones_inside();
        let colors = self.colors();
        let ids = self.chain_ids();
        assert(masked(colors, 443) =~= colors);
        lemma_libs_by_vertex(colors, colors, ids, c, 443, 0);
        lemma_libs_by_vertex(colors, colors, ids, c, 443, 1);
        lemma_libs_by_vertex(colors, colors, ids, c, 443, 2);
        lemma_libs_distinct(colors, colors, ids, c, 443, 0);
        lemma_libs_distinct(colors, colors, ids, c, 443, 1);
        lemma_libs_distinct(colors, colors, ids, c, 443, 2);
    }

    /// The quotient of the sum and the count of the record of the string
    /// with the head `c`.
    pub open(crate) spec fn spec_last_liberty(&self, c: int) -> int {
        self.chain@[c].lib_sum as int / self.chain@[c].lib_cnt as int
    }

    /// A string with liberties whose record satisfies the atari equation
    /// has one liberty: the sum of its record is a multiple of the count, the
    /// quotient is an empty vertex, and every empty neighbor of every stone
    /// of the string is that vertex.
    pub proof fn lemma_atari_liberty(&self, c: int, u: int, e: int)
        requires
            self.wf(),
            0 <= c < 443,
            self.colors()[c].is_player(),
            self.spec_head(c) == c,
            self.chain_records()[c].spec_is_in_atari(),
            self.chain_records()[c].lib_cnt != 0,
        ensures
            self.chain_records()[c].lib_sum % self.chain_records()[c].lib_cnt == 0,
            0 <= self.spec_last_liberty(c) < 443,
            self.colors()[self.spec_last_liberty(c)] == Color::Empty,
            (0 <= u < 443 && self.colors()[u].is_player() && self.spec_head(u) == c
                && crate::updates::adjacent(e, u) && self.colors()[e] == Color::Empty) ==> e
                == self.spec_last_liberty(c),
    {
        self.lemma_liberty_moments(c);
        reveal(Board::wf_geo);
        reveal(Board::wf_flat);
        self.lemma_stones_inside();
        let colors = self.colors();
        let ids = self.chain_ids();
        let rec = self.chain_records()[c];
        let list = chain_lib_list(colors, colors, ids, c, 443);
        lemma_witness(colors, colors, ids, rec, c);
        lemma_chain_lib_list(colors, colors, ids, c, 443, 0);
        lemma_single_liberty(list, rec.lib_cnt as int, rec.lib_sum as int, rec.lib_sum2 as int);
        let a = rec.lib_sum as int / rec.lib_cnt as int;
        assert(list[0] == a);
        assert(colors[list[0]] == Color::Empty);
        if 0 <= u < 443 && colors[u].is_player() && self.spec_head(u) == c
            && crate::updates::adjacent(e, u) && colors[e] == Color::Empty {
            crate::liberties::lemma_lib_listed(colors, colors, ids, c, u, e, 443);
        }
    }

    /// A string is in atari by its record exactly if it has one liberty:
    /// for a stone `n` of the string with the head `c` and an empty
    /// neighbor `e` of `n`, the record satisfies the atari equation exactly
    /// if every empty neighbor of every stone of the string is `e`.
    pub proof fn lemma_atari_is_one_liberty(&self, c: int, n: int, e: int)
        requires
            self.wf(),
            0 <= c < 443,
            0 <= n < 443,
            self.colors()[n].is_player(),
            self.spec_head(n) == c,
            crate::updates::adjacent(e, n),
            self.colors()[e] == Color::Empty,
        ensures
            self.chain_records()[c].spec_is_in_atari() == (forall|u: int, f: int|
                0 <= u < 443 && self.colors()[u].is_player() && self.spec_head(u) == c
                    && #[trigger] crate::updates::adjacent(f, u) && self.colors()[f]
                    == Color::Empty ==> f == e),
    {
        self.lemma_strings_alive(n);
        self.lemma_on_board_of(n);
        lemma_walk(
            self.colors(),
            self.chain_id@,
            self.chain_next_v@,
            self.chain@,
            self.order@,
            self.place@,
            n,
        );
        if self.chain_records()[c].spec_is_in_atari() {
            assert forall|u: int, f: int|
                0 <= u < 443 && self.colors()[u].is_player() && self.spec_head(u) == c
                    && #[trigger] crate::updates::adjacent(f, u) && self.colors()[f]
                    == Color::Empty implies f == e by {
                self.lemma_atari_liberty(c, u, f);
                self.lemma_atari_liberty(c, n, e);
            }
        } else {
            let other = self.lemma_tally_atari(e, n);
            assert(crate::updates::adjacent(other.1, other.0));
            assert(other.1 != e);
        }
    }

    /// Every string has a liberty.
    pub proof fn lemma_strings_alive(&self, v: int)
        requires
            self.wf(),
            0 <= v < 443,
            self.colors()[v].is_player(),
        ensures
            0 <= self.spec_head(v) < 443,
            self.chain_records()[self.spec_head(v)].lib_cnt > 0,
    {
        reveal(alive_ok);
        lemma_walk(
            self.colors(),
            self.chain_id@,
            self.chain_next_v@,
            self.chain@,
            self.order@,
            self.place@,
            v,
        );
        assert(is_head(self.colors(), self.chain_ids(), self.spec_head(v)));
    }

    /// Stones of one color that touch belong to one string.
    pub proof fn lemma_strings_whole(&self, u: int, w: int)
        requires
            self.wf(),
            0 <= u < 443,
            crate::updates::adjacent(w, u),
            self.colors()[u].is_player(),
            self.colors()[w] == self.colors()[u],
        ensures
            self.spec_head(u) == self.spec_head(w),
    {
        self.lemma_on_board_of(u);
        lemma_joined(self.colors(), self.chain_ids(), -1, u, w);
    }

    /// The atari flag that the fingerprint of an empty vertex holds for a
    /// cardinal direction is raised exactly if its neighbor in that direction
    /// is a stone of a string in atari.
    pub proof fn lemma_atari_flags(&self, v: int, d: Dir)
        requires
            self.wf(),
            0 <= v < 443,
            self.colors()[v] == Color::Empty,
            d.spec_is_simple4(),
        ensures
            0 <= v + d.offset() < 443,
            self.patterns()[v].spec_is_in_atari(d) == (self.colors()[v + d.offset()].is_player()
                && self.chain_records()[self.spec_head(v + d.offset())].spec_is_in_atari()),
    {
        self.lemma_empty_inside(v);
        lemma_flag(
            self.colors(),
            self.chain_ids(),
            self.chain_records(),
            self.patterns(),
            Set::empty(),
            v,
            d,
        );
        if self.colors()[v + d.offset()].is_player() {
            self.lemma_strings_alive(v + d.offset());
        }
    }

    /// Whether a stone of `pl` next to the stone on `n` would capture the
    /// string of `n`, a string of the opponent in atari, or join it, a
    /// string of `pl` that is not in atari.
    pub open spec fn spec_rescues(&self, pl: Player, n: int) -> bool {
        self.colors()[n].is_player() && (self.chain_records()[self.spec_head(n)].spec_is_in_atari()
            != (self.colors()[n] == Color::of_player(pl)))
    }

    /// A move is legal exactly if it is a pass, or goes on an empty vertex
    /// other than the ko vertex that has an empty neighbor or a neighbor
    /// whose string the stone captures or joins without losing its last
    /// liberty.
    pub proof fn lemma_legal_moves(&self, pl: Player, v: Vertex)
        requires
            self.wf(),
            0 <= v.id() < 443,
        ensures
            self.spec_is_legal(pl, v) == (v.id() == 441 || (self.colors()[v.id()] == Color::Empty
                && v.id() != self.spec_ko_vertex().id() && (crate::position::nbr_empty_count(
                self.colors(),
                v.id(),
            ) > 0 || self.spec_rescues(pl, v.id() - 21) || self.spec_rescues(pl, v.id() - 1)
                || self.spec_rescues(pl, v.id() + 1) || self.spec_rescues(pl, v.id() + 21)))),
    {
        let id = v.id();
        Vertex::lemma_id_eq(v, self.ko_v);
        self.lemma_lens();
        if id != 441 && self.colors()[id] == Color::Empty {
            self.lemma_on_board_of(id);
            if self.colors()[id - 21].is_player() {
                self.lemma_tally_atari(id, id - 21);
                self.lemma_strings_alive(id - 21);
            }
            if self.colors()[id - 1].is_player() {
                self.lemma_tally_atari(id, id - 1);
                self.lemma_strings_alive(id - 1);
            }
            if self.colors()[id + 1].is_player() {
                self.lemma_tally_atari(id, id + 1);
                self.lemma_strings_alive(id + 1);
            }
            if self.colors()[id + 21].is_player() {
                self.lemma_tally_atari(id, id + 21);
                self.lemma_strings_alive(id + 21);
            }
        }
    }

    /// On an empty vertex other than the ko vertex, a move is legal exactly
    /// if the fingerprint of the vertex says so.
    pub proof fn lemma_pattern_legality(&self, pl: Player, v: Vertex)
        requires
            self.wf(),
            0 <= v.id() < 443,
            self.colors()[v.id()] == Color::Empty,
            v.id() != self.spec_ko_vertex().id(),
        ensures
            self.spec_is_legal(pl, v) == self.patterns()[v.id()].spec_is_legal(pl),
    {
        let id = v.id();
        self.lemma_on_board_of(id);
        Vertex::lemma_id_eq(v, self.ko_v);
        self.lemma_pattern_colors(id, Dir::N);
        self.lemma_pattern_colors(id, Dir::E);
        self.lemma_pattern_colors(id, Dir::S);
        self.lemma_pattern_colors(id, Dir::W);
        self.lemma_atari_flags(id, Dir::N);
        self.lemma_atari_flags(id, Dir::E);
        self.lemma_atari_flags(id, Dir::S);
        self.lemma_atari_flags(id, Dir::W);
        if self.colors()[id - 21].is_player() {
            self.lemma_tally_atari(id, id - 21);
            self.lemma_strings_alive(id - 21);
        }
        if self.colors()[id - 1].is_player() {
            self.lemma_tally_atari(id, id - 1);
            self.lemma_strings_alive(id - 1);
        }
        if self.colors()[id + 1].is_player() {
            self.lemma_tally_atari(id, id + 1);
            self.lemma_strings_alive(id + 1);
        }
        if self.colors()[id + 21].is_player() {
            self.lemma_tally_atari(id, id + 21);
            self.lemma_strings_alive(id + 21);
        }
    }

    /// The list of empty vertices and the places of the empty vertices are
    /// inverse to each other, and the list is as long as there are empty
    /// vertices.
    pub proof fn lemma_empty_list(&self, k: int, i: int)
        requires
            self.wf(),
        ensures
            self.spec_empty_count() == count_color(self.colors(), Color::Empty, 443),
            0 <= k < self.spec_empty_count() ==> 0 <= self.empties()[k].id() < 443
                && self.colors()[self.empties()[k].id()] == Color::Empty
                && self.empty_places()[self.empties()[k].id()] == k,
            0 <= i < 443 && self.colors()[i] == Color::Empty ==> self.empty_places()[i]
                < self.spec_empty_count() && self.empties()[self.empty_places()[i] as int].id()
                == i,
    {
        reveal(Board::wf_geo);
        reveal(Board::wf_flat);
        reveal(Board::wf_stones);
        reveal(Board::counts_ok);
        if 0 <= k < self.spec_empty_count() {
            lemma_empty_entry(
                self.colors(),
                self.empties(),
                self.empty_places(),
                self.spec_empty_count(),
                k,
            );
        }
        if 0 <= i < 443 && self.colors()[i] == Color::Empty {
            lemma_empty_vertex(
                self.colors(),
                self.empties(),
                self.empty_places(),
                self.spec_empty_count(),
                i,
            );
        }
    }

    /// The stone counts are the numbers of stones.
    pub proof fn lemma_stone_counts(&self, pl: Player)
        requires
            self.wf(),
        ensures
            self.spec_stone_count(pl) == count_color(self.colors(), Color::of_player(pl), 443),
    {
        reveal(Board::wf_geo);
        reveal(Board::wf_flat);
        reveal(Board::wf_stones);
        reveal(Board::counts_ok);
    }

    /// The hash of the position is the XOR of the Zobrist words of its
    /// stones.
    pub proof fn lemma_hash_is_recalculated(&self)
        requires
            self.wf(),
        ensures
            self.spec_positional_hash() == position_hash(self.colors(), 443),
    {
        reveal(Board::wf_geo);
        reveal(Board::wf_flat);
        reveal(Board::wf_stones);
    }

    /// The fingerprint of every vertex on the board records the colors of
    /// its eight neighbors.
    pub proof fn lemma_pattern_colors(&self, v: int, d: Dir)
        requires
            self.wf(),
            0 <= v < 443,
            self.colors()[v] != Color::OffBoard,
        ensures
            0 <= v + d.offset() < 443,
            self.patterns()[v].spec_color_at(d) == self.colors()[v + d.offset()],
    {
        reveal(Board::wf_geo);
        reveal(Board::wf_flat);
        reveal(Board::wf_stones);
        lemma_on_board(self.colors(), self.width(), self.height(), v);
        lemma_within_range(v, self.width(), self.height());
        lemma_pattern(self.colors(), self.patterns(), self.width(), self.height(), v);
    }

    /// The fingerprint that the board keeps for a vertex, with its atari
    /// flags lowered, is the fingerprint computed from the colors around the
    /// vertex: `computed` is a fingerprint as `Hash3x3::of_board` gives it
    /// for `v`, and `lowered` one as `reset_atari_bits` makes it of the kept
    /// one.
    pub proof fn lemma_pattern_of_board(&self, v: int, computed: Hash3x3, lowered: Hash3x3)
        requires
            self.wf(),
            0 <= v < 443,
            self.colors()[v] != Color::OffBoard,
            computed.well_formed(),
            lowered.well_formed(),
            forall|d: Dir| #[trigger] computed.spec_color_at(d) == self.colors()[v + d.offset()],
            computed.no_atari(),
            forall|d: Dir| #[trigger]
                lowered.spec_color_at(d) == self.patterns()[v].spec_color_at(d),
            lowered.no_atari(),
        ensures
            computed == lowered,
    {
        assert forall|d: Dir| #[trigger] computed.spec_color_at(d) == lowered.spec_color_at(d) by {
            self.lemma_pattern_colors(v, d);
        }
        Hash3x3::lemma_ext(computed, lowered);
    }

    /// The vertices off the board are those outside the rows and columns of
    /// the board.
    pub proof fn lemma_off_board(&self, v: int)
        requires
            self.wf(),
            0 <= v < 443,
        ensures
            (self.colors()[v] == Color::OffBoard) == !within(v, self.width(), self.height()),
    {
        reveal(Board::wf_geo);
        reveal(Board::wf_flat);
        reveal(Board::wf_stones);
        lemma_on_board(self.colors(), self.width(), self.height(), v);
    }

    /// The list of changed vertices holds empty vertices, each once.
    pub proof fn lemma_changed_list(&self, j: int, k: int)
        requires
            self.wf(),
            0 <= j < k < self.changed().len(),
        ensures
            self.changed()[j] != self.changed()[k],
            self.changed()[k] < 443,
            self.colors()[self.changed()[k] as int] == Color::Empty,
            self.changed()[j] < 443,
            self.colors()[self.changed()[j] as int] == Color::Empty,
    {
        reveal(Board::wf_geo);
        reveal(Board::wf_flat);
        reveal(Board::wf_stones);
        reveal(changed_ok);
    }

    /// After a move, every empty vertex whose fingerprint is not what it was
    /// before the move is on the list of changed vertices.
    pub proof fn lemma_changes_listed(&self, before: &Board, i: int)
        requires
            self.changes_listed(before),
            0 <= i < 443,
            self.colors()[i] == Color::Empty,
            self.patterns()[i] != before.patterns()[i],
        ensures
            in_list(self.changed(), i),
    {
        reveal(Board::changes_listed);
    }

    /// After a move of `player` on the vertex `v`, the stone stands on `v`,
    /// and every other vertex has the color it had, unless it held a stone
    /// of the opponent and is empty now.
    pub proof fn lemma_captures_only(&self, before: &Board, player: Player, v: int, u: int)
        requires
            self.captured_from(before, player, v),
            0 <= u < 443,
        ensures
            self.colors()[v] == Color::of_player(player),
            u != v ==> self.colors()[u] == before.colors()[u] || (before.colors()[u]
                == Color::of_player(player.spec_opponent()) && self.colors()[u] == Color::Empty),
    {
        reveal(Board::captured_from);
        if u != v {
            assert(color_of(self.colors(), u) == self.colors()[u]);
        }
    }

    /// The score of a playout is `ceil(-komi)`, plus the number of black
    /// stones, minus the number of white stones, plus the eye values of the
    /// empty vertices.
    pub proof fn lemma_playout_score(&self)
        requires
            self.wf(),
        ensures
            self.spec_playout_score() == crate::board::KOMI_INVERSE + count_color(
                self.colors(),
                Color::Black,
                443,
            ) - count_color(self.colors(), Color::White, 443) + crate::board_query::eye_sum(
                self.colors(),
                self.empties(),
                self.spec_empty_count(),
            ),
    {
        self.lemma_stone_counts(Player::Black);
        self.lemma_stone_counts(Player::White);
    }

    /// The vertex of the last move is that of the player who moved last, and
    /// none before the first move.
    pub proof fn lemma_last_vertex(&self)
        ensures
            self.spec_last_vertex() == if self.spec_move_count() == 0 {
                442
            } else {
                self.spec_last_play(self.spec_last_player()).id()
            },
    {
    }

    /// Whether a stone of the string with the head `c` stands next to `v`.
    pub open spec fn spec_touches(&self, c: int, v: int) -> bool {
        ||| (self.colors()[v - 21].is_player() && self.spec_head(v - 21) == c)
        ||| (self.colors()[v - 1].is_player() && self.spec_head(v - 1) == c)
        ||| (self.colors()[v + 1].is_player() && self.spec_head(v + 1) == c)
        ||| (self.colors()[v + 21].is_player() && self.spec_head(v + 21) == c)
    }

    /// A stone of `player` on the empty vertex `v` captures the stones of
    /// the opponent whose strings touch `v` and are in atari.
    pub proof fn lemma_captured_strings(&self, player: Player, v: int, u: int)
        requires
            self.wf(),
            0 <= v < 443,
            0 <= u < 443,
            self.colors()[v] == Color::Empty,
        ensures
            self.spec_captures(player, v, u) == (self.colors()[u] == Color::of_player(
                player.spec_opponent(),
            ) && self.spec_touches(self.spec_head(u), v)
                && self.chain_records()[self.spec_head(u)].spec_is_in_atari()),
    {
        let c = self.spec_head(u);
        self.lemma_on_board_of(v);
        if self.colors()[u] == Color::of_player(player.spec_opponent()) && self.spec_touches(c, v) {
            self.lemma_strings_alive(u);
            self.lemma_lens();
            let n = if self.in_string(v - 21, c) {
                v - 21
            } else if self.in_string(v - 1, c) {
                v - 1
            } else if self.in_string(v + 1, c) {
                v + 1
            } else {
                v + 21
            };
            self.lemma_tally(v, n);
            self.lemma_tally_atari(v, n);
        }
    }

    /// The colors after the move of `player` on `v`, played on the board
    /// `before`: the stone stands on `v`, the stones that it captures are
    /// gone, and every other vertex is as it was.
    pub proof fn lemma_move_colors(&self, before: &Board, player: Player, v: int, u: int)
        requires
            self.played_from(before, player, v),
            0 <= u < 443,
        ensures
            self.colors()[v] == Color::of_player(player),
            u != v ==> self.colors()[u] == if before.spec_captures(player, v, u) {
                Color::Empty
            } else {
                before.colors()[u]
            },
    {
        reveal(Board::played_from);
        assert(u != v ==> color_of(self.colors(), u) == self.colors()[u]);
    }

    /// The ko vertex after the move of `player` on `v`, played on the board
    /// `before`: if the move captured one stone and the new stone is a
    /// string of its own with one liberty, the vertex of the captured stone,
    /// a neighbor of `v` that is empty now; else none.
    pub proof fn lemma_move_ko(&self, before: &Board, player: Player, v: int)
        requires
            self.ko_from(before, player, v),
        ensures
            ({
                let lost = before.spec_stone_count(player.spec_opponent()) - self.spec_stone_count(
                    player.spec_opponent(),
                );
                let own = self.chain_records()[self.spec_head(v)];
                if lost == 1 && own.size == 1 && own.lib_cnt == 1 {
                    &&& crate::updates::adjacent(self.spec_ko_vertex().id(), v)
                    &&& before.colors()[self.spec_ko_vertex().id()] == Color::of_player(
                        player.spec_opponent(),
                    )
                    &&& self.colors()[self.spec_ko_vertex().id()] == Color::Empty
                } else {
                    self.spec_ko_vertex().id() == 442
                }
            }),
    {
        reveal(Board::ko_from);
    }

    /// Whether the last move of each player was a pass.
    pub open spec fn spec_both_player_pass(&self) -> bool {
        self.spec_last_play(Player::Black).id() == 441 && self.spec_last_play(Player::White).id()
            == 441
    }

    /// When a player has passed and the opponent passes next, both have
    /// passed.
    pub proof fn lemma_two_passes(first: &Board, second: &Board, pl: Player)
        requires
            first.spec_last_play(pl).id() == 441,
            second.spec_last_play(pl.spec_opponent()).id() == 441,
            second.spec_last_play(pl) == first.spec_last_play(pl),
        ensures
            second.spec_both_player_pass(),
    {
    }

    /// Two cleared boards of one size hold the same position: the same
    /// colors, counts, hash and turn, the same list of empty vertices, and
    /// fingerprints with the same colors and no atari flags.
    pub proof fn lemma_cleared_is_unique(&self, other: &Board, i: int, k: int, d: Dir)
        requires
            self.wf(),
            other.wf(),
            self.is_cleared(),
            other.is_cleared(),
            self.width() == other.width(),
            self.height() == other.height(),
        ensures
            self.colors() =~= other.colors(),
            self.spec_move_count() == 0 && other.spec_move_count() == 0,
            self.spec_positional_hash() == 0 && other.spec_positional_hash() == 0,
            self.spec_empty_count() == other.spec_empty_count(),
            self.spec_stone_count(Player::Black) == 0 && other.spec_stone_count(Player::Black) == 0,
            self.spec_stone_count(Player::White) == 0 && other.spec_stone_count(Player::White) == 0,
            self.spec_last_player() == other.spec_last_player(),
            self.spec_last_play(Player::Black).id() == other.spec_last_play(Player::Black).id(),
            self.spec_last_play(Player::White).id() == other.spec_last_play(Player::White).id(),
            self.spec_ko_vertex().id() == other.spec_ko_vertex().id(),
            self.changed() == other.changed(),
            0 <= k < self.spec_empty_count() ==> self.empties()[k].id() == other.empties()[k].id(),
            0 <= i < 443 && within(i, self.width(), self.height())
                ==> self.patterns()[i].spec_color_at(d) == other.patterns()[i].spec_color_at(d),
            0 <= i < 443 && d.spec_is_simple4() ==> !self.patterns()[i].spec_is_in_atari(d)
                && !other.patterns()[i].spec_is_in_atari(d),
    {
        reveal(Board::wf_geo);
        reveal(Board::wf_flat);
        reveal(Board::wf_stones);
        reveal(Board::counts_ok);
        self.lemma_lens();
        other.lemma_lens();
        let w = self.width();
        let h = self.height();
        lemma_on_board(self.colors(), w, h, 0);
        assert forall|j: int| 0 <= j < 443 implies self.colors()[j] == other.colors()[j] by {}
        assert(self.colors() =~= other.colors());
        if 0 <= k < self.spec_empty_count() {
            lemma_empty_entry(
                self.colors(),
                self.empties(),
                self.empty_places(),
                self.spec_empty_count(),
                k,
            );
            let e = self.empties()[k].id();
            lemma_on_board(self.colors(), w, h, e);
            assert(within(e, w, h));
            assert(self.empty_places()[e] == within_before(e, w, h));
            assert(other.empty_places()[e] == within_before(e, w, h));
            lemma_empty_vertex(
                other.colors(),
                other.empties(),
                other.empty_places(),
                other.spec_empty_count(),
                e,
            );
        }
        if 0 <= i < 443 && within(i, w, h) {
            lemma_within_range(i, w, h);
            lemma_pattern(self.colors(), self.patterns(), w, h, i);
            lemma_pattern(other.colors(), other.patterns(), w, h, i);
        }
        if 0 <= i < 443 {
            assert(self.patterns()[i].no_atari());
            assert(other.patterns()[i].no_atari());
        }
        crate::position::lemma_count_cleared(self.colors(), w, h, 443);
    }
}

} // verus!
