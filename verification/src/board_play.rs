//! Playing a move: placing the stone, joining strings, capturing, ko and
//! atari.

use crate::atari::{alive_but, atari_ok, flag_of};
use crate::board::{player_unit, wrap32, Board, Chain};
use crate::hash::b2i;
use crate::joined::{
    coarser, joined_ok, lemma_coarser, lemma_coarser_refl, lemma_coarser_trans,
    lemma_joined_coarser, lemma_joined_done, lemma_joined_place, same_head,
};
use crate::liberties::{
    alive_ok, chain_lib_list, is_witness, lemma_libs_exists, lemma_libs_far, lemma_libs_fill,
    lemma_libs_merged, lemma_libs_own, lemma_libs_positive, lemma_libs_same, lemma_libs_steps,
    lemma_moment_range, lemma_rec_same, lemma_touching_nbrs, lemma_witness, lemma_witness_push,
    lemma_witness_same, libs_ok, member, rec_matches, same_moments, stones_inside,
};
use crate::moments::lemma_single_liberty;
use crate::position::{
    chains_ok, changed_ok, counters_ok, empty_ok, is_head, lemma_count_positive,
    lemma_count_update, lemma_hash_update, lemma_on_board, lemma_within_range, lemma_xor_swap,
    nbr_empty_count, patterns_ok, within, zobrist_part,
};
use crate::strings::{
    lemma_chains_merge, lemma_chains_place, lemma_chains_remove, lemma_chains_sizes, lemma_idle,
    lemma_same_place, lemma_walk, merge_rel, merged_cycle, merged_place, offset_in,
};
use crate::types::{
    color_is_player, color_to_player, has_nbr, vertex_nbr, Color, Dir, Nat, Player, Vertex,
    VertexMap,
};
use crate::updates::{
    adjacent, in_list, lemma_changed_empty, lemma_changed_push, lemma_changed_recolor,
    lemma_changed_room, lemma_counters_place, lemma_counters_remove, lemma_empty_put,
    lemma_empty_take, lemma_geom_recolor, lemma_in_list_push, lemma_noted_trans,
    lemma_patterns_flags, lemma_repaint_done, lemma_repaint_start, lemma_repaint_step, marks_ok,
    noted, repainted,
};
use crate::vertex_list::{list_clear, list_push};
use vstd::prelude::*;

verus! {

impl Board {
    /// The marks are the vertices on the list of changed vertices.
    #[verifier::opaque]
    pub open(crate) spec fn marked_ok(&self) -> bool {
        marks_ok(self.tmp_vertex_set@, self.changed())
    }

    /// Puts the empty, unmarked vertex `v` on the list of changed vertices and
    /// marks it.
    fn push_changed(&mut self, v: Vertex)
        requires
            old(self).lens_ok(),
            empty_ok(
                old(self).colors(),
                old(self).empties(),
                old(self).empty_places(),
                old(self).spec_empty_count(),
            ),
            changed_ok(old(self).colors(), old(self).changed()),
            old(self).marked_ok(),
            old(self).colors()[v.id()] == Color::Empty,
            !old(self).tmp_vertex_set@.contains(v.id()),
        ensures
            final(self).same_except(old(self), false, false, false, false, true, false),
            changed_ok(final(self).colors(), final(self).changed()),
            final(self).marked_ok(),
            final(self).changed() == old(self).changed().push(v.id() as u32),
            final(self).tmp_vertex_set@ == old(self).tmp_vertex_set@.insert(v.id()),
    {
        proof {
            reveal(Board::wf_geo);
            reveal(Board::wf_flat);
            reveal(Board::wf_stones);
            reveal(Board::wf_listing);
            reveal(Board::counts_ok);
            reveal(Board::noted_since);
            reveal(Board::marked_ok);
        }
        proof {
            use_type_invariant(v);
            lemma_changed_push(
                self.colors(),
                self.changed(),
                self.tmp_vertex_set@,
                v.id() as u32,
            );
            lemma_changed_room(
                self.colors(),
                self.empties(),
                self.empty_places(),
                self.spec_empty_count(),
                self.changed(),
                v.id(),
            );
        }
        list_push(&mut self.hash3x3_changed, v.index() as u32);
        self.tmp_vertex_set.mark(v);
    }

    /// What the move has noted since the state `o`: see `noted`.
    #[verifier::opaque]
    pub open(crate) spec fn noted_since(&self, o: &Board) -> bool {
        noted(o.colors(), o.patterns(), o.changed(), self.colors(), self.patterns(), self.changed())
    }

    /// Writes `color`, the new color of `v`, into the fingerprints of the
    /// eight neighbors of `v`, and notes the empty ones as changed.
    /// `prev` is the color that the fingerprints still show.
    fn repaint_around(&mut self, v: Vertex, color: Color, prev: Ghost<Color>)
        requires
            old(self).wf_listing(),
            old(self).marked_ok(),
            within(v.id(), old(self).width(), old(self).height()),
            old(self).colors()[v.id()] == color,
            patterns_ok(
                old(self).colors().update(v.id(), prev@),
                old(self).patterns(),
                old(self).width(),
                old(self).height(),
            ),
        ensures
            final(self).same_except(old(self), false, false, false, true, true, false),
            final(self).wf_listing(),
            patterns_ok(
                final(self).colors(),
                final(self).patterns(),
                final(self).width(),
                final(self).height(),
            ),
            final(self).marked_ok(),
            final(self).noted_since(old(self)),
            repainted(old(self).patterns(), final(self).patterns(), v.id(), color, 8),
    {
        proof {
            reveal(Board::wf_geo);
            reveal(Board::wf_flat);
            reveal(Board::wf_stones);
            reveal(Board::wf_listing);
            reveal(Board::counts_ok);
            reveal(Board::noted_since);
            reveal(Board::marked_ok);
        }
        let ghost snap = *self;
        let ghost w = self.width();
        let ghost h = self.height();
        proof {
            use_type_invariant(v);
            lemma_on_board(self.colors(), w, h, v.id());
            lemma_within_range(v.id(), w, h);
            lemma_repaint_start(self.patterns(), v.id(), color);
        }
        let mut i: usize = 0;
        while i < 8
            invariant
                0 <= i <= 8,
                0 <= v.id() < 443,
                forall|d: Dir| 0 <= v.id() + #[trigger] d.offset() < 441,
                forall|d: Dir| has_nbr(v.id(), d),
                self.same_except(&snap, false, false, false, true, true, false),
                self.wf_listing(),
                snap.lens_ok(),
                self.marked_ok(),
                repainted(snap.patterns(), self.patterns(), v.id(), color, i as int),
                forall|j: int|
                    0 <= j < 443 && in_list(snap.changed(), j) ==> #[trigger] in_list(
                        self.changed(),
                        j,
                    ),
                forall|j: int|
                    0 <= j < 443 && self.colors()[j] == Color::Empty && self.patterns()[j]
                        != snap.patterns()[j] ==> #[trigger] in_list(self.changed(), j),
            decreases 8 - i,
        {
            proof {
                reveal(Board::wf_geo);
                reveal(Board::wf_flat);
                reveal(Board::wf_stones);
                reveal(Board::wf_listing);
                reveal(Board::counts_ok);
                reveal(Board::noted_since);
                reveal(Board::marked_ok);
            }
            let dir = Dir::of_raw(i);
            let nbr = vertex_nbr(v, dir);
            let ghost before = *self;
            let mut hv = self.hash3x3.get(nbr);
            hv.set_color_at(dir.opposite(), color);
            self.hash3x3.set(nbr, hv);
            proof {
                assert(nbr.id() == v.id() + dir.offset());
                lemma_repaint_step(snap.patterns(), before.patterns(), v.id(), color, dir, hv);
            }
            let ghost mid = *self;
            if !self.tmp_vertex_set.is_marked(nbr) && self.color_at.get(nbr) == Color::Empty {
                self.push_changed(nbr);
                proof {
                    assert forall|j: int| 0 <= j < 443 && in_list(snap.changed(), j) implies #[trigger] in_list(
                        self.changed(),
                        j,
                    ) by {
                        assert(in_list(mid.changed(), j));
                        lemma_in_list_push(mid.changed(), nbr.id() as u32, j);
                    }
                    assert forall|j: int|
                        0 <= j < 443 && self.colors()[j] == Color::Empty && self.patterns()[j]
                            != snap.patterns()[j] implies #[trigger] in_list(self.changed(), j) by {
                        lemma_in_list_push(mid.changed(), nbr.id() as u32, j);
                        if j != nbr.id() {
                            assert(before.patterns()[j] == self.patterns()[j]);
                            assert(in_list(before.changed(), j));
                        }
                    }
                }
            } else {
                proof {
                    assert forall|j: int|
                        0 <= j < 443 && self.colors()[j] == Color::Empty && self.patterns()[j]
                            != snap.patterns()[j] implies #[trigger] in_list(self.changed(), j) by {
                        if j != nbr.id() {
                            assert(before.patterns()[j] == self.patterns()[j]);
                            assert(in_list(before.changed(), j));
                        } else {
                            assert(self.tmp_vertex_set@.contains(j));
                        }
                    }
                }
            }
            i += 1;
        }
        proof {
            lemma_repaint_done(
                snap.colors().update(v.id(), prev@),
                snap.patterns(),
                self.patterns(),
                w,
                h,
                v.id(),
                color,
            );
            assert(snap.colors().update(v.id(), prev@).update(v.id(), color) =~= self.colors());
        }
    }

    /// The record that changes when the new stone on `v` meets its neighbor
    /// `nbr`: that of the stone for an empty neighbor, that of the string of
    /// the neighbor for a stone, that of the neighbor itself off the board.
    pub open(crate) spec fn lib_target(&self, v: int, nbr: int) -> int {
        if self.colors()[nbr] == Color::Empty {
            v
        } else if self.colors()[nbr].is_player() {
            self.chain_id@[nbr].id()
        } else {
            nbr
        }
    }

    /// What that record becomes: an empty neighbor is one more liberty of the
    /// stone, and the stone takes a liberty from anything else.
    pub open(crate) spec fn lib_effect(&self, v: int, nbr: int) -> Chain {
        if self.colors()[nbr] == Color::Empty {
            self.chain@[v].lib_added(nbr)
        } else {
            self.chain@[self.lib_target(v, nbr)].lib_removed(v)
        }
    }

    /// Whether the tables that follow the colors, the neighbor counters
    /// aside, are those of `o`.
    pub open(crate) spec fn same_colors(&self, o: &Board) -> bool {
        self.color_at == o.color_at && self.hash == o.hash && self.player_v_cnt == o.player_v_cnt
            && self.empty_v_cnt == o.empty_v_cnt && self.empty_v == o.empty_v && self.empty_pos
            == o.empty_pos
    }

    /// The neighbor `nbr_v` of the new stone of `player` on `v` counts the
    /// stone, and the liberties are set right between the two.
    fn place_stone_nbr(&mut self, player: Player, v: Vertex, nbr_v: Vertex)
        requires
            old(self).lens_ok(),
        ensures
            final(self).same_except(old(self), true, false, true, false, false, false),
            final(self).same_colors(old(self)),
            final(self).lens_ok(),
            final(self).nbr_cnt@ =~= old(self).nbr_cnt@.update(
                nbr_v.id(),
                final(self).nbr_cnt@[nbr_v.id()],
            ),
            final(self).nbr_cnt@[nbr_v.id()].bits() == wrap32(
                old(self).nbr_cnt@[nbr_v.id()].bits() + player_unit(player) - 256,
            ),
            final(self).chain@ == old(self).chain@.update(
                old(self).lib_target(v.id(), nbr_v.id()),
                old(self).lib_effect(v.id(), nbr_v.id()),
            ),
            0 <= old(self).lib_target(v.id(), nbr_v.id()) < 443,
            forall|k: int|
                0 <= k < 443 ==> (#[trigger] final(self).chain@[k]).size == old(self).chain@[k].size,
    {
        proof {
            use_type_invariant(v);
            use_type_invariant(nbr_v);
        }
        let nbr_color = self.color_at.get(nbr_v);
        let mut cnt = self.nbr_cnt.get(nbr_v);
        cnt.player_inc(player);
        self.nbr_cnt.set(nbr_v, cnt);
        if nbr_color == Color::Empty {
            let mut c = self.chain.get(v);
            c.add_lib(nbr_v);
            self.chain.set(v, c);
        } else {
            if color_is_player(nbr_color) {
                let nbr_chain_id = self.chain_id.get(nbr_v);
                proof {
                    use_type_invariant(nbr_chain_id);
                }
                let mut c = self.chain.get(nbr_chain_id);
                c.sub_lib(v);
                self.chain.set(nbr_chain_id, c);
            } else if nbr_color == Color::OffBoard {
                let mut c = self.chain.get(nbr_v);
                c.sub_lib(v);
                self.chain.set(nbr_v, c);
            }
        }
    }

    /// Gives the empty vertex `v` the color of `player`: the list of empty
    /// vertices, the stone count and the hash follow.
    fn put_color(&mut self, player: Player, v: Vertex)
        requires
            old(self).wf_stones(),
            old(self).colors()[v.id()] == Color::Empty,
            !in_list(old(self).changed(), v.id()),
        ensures
            final(self).same_except(old(self), true, false, false, false, false, false),
            final(self).nbr_cnt == old(self).nbr_cnt,
            final(self).wf_stones(),
            final(self).colors() == old(self).colors().update(v.id(), Color::of_player(player)),
            within(v.id(), old(self).width(), old(self).height()),
            final(self).spec_stone_count(player) == old(self).spec_stone_count(player) + 1,
            final(self).spec_stone_count(player.spec_opponent()) == old(self).spec_stone_count(
                player.spec_opponent(),
            ),
    {
        proof {
            reveal(Board::wf_geo);
            reveal(Board::wf_flat);
            reveal(Board::wf_stones);
            reveal(Board::wf_listing);
            reveal(Board::counts_ok);
            reveal(Board::noted_since);
            reveal(Board::marked_ok);
        }
        let ghost id = v.id();
        let ghost w = self.width();
        let ghost h = self.height();
        let ghost c0 = self.colors();
        let color = Color::from(player);
        proof {
            use_type_invariant(v);
            self.lemma_wf_basics();
            lemma_on_board(c0, w, h, id);
            lemma_empty_take(
                c0,
                self.empties(),
                self.empty_places(),
                self.spec_empty_count(),
                id,
                color,
            );
            lemma_count_update(c0, id, color, Color::Empty, 443);
            lemma_count_update(c0, id, color, Color::Black, 443);
            lemma_count_update(c0, id, color, Color::White, 443);
            lemma_hash_update(c0, id, color, 443);
            lemma_xor_swap(self.hash@, 0, 0);
            lemma_geom_recolor(c0, w, h, id, color);
            lemma_changed_recolor(c0, self.changed(), id, color);
        }
        // Take the vertex off the list of empty vertices.
        self.empty_v_cnt -= 1;
        let last = self.empty_v[self.empty_v_cnt as usize];
        let p: u32 = self.empty_pos.get(v);
        self.empty_pos.set(last, p);
        self.empty_v[p as usize] = last;

        // Put the stone down.
        self.color_at.set(v, color);
        let stones: u32 = self.player_v_cnt.get(player);
        self.player_v_cnt.set(player, stones + 1);

        self.hash = self.hash.xor(self.zobrist.of_player_vertex(player, v));
        proof {
            assert(self.plays_ok()) by {
                reveal(Board::plays_ok);
            }
        }
    }

    /// Makes the stone on `v`, which had none before, a string of its own.
    fn start_string(&mut self, v: Vertex, prev: Ghost<Seq<Color>>)
        requires
            old(self).lens_ok(),
            0 <= v.id() < 443,
            !prev@[v.id()].is_player(),
            old(self).colors()[v.id()].is_player(),
            old(self).colors() == prev@.update(v.id(), old(self).colors()[v.id()]),
            chains_ok(
                prev@,
                old(self).chain_ids(),
                old(self).chain_nexts(),
                old(self).chain_records(),
                old(self).order@,
                old(self).place@,
            ),
            libs_ok(prev@, prev@, old(self).chain_ids(), old(self).chain_records()),
        ensures
            final(self).same_except(old(self), false, true, true, false, false, false),
            final(self).lens_ok(),
            final(self).wf_chains(),
            libs_ok(prev@, prev@, final(self).chain_ids(), final(self).chain_records()),
            forall|u: int|
                0 <= u < 443 && prev@[u].is_player() ==> (#[trigger] final(self).chain_id@[u]).id()
                    != v.id(),
            final(self).chain_id@ == old(self).chain_id@.update(v.id(), v),
            final(self).chain_next_v@ == old(self).chain_next_v@.update(v.id(), v),
            final(self).chain@ == old(self).chain@.update(v.id(), final(self).chain@[v.id()]),
            final(self).chain@[v.id()].size == 1,
            final(self).chain@[v.id()].lib_cnt == 0,
            final(self).chain@[v.id()].lib_sum == 0,
            final(self).chain@[v.id()].lib_sum2 == 0,
            final(self).order@ == old(self).order@.update(v.id(), seq![v.id()]),
            final(self).place@ == old(self).place@.update(v.id(), 0int),
    {
        let ghost snap = *self;
        self.chain_id.set(v, v);
        self.chain_next_v.set(v, v);
        let mut c = self.chain.get(v);
        c.reset();
        c.size = 1;
        self.chain.set(v, c);
        proof {
            self.order = Ghost(self.order@.update(v.id(), seq![v.id()]));
            self.place = Ghost(self.place@.update(v.id(), 0int));
            lemma_chains_place(
                prev@,
                snap.chain_id@,
                snap.chain_next_v@,
                snap.chain@,
                snap.order@,
                snap.place@,
                v,
                snap.colors()[v.id()],
                c,
            );
            assert forall|u: int| 0 <= u < 443 && prev@[u].is_player() implies (
            #[trigger] self.chain_id@[u]).id() != v.id() by {
                lemma_walk(
                    prev@,
                    snap.chain_id@,
                    snap.chain_next_v@,
                    snap.chain@,
                    snap.order@,
                    snap.place@,
                    u,
                );
            }
            assert(libs_ok(prev@, prev@, self.chain_ids(), self.chain_records())) by {
                reveal(libs_ok);
                assert forall|h: int| 0 <= h < 443 && is_head(prev@, self.chain_ids(), h) implies #[trigger] rec_matches(
                    prev@,
                    prev@,
                    self.chain_ids(),
                    self.chain_records()[h],
                    h,
                ) by {
                    assert(rec_matches(prev@, prev@, snap.chain_ids(), snap.chain_records()[h], h));
                    lemma_rec_same(
                        prev@,
                        prev@,
                        snap.chain_ids(),
                        prev@,
                        self.chain_ids(),
                        snap.chain_records()[h],
                        self.chain_records()[h],
                        h,
                    );
                }
            }
        }
    }

    /// The stones of a well-formed board stand away from the rim of the grid.
    pub(crate) proof fn lemma_stones_inside(&self)
        requires
            self.wf_stones(),
        ensures
            stones_inside(self.colors()),
            self.colors().len() == 443,
    {
        reveal(Board::wf_stones);
        assert forall|u: int| 0 <= u < 443 && (#[trigger] self.colors()[u]).is_player() implies 22
            <= u <= 418 by {
            lemma_on_board(self.colors(), self.width(), self.height(), u);
        }
        lemma_on_board(self.colors(), self.width(), self.height(), 0);
    }

    /// One step of the records after the stone on `v` was placed: see
    /// `place_stone_nbr`.
    pub open(crate) spec fn placed_step(&self, recs: Seq<Chain>, recs2: Seq<Chain>, v: int, nbr: int) -> bool {
        let t = if self.colors()[nbr] == Color::Empty {
            v
        } else if self.colors()[nbr].is_player() {
            self.chain_id@[nbr].id()
        } else {
            nbr
        };
        0 <= t < 443 && recs2 == recs.update(
            t,
            if self.colors()[nbr] == Color::Empty {
                recs[v].lib_added(nbr)
            } else {
                recs[t].lib_removed(v)
            },
        )
    }

    /// After the four neighbors of the new stone on `v` have taken note of
    /// it, the records hold the liberties of the new position.
    pub(crate) proof fn lemma_placed_libs(
        &self,
        prev: Seq<Color>,
        player: Player,
        v: int,
        r2: Seq<Chain>,
        r3: Seq<Chain>,
        r4: Seq<Chain>,
        r5: Seq<Chain>,
    )
        requires
            self.wf_stones(),
            self.lens_ok(),
            22 <= v <= 418,
            prev.len() == 443,
            prev[v] == Color::Empty,
            self.colors() == prev.update(v, Color::of_player(player)),
            libs_ok(prev, prev, self.chain_ids(), self.chain_records()),
            self.chain_id@[v].id() == v,
            self.chain@[v].lib_cnt == 0,
            self.chain@[v].lib_sum == 0,
            self.chain@[v].lib_sum2 == 0,
            forall|u: int|
                0 <= u < 443 && prev[u].is_player() ==> (#[trigger] self.chain_id@[u]).id() != v,
            self.placed_step(self.chain@, r2, v, v - 21),
            self.placed_step(r2, r3, v, v - 1),
            self.placed_step(r3, r4, v, v + 1),
            self.placed_step(r4, r5, v, v + 21),
        ensures
            libs_ok(self.colors(), self.colors(), self.chain_ids(), r5),
    {
        reveal(libs_ok);
        let c1 = self.colors();
        let ids = self.chain_ids();
        let r1 = self.chain@;
        self.lemma_stones_inside();
        assert(stones_inside(prev)) by {
            assert forall|u: int| 0 <= u < 443 && (#[trigger] prev[u]).is_player() implies 22 <= u
                <= 418 by {
                assert(c1[u] == prev[u]);
            }
        }
        assert forall|h: int| 0 <= h < 443 && is_head(c1, ids, h) implies #[trigger] rec_matches(
            c1,
            c1,
            ids,
            r5[h],
            h,
        ) by {
            if h == v {
                assert forall|u: int| 0 <= u < 443 implies (#[trigger] member(c1, ids, u, v)
                    <==> u == v) by {
                    if u != v && c1[u].is_player() {
                        assert(prev[u].is_player());
                        assert(self.chain_id@[u].id() != v);
                    }
                }
                lemma_libs_own(c1, ids, v, r1[v], r2[v], r3[v], r4[v], r5[v]);
            } else {
                assert(is_head(prev, ids, h));
                assert(rec_matches(prev, prev, ids, r1[h], h));
                lemma_libs_steps(
                    prev,
                    c1,
                    prev,
                    ids,
                    h,
                    v,
                    false,
                    r1[h],
                    r2[h],
                    r3[h],
                    r4[h],
                    r5[h],
                );
                assert forall|u: int| 0 <= u < 443 implies member(prev, ids, u, h) == #[trigger] member(
                    c1,
                    ids,
                    u,
                    h,
                ) by {}
                lemma_rec_same(c1, prev, ids, c1, ids, r5[h], r5[h], h);
            }
        }
    }

    /// The four neighbors of the new stone of `player` on `v` count it.
    fn place_stone_nbrs(&mut self, player: Player, v: Vertex, prev: Ghost<Seq<Color>>)
        requires
            old(self).wf_stones(),
            old(self).wf_chains(),
            within(v.id(), old(self).width(), old(self).height()),
            prev@.len() == 443,
            prev@[v.id()] == Color::Empty,
            old(self).colors() == prev@.update(v.id(), Color::of_player(player)),
            counters_ok(prev@, old(self).counters(), old(self).width(), old(self).height()),
            libs_ok(prev@, prev@, old(self).chain_ids(), old(self).chain_records()),
            old(self).chain_id@[v.id()] == v,
            old(self).chain@[v.id()].lib_cnt == 0,
            old(self).chain@[v.id()].lib_sum == 0,
            old(self).chain@[v.id()].lib_sum2 == 0,
            forall|u: int|
                0 <= u < 443 && prev@[u].is_player() ==> (#[trigger] old(self).chain_id@[u]).id()
                    != v.id(),
        ensures
            final(self).same_except(old(self), true, false, true, false, false, false),
            final(self).same_colors(old(self)),
            final(self).wf_flat(),
            final(self).wf_chains(),
            final(self).wf_libs(),
    {
        proof {
            reveal(Board::wf_geo);
            reveal(Board::wf_flat);
            reveal(Board::wf_stones);
            reveal(Board::wf_listing);
            reveal(Board::counts_ok);
            reveal(Board::noted_since);
            reveal(Board::marked_ok);
        }
        let ghost snap = *self;
        let ghost id = v.id();
        let ghost w = self.width();
        let ghost h = self.height();
        proof {
            use_type_invariant(v);
            self.lemma_wf_basics();
            lemma_within_range(id, w, h);
        }
        self.place_stone_nbr(player, v, v.up());
        let ghost r2 = self.chain@;
        self.place_stone_nbr(player, v, v.left());
        let ghost r3 = self.chain@;
        self.place_stone_nbr(player, v, v.right());
        let ghost r4 = self.chain@;
        self.place_stone_nbr(player, v, v.down());
        proof {
            snap.lemma_placed_libs(prev@, player, id, r2, r3, r4, self.chain@);
            assert forall|i: int| 0 <= i < 443 && within(i, w, h) implies (
            #[trigger] self.nbr_cnt@[i]).bits() == if adjacent(i, id) {
                wrap32(snap.nbr_cnt@[i].bits() + player_unit(player) - 256)
            } else {
                snap.nbr_cnt@[i].bits()
            } by {}
            lemma_counters_place(prev@, snap.nbr_cnt@, self.nbr_cnt@, w, h, id, player);
            assert forall|k: int| 0 <= k < 443 implies (#[trigger] self.chain@[k]).size
                == snap.chain@[k].size by {}
            lemma_chains_sizes(
                snap.colors(),
                snap.chain_id@,
                snap.chain_next_v@,
                snap.chain@,
                self.chain@,
                snap.order@,
                snap.place@,
            );
            assert(self.plays_ok()) by {
                reveal(Board::plays_ok);
            }
        }
    }

    /// Puts a stone of `player` on the empty vertex `v`, as a string of its
    /// own.
    fn place_stone(&mut self, player: Player, v: Vertex)
        requires
            old(self).wf_geo(),
            old(self).wf_chains(),
            old(self).wf_libs(),
            old(self).wf_joined(),
            old(self).marked_ok(),
            old(self).colors()[v.id()] == Color::Empty,
            !in_list(old(self).changed(), v.id()),
        ensures
            final(self).same_except(old(self), true, true, true, true, true, false),
            final(self).wf_geo(),
            final(self).wf_chains(),
            final(self).marked_ok(),
            final(self).colors() == old(self).colors().update(v.id(), Color::of_player(player)),
            final(self).noted_since(old(self)),
            final(self).chain_id@[v.id()] == v,
            final(self).wf_libs(),
            joined_ok(final(self).colors(), final(self).chain_ids(), v.id()),
            final(self).chain_ids() == old(self).chain_ids().update(v.id(), v),
            final(self).spec_stone_count(player.spec_opponent()) == old(self).spec_stone_count(
                player.spec_opponent(),
            ),
            forall|e: int, d: Dir|
                0 <= e < 443 ==> #[trigger] flag_of(final(self).patterns(), e, d) == flag_of(
                    old(self).patterns(),
                    e,
                    d,
                ),
    {
        proof {
            reveal(Board::wf_geo);
            reveal(Board::wf_flat);
            reveal(Board::wf_stones);
            reveal(Board::wf_listing);
            reveal(Board::counts_ok);
            reveal(Board::noted_since);
            reveal(Board::marked_ok);
        }
        let ghost snap = *self;
        let ghost id = v.id();
        let ghost c0 = self.colors();
        let color = Color::from(player);
        proof {
            use_type_invariant(v);
        }
        self.put_color(player, v);
        proof {
            assert(self.colors().update(id, Color::Empty) =~= c0);
        }
        let ghost mid = *self;
        self.repaint_around(v, color, Ghost(Color::Empty));
        proof {
            assert(self.wf_stones()) by {
                reveal(Board::plays_ok);
            }
        }
        self.start_string(v, Ghost(c0));
        proof {
            assert(self.wf_stones()) by {
                reveal(Board::plays_ok);
            }
        }
        self.place_stone_nbrs(player, v, Ghost(c0));
        proof {
            snap.lemma_lens();
            snap.lemma_on_board_of(id);
            assert forall|e: int, d: Dir| 0 <= e < 443 implies #[trigger] flag_of(
                self.patterns(),
                e,
                d,
            ) == flag_of(snap.patterns(), e, d) by {
                assert(self.patterns()[e].spec_is_in_atari(d) == mid.patterns()[e].spec_is_in_atari(
                    d,
                ));
            }
            lemma_joined_place(c0, snap.chain_ids(), v, color);
            assert(self.chain_ids() == snap.chain_ids().update(id, v));
            assert forall|i: int| 0 <= i < 443 && in_list(snap.changed(), i) implies #[trigger] in_list(
                self.changed(),
                i,
            ) by {
                assert(in_list(mid.changed(), i));
            }
        }
    }

    /// Whether `u` is a stone of the string with head `c`.
    pub open(crate) spec fn in_string(&self, u: int, c: int) -> bool {
        self.colors()[u].is_player() && self.chain_id@[u].id() == c
    }

    /// Joins the string of `v_add` into the string of `v_base`, which is of
    /// the same color.
    fn merge_chains(&mut self, v_base: Vertex, v_add: Vertex)
        requires
            old(self).lens_ok(),
            old(self).wf_chains(),
            old(self).wf_libs(),
            stones_inside(old(self).colors()),
            old(self).colors()[v_base.id()].is_player(),
            old(self).colors()[v_add.id()] == old(self).colors()[v_base.id()],
        ensures
            final(self).same_except(old(self), false, true, true, false, false, false),
            final(self).lens_ok(),
            final(self).wf_chains(),
            final(self).wf_libs(),
            forall|u: int|
                0 <= u < 443 ==> #[trigger] head_of(final(self).chain_id@, u) == if old(
                    self,
                ).in_string(u, old(self).chain_id@[v_add.id()].id()) {
                    old(self).chain_id@[v_base.id()].id()
                } else {
                    old(self).chain_id@[u].id()
                },
            coarser(
                old(self).colors(),
                old(self).chain_ids(),
                final(self).colors(),
                final(self).chain_ids(),
            ),
            same_head(final(self).chain_ids(), v_base.id(), v_add.id()),
            forall|k: int|
                0 <= k < 443 && k != old(self).chain_id@[v_base.id()].id() ==> (
                #[trigger] final(self).chain@[k]) == old(self).chain@[k],
    {
        proof {
            reveal(Board::wf_geo);
            reveal(Board::wf_flat);
            reveal(Board::wf_stones);
            reveal(Board::wf_listing);
            reveal(Board::counts_ok);
            reveal(Board::noted_since);
            reveal(Board::marked_ok);
        }
        let ghost snap = *self;
        let ghost a = v_add.id();
        let ghost b = v_base.id();
        proof {
            use_type_invariant(v_base);
            use_type_invariant(v_add);
            lemma_walk(
                snap.colors(),
                snap.chain_id@,
                snap.chain_next_v@,
                snap.chain@,
                snap.order@,
                snap.place@,
                a,
            );
            lemma_walk(
                snap.colors(),
                snap.chain_id@,
                snap.chain_next_v@,
                snap.chain@,
                snap.order@,
                snap.place@,
                b,
            );
        }
        let base_id = self.chain_id.get(v_base);
        let add_id = self.chain_id.get(v_add);
        proof {
            Vertex::lemma_id_eq(base_id, add_id);
        }
        if base_id == add_id {
            proof {
                lemma_coarser_refl(self.colors(), self.chain_ids());
            }
            return;
        }
        let ghost ca = add_id.id();
        let ghost cb = base_id.id();

        let add_chain = self.chain.get(add_id);
        let mut base_chain = self.chain.get(base_id);
        base_chain.merge(&add_chain);
        self.chain.set(base_id, base_chain);

        relabel_string(
            &mut self.chain_id,
            &self.chain_next_v,
            v_add,
            base_id,
            Ghost(snap.colors()),
            Ghost(snap.chain@),
            Ghost(snap.order@),
            Ghost(snap.place@),
        );

        let base_next = self.chain_next_v.get(v_base);
        let add_next = self.chain_next_v.get(v_add);
        self.chain_next_v.set(v_base, add_next);
        self.chain_next_v.set(v_add, base_next);
        proof {
            self.order = Ghost(
                snap.order@.update(
                    cb,
                    merged_cycle(snap.order@[ca], snap.order@[cb], snap.place@[a], snap.place@[b]),
                ),
            );
            self.place = Ghost(
                merged_place(
                    snap.colors(),
                    snap.chain_id@,
                    snap.place@,
                    ca,
                    cb,
                    snap.place@[a],
                    snap.place@[b],
                    snap.order@[ca].len() as int,
                    snap.order@[cb].len() as int,
                ),
            );
            assert(snap.chain@[ca].size + snap.chain@[cb].size < 0x1_0000_0000);
            assert(merge_rel(
                snap.colors(),
                snap.chain_id@,
                snap.chain_next_v@,
                snap.chain@,
                a,
                b,
                self.chain_id@,
                self.chain_next_v@,
                self.chain@,
            )) by {
                assert forall|u: int| 0 <= u < 443 implies (#[trigger] self.chain_id@[u]).id()
                    == if snap.colors()[u].is_player() && snap.chain_id@[u].id()
                    == snap.chain_id@[a].id() {
                    snap.chain_id@[b].id()
                } else {
                    snap.chain_id@[u].id()
                } by {
                    assert(head_of(self.chain_id@, u) == self.chain_id@[u].id());
                }
            }
            lemma_chains_merge(
                snap.colors(),
                snap.chain_id@,
                snap.chain_next_v@,
                snap.chain@,
                snap.order@,
                snap.place@,
                a,
                b,
                self.chain_id@,
                self.chain_next_v@,
                self.chain@,
            );
            assert(coarser(snap.colors(), snap.chain_ids(), self.colors(), self.chain_ids())) by {
                reveal(coarser);
                assert forall|u: int, w: int|
                    0 <= u < 443 && 0 <= w < 443 && self.colors()[u].is_player()
                        && self.colors()[w].is_player() && #[trigger] same_head(
                        snap.chain_ids(),
                        u,
                        w,
                    ) implies same_head(self.chain_ids(), u, w) by {
                    assert(head_of(self.chain_id@, u) == self.chain_id@[u].id());
                    assert(head_of(self.chain_id@, w) == self.chain_id@[w].id());
                }
            }
            assert(same_head(self.chain_ids(), b, a)) by {
                assert(head_of(self.chain_id@, a) == self.chain_id@[a].id());
                assert(head_of(self.chain_id@, b) == self.chain_id@[b].id());
            }
            assert(self.wf_libs()) by {
                reveal(libs_ok);
                let colors = snap.colors();
                let ids = snap.chain_ids();
                let ids2 = self.chain_ids();
                assert(is_head(colors, ids, ca));
                assert(is_head(colors, ids, cb));
                assert(rec_matches(colors, colors, ids, snap.chain@[ca], ca));
                assert(rec_matches(colors, colors, ids, snap.chain@[cb], cb));
                assert forall|h: int| 0 <= h < 443 && is_head(colors, ids2, h) implies #[trigger] rec_matches(
                    colors,
                    colors,
                    ids2,
                    self.chain@[h],
                    h,
                ) by {
                    assert(head_of(ids2, h) == h);
                    if h == cb {
                        assert forall|u: int| 0 <= u < 443 implies #[trigger] member(
                            colors,
                            ids2,
                            u,
                            cb,
                        ) == (member(colors, ids, u, cb) || member(colors, ids, u, ca)) by {
                            assert(head_of(ids2, u) == ids2[u].id());
                        }
                        lemma_libs_merged(
                            colors,
                            ids,
                            ids2,
                            ca,
                            cb,
                            snap.chain@[ca],
                            snap.chain@[cb],
                            self.chain@[cb],
                        );
                    } else {
                        assert(h != ca);
                        assert(is_head(colors, ids, h));
                        assert(rec_matches(colors, colors, ids, snap.chain@[h], h));
                        assert forall|u: int| 0 <= u < 443 implies member(colors, ids, u, h)
                            == #[trigger] member(colors, ids2, u, h) by {
                            assert(head_of(ids2, u) == ids2[u].id());
                        }
                        lemma_rec_same(
                            colors,
                            colors,
                            ids,
                            colors,
                            ids2,
                            snap.chain@[h],
                            self.chain@[h],
                            h,
                        );
                    }
                }
            }
        }
    }

    /// The fingerprints of `new` are those of `self` but for the atari
    /// flags that the fingerprint of the vertex `l` holds for its neighbors in
    /// the string with the head `c`, which are raised (`set`) or lowered.
    pub open(crate) spec fn flags_set_at(&self, new: &Board, l: int, c: Vertex, set: bool) -> bool {
        &&& new.hash3x3@ == self.hash3x3@.update(l, new.hash3x3@[l])
        &&& forall|d: Dir| #[trigger]
            new.hash3x3@[l].spec_color_at(d) == self.hash3x3@[l].spec_color_at(d)
        &&& forall|d: Dir|
            d.spec_is_simple4() ==> #[trigger] new.hash3x3@[l].spec_is_in_atari(d)
                == if self.chain_id@[l + d.offset()] == c {
                set
            } else {
                self.hash3x3@[l].spec_is_in_atari(d)
            }
    }

    /// The quotient of the sum and the count of the record of the string of
    /// `v`: its liberty, if the string is in atari.
    pub open(crate) spec fn atari_point(&self, v: int) -> int {
        self.chain@[self.chain_id@[v].id()].lib_sum as int / self.chain@[self.chain_id@[v].id()].lib_cnt as int
    }

    /// Whether the string of the stone on `v` is in atari by its record, with
    /// its liberty empty.
    pub open(crate) spec fn atari_found(&self, v: int) -> bool {
        &&& self.colors()[v].is_player()
        &&& self.chain@[self.chain_id@[v].id()].spec_is_in_atari()
        &&& self.chain@[self.chain_id@[v].id()].lib_cnt != 0
        &&& 0 <= self.atari_point(v) < 443
        &&& self.colors()[self.atari_point(v)] == Color::Empty
    }

    /// Records that the string of `v` is in atari, if it is: its last
    /// liberty is stored in the record, and the fingerprint of the liberty
    /// flags the stones of the string around it.  `liberties` is a list of
    /// vertices whose moments the record of the string holds.
    fn maybe_in_atari(&mut self, v: Vertex, liberties: Ghost<Seq<int>>)
        requires
            old(self).wf_geo(),
            old(self).marked_ok(),
            old(self).colors()[v.id()].is_player() ==> is_witness(
                old(self).chain@[old(self).chain_id@[v.id()].id()],
                liberties@,
            ) && old(self).chain@[old(self).chain_id@[v.id()].id()].lib_cnt != 0,
        ensures
            final(self).same_except(old(self), false, false, true, true, true, false),
            final(self).wf_geo(),
            final(self).marked_ok(),
            final(self).noted_since(old(self)),
            forall|k: int|
                0 <= k < 443 ==> same_moments(#[trigger] final(self).chain@[k], old(self).chain@[k]),
            if old(self).atari_found(v.id()) {
                old(self).flags_set_at(
                    final(self),
                    old(self).atari_point(v.id()),
                    old(self).chain_id@[v.id()],
                    true,
                )
            } else {
                final(self).hash3x3 == old(self).hash3x3
            },
    {
        proof {
            use_type_invariant(v);
            self.lemma_lens();
        }
        let color = self.color_at.get(v);
        if color == Color::Empty || color == Color::OffBoard {
            proof {
                self.lemma_noted_self();
            }
            return;
        }
        let chain_id = self.chain_id.get(v);
        proof {
            use_type_invariant(chain_id);
        }
        let chain = self.chain.get(chain_id);
        if !chain.is_in_atari() {
            proof {
                self.lemma_noted_self();
            }
            return;
        }
        proof {
            lemma_single_liberty(
                liberties@,
                chain.lib_cnt as int,
                chain.lib_sum as int,
                chain.lib_sum2 as int,
            );
        }
        assert(chain.lib_sum % chain.lib_cnt == 0);
        let av = Vertex::from_index((chain.lib_sum / chain.lib_cnt) as usize);
        if self.color_at.get(av) != Color::Empty {
            proof {
                self.lemma_noted_self();
            }
            return;
        }
        let mut c = chain;
        c.atari_v = av;
        self.chain.set(chain_id, c);
        proof {
            reveal(Board::wf_geo);
            reveal(Board::wf_flat);
            reveal(Board::wf_stones);
            reveal(Board::wf_listing);
            reveal(Board::counts_ok);
            reveal(Board::marked_ok);
            assert(self.plays_ok()) by {
                reveal(Board::plays_ok);
            }
        }
        let ghost mid = *self;
        self.flag_atari(av, chain_id, true);
        proof {
            self.lemma_noted_frame(&mid, old(self));
        }
    }

    /// Takes back the record that the string of `v` is in atari, if it is:
    /// the flags of its stones around its last liberty are lowered.
    /// `liberties` is a list of vertices whose moments the record of the
    /// string holds.
    fn maybe_in_atari_end(&mut self, v: Vertex, liberties: Ghost<Seq<int>>)
        requires
            old(self).wf_geo(),
            old(self).marked_ok(),
            old(self).colors()[v.id()].is_player() ==> is_witness(
                old(self).chain@[old(self).chain_id@[v.id()].id()],
                liberties@,
            ),
        ensures
            final(self).same_except(old(self), false, false, true, true, true, false),
            final(self).wf_geo(),
            final(self).marked_ok(),
            final(self).noted_since(old(self)),
            forall|k: int|
                0 <= k < 443 ==> same_moments(#[trigger] final(self).chain@[k], old(self).chain@[k]),
            if old(self).atari_found(v.id()) {
                old(self).flags_set_at(
                    final(self),
                    old(self).atari_point(v.id()),
                    old(self).chain_id@[v.id()],
                    false,
                )
            } else {
                final(self).hash3x3 == old(self).hash3x3
            },
    {
        proof {
            use_type_invariant(v);
            self.lemma_lens();
        }
        if !color_is_player(self.color_at.get(v)) {
            proof {
                self.lemma_noted_self();
            }
            return;
        }
        let chain_id = self.chain_id.get(v);
        proof {
            use_type_invariant(chain_id);
        }
        let chain = self.chain.get(chain_id);
        if chain.is_captured() {
            proof {
                self.lemma_noted_self();
            }
            return;
        }
        if !chain.is_in_atari() {
            proof {
                self.lemma_noted_self();
            }
            return;
        }
        proof {
            lemma_single_liberty(
                liberties@,
                chain.lib_cnt as int,
                chain.lib_sum as int,
                chain.lib_sum2 as int,
            );
        }
        assert(chain.lib_sum % chain.lib_cnt == 0);
        let av = Vertex::from_index((chain.lib_sum / chain.lib_cnt) as usize);
        if self.color_at.get(av) != Color::Empty {
            proof {
                self.lemma_noted_self();
            }
            return;
        }
        let mut c = chain;
        c.atari_v = Vertex::none();
        self.chain.set(chain_id, c);
        proof {
            reveal(Board::wf_geo);
            reveal(Board::wf_flat);
            reveal(Board::wf_stones);
            reveal(Board::wf_listing);
            reveal(Board::counts_ok);
            reveal(Board::marked_ok);
            assert(self.plays_ok()) by {
                reveal(Board::plays_ok);
            }
        }
        let ghost mid = *self;
        self.flag_atari(av, chain_id, false);
        proof {
            self.lemma_noted_frame(&mid, old(self));
        }
    }

    /// What was noted since a state that differs from `o` only in the string
    /// records was noted since `o`.
    pub(crate) proof fn lemma_noted_frame(&self, mid: &Board, o: &Board)
        requires
            self.noted_since(mid),
            mid.colors() == o.colors(),
            mid.patterns() == o.patterns(),
            mid.changed() == o.changed(),
        ensures
            self.noted_since(o),
    {
        reveal(Board::noted_since);
    }

    /// Raises (`set`) or lowers the atari flags that the fingerprint of the
    /// empty vertex `av` holds for its neighbors in the string with the head
    /// `chain_id`, and notes `av` as changed.
    fn flag_atari(&mut self, av: Vertex, chain_id: Vertex, set: bool)
        requires
            old(self).wf_geo(),
            old(self).marked_ok(),
            old(self).colors()[av.id()] == Color::Empty,
        ensures
            final(self).same_except(old(self), false, false, false, true, true, false),
            final(self).wf_geo(),
            final(self).marked_ok(),
            final(self).noted_since(old(self)),
            final(self).hash3x3@ == old(self).hash3x3@.update(
                av.id(),
                final(self).hash3x3@[av.id()],
            ),
            forall|d: Dir| #[trigger]
                final(self).hash3x3@[av.id()].spec_color_at(d) == old(
                    self,
                ).hash3x3@[av.id()].spec_color_at(d),
            forall|d: Dir|
                d.spec_is_simple4() ==> #[trigger] final(self).hash3x3@[av.id()].spec_is_in_atari(d)
                    == if old(self).chain_id@[av.id() + d.offset()] == chain_id {
                    set
                } else {
                    old(self).hash3x3@[av.id()].spec_is_in_atari(d)
                },
    {
        proof {
            reveal(Board::wf_geo);
            reveal(Board::wf_flat);
            reveal(Board::wf_stones);
            reveal(Board::wf_listing);
            reveal(Board::counts_ok);
            reveal(Board::noted_since);
            reveal(Board::marked_ok);
        }
        let ghost snap = *self;
        let ghost id = av.id();
        proof {
            use_type_invariant(av);
            self.lemma_wf_basics();
            lemma_on_board(self.colors(), self.width(), self.height(), id);
            lemma_within_range(id, self.width(), self.height());
            assert(has_nbr(id, Dir::N) && has_nbr(id, Dir::E) && has_nbr(id, Dir::S) && has_nbr(
                id,
                Dir::W,
            ));
        }
        let b_n = self.chain_id.get(vertex_nbr(av, Dir::N)) == chain_id;
        let b_e = self.chain_id.get(vertex_nbr(av, Dir::E)) == chain_id;
        let b_s = self.chain_id.get(vertex_nbr(av, Dir::S)) == chain_id;
        let b_w = self.chain_id.get(vertex_nbr(av, Dir::W)) == chain_id;
        let mut hv = self.hash3x3.get(av);
        if set {
            hv.set_atari_bits(b_n, b_e, b_s, b_w);
        } else {
            hv.unset_atari_bits(b_n, b_e, b_s, b_w);
        }
        self.hash3x3.set(av, hv);
        proof {
            assert forall|i: int, d: Dir| 0 <= i < 443 implies #[trigger] self.patterns()[i].spec_color_at(
                d,
            ) == snap.patterns()[i].spec_color_at(d) by {}
            lemma_patterns_flags(
                snap.colors(),
                snap.patterns(),
                self.patterns(),
                self.width(),
                self.height(),
            );
            assert(self.plays_ok()) by {
                reveal(Board::plays_ok);
            }
        }
        let ghost mid = *self;
        if !self.tmp_vertex_set.is_marked(av) {
            self.push_changed(av);
            proof {
                assert(self.plays_ok()) by {
                    reveal(Board::plays_ok);
                }
                assert forall|j: int| 0 <= j < 443 && in_list(snap.changed(), j) implies #[trigger] in_list(
                    self.changed(),
                    j,
                ) by {
                    lemma_in_list_push(mid.changed(), id as u32, j);
                }
                lemma_in_list_push(mid.changed(), id as u32, id);
            }
        }
    }

    /// Records that keep their moments keep matching.
    pub(crate) proof fn lemma_libs_moments(&self, o: &Board, colors: Seq<Color>)
        requires
            libs_ok(colors, o.colors(), o.chain_ids(), o.chain_records()),
            self.colors() == o.colors(),
            self.chain_ids() == o.chain_ids(),
            forall|k: int| 0 <= k < 443 ==> same_moments(#[trigger] self.chain@[k], o.chain@[k]),
        ensures
            libs_ok(colors, self.colors(), self.chain_ids(), self.chain_records()),
    {
        reveal(libs_ok);
        assert forall|h: int| 0 <= h < 443 && is_head(self.colors(), self.chain_ids(), h) implies #[trigger] rec_matches(
            colors,
            self.colors(),
            self.chain_ids(),
            self.chain_records()[h],
            h,
        ) by {
            assert(rec_matches(colors, o.colors(), o.chain_ids(), o.chain_records()[h], h));
            assert(same_moments(self.chain@[h], o.chain@[h]));
        }
    }

    /// Nothing needs noting when nothing changed.
    pub(crate) proof fn lemma_noted_self(&self)
        ensures
            self.noted_since(self),
    {
        reveal(Board::wf_geo);
        reveal(Board::wf_flat);
        reveal(Board::wf_stones);
        reveal(Board::wf_listing);
        reveal(Board::counts_ok);
        reveal(Board::noted_since);
        reveal(Board::marked_ok);
    }

    /// Takes the stone of `player` off the vertex `x`: the list of empty
    /// vertices, the stone count and the hash follow.
    fn take_color(&mut self, player: Player, x: Vertex)
        requires
            old(self).wf_stones(),
            old(self).colors()[x.id()] == Color::of_player(player),
        ensures
            final(self).same_except(old(self), true, false, false, false, false, false),
            final(self).nbr_cnt == old(self).nbr_cnt,
            final(self).wf_stones(),
            final(self).colors() == old(self).colors().update(x.id(), Color::Empty),
            within(x.id(), old(self).width(), old(self).height()),
            final(self).spec_stone_count(player) == old(self).spec_stone_count(player) - 1,
            final(self).spec_stone_count(player.spec_opponent()) == old(self).spec_stone_count(
                player.spec_opponent(),
            ),
    {
        proof {
            reveal(Board::wf_geo);
            reveal(Board::wf_flat);
            reveal(Board::wf_stones);
            reveal(Board::wf_listing);
            reveal(Board::counts_ok);
            reveal(Board::noted_since);
            reveal(Board::marked_ok);
        }
        let ghost id = x.id();
        let ghost w = self.width();
        let ghost h = self.height();
        let ghost c0 = self.colors();
        proof {
            use_type_invariant(x);
            self.lemma_wf_basics();
            lemma_on_board(c0, w, h, id);
            lemma_count_positive(c0, id, Color::of_player(player), 443);
            lemma_empty_put(c0, self.empties(), self.empty_places(), self.spec_empty_count(), x);
            lemma_count_update(c0, id, Color::Empty, Color::Empty, 443);
            lemma_count_update(c0, id, Color::Empty, Color::Black, 443);
            lemma_count_update(c0, id, Color::Empty, Color::White, 443);
            lemma_hash_update(c0, id, Color::Empty, 443);
            lemma_xor_swap(self.hash@, 0, 0);
            lemma_xor_swap(self.hash@ ^ zobrist_part(Color::of_player(player), id), 0, 0);
            lemma_geom_recolor(c0, w, h, id, Color::Empty);
            lemma_changed_recolor(c0, self.changed(), id, Color::Empty);
        }
        // Put the vertex on the list of empty vertices.
        self.empty_pos.set(x, self.empty_v_cnt);
        self.empty_v[self.empty_v_cnt as usize] = x;
        self.empty_v_cnt += 1;

        // Take the stone off.
        self.color_at.set(x, Color::Empty);
        let stones: u32 = self.player_v_cnt.get(player);
        self.player_v_cnt.set(player, stones - 1);

        self.hash = self.hash.xor(self.zobrist.of_player_vertex(player, x));
        proof {
            assert(self.plays_ok()) by {
                reveal(Board::plays_ok);
            }
        }
    }

    /// The neighbor `nbr_v` of a stone of `player` that was taken off counts
    /// one stone less.
    fn remove_stone_nbr(&mut self, player: Player, nbr_v: Vertex)
        requires
            old(self).lens_ok(),
        ensures
            final(self).same_except(old(self), true, false, false, false, false, false),
            final(self).same_colors(old(self)),
            final(self).lens_ok(),
            final(self).nbr_cnt@ =~= old(self).nbr_cnt@.update(
                nbr_v.id(),
                final(self).nbr_cnt@[nbr_v.id()],
            ),
            final(self).nbr_cnt@[nbr_v.id()].bits() == wrap32(
                old(self).nbr_cnt@[nbr_v.id()].bits() - player_unit(player) + 256,
            ),
    {
        proof {
            use_type_invariant(nbr_v);
        }
        let mut cnt = self.nbr_cnt.get(nbr_v);
        cnt.player_dec(player);
        self.nbr_cnt.set(nbr_v, cnt);
    }

    /// Takes the stone of `player` on `x` off the board, and lets every
    /// table but those of the strings follow.
    fn remove_stone(&mut self, player: Player, x: Vertex)
        requires
            old(self).wf_geo(),
            old(self).marked_ok(),
            old(self).colors()[x.id()] == Color::of_player(player),
        ensures
            final(self).same_except(old(self), true, true, false, true, true, false),
            final(self).chain_next_v == old(self).chain_next_v,
            final(self).order == old(self).order,
            final(self).place == old(self).place,
            final(self).chain_id@ == old(self).chain_id@.update(x.id(), x),
            final(self).wf_geo(),
            final(self).marked_ok(),
            final(self).colors() == old(self).colors().update(x.id(), Color::Empty),
            final(self).noted_since(old(self)),
            within(x.id(), old(self).width(), old(self).height()),
            final(self).spec_stone_count(player) == old(self).spec_stone_count(player) - 1,
            final(self).spec_stone_count(player.spec_opponent()) == old(self).spec_stone_count(
                player.spec_opponent(),
            ),
            forall|e: int, d: Dir|
                0 <= e < 443 && d.spec_is_simple4() ==> #[trigger] flag_of(final(self).patterns(), e, d)
                    == if e == x.id() {
                    false
                } else {
                    flag_of(old(self).patterns(), e, d)
                },
    {
        proof {
            reveal(Board::wf_geo);
            reveal(Board::wf_flat);
            reveal(Board::wf_stones);
            reveal(Board::wf_listing);
            reveal(Board::counts_ok);
            reveal(Board::noted_since);
            reveal(Board::marked_ok);
        }
        let ghost snap = *self;
        let ghost id = x.id();
        let ghost w = self.width();
        let ghost h = self.height();
        let ghost c0 = self.colors();
        proof {
            use_type_invariant(x);
            self.lemma_wf_basics();
        }
        self.take_color(player, x);
        self.chain_id.set(x, x);
        let ghost c1 = self.colors();
        proof {
            lemma_within_range(id, w, h);
            assert(c1.update(id, Color::of_player(player)) =~= c0);
        }

        let mut hv = self.hash3x3.get(x);
        hv.reset_atari_bits();
        self.hash3x3.set(x, hv);
        proof {
            assert forall|i: int, d: Dir| 0 <= i < 443 implies #[trigger] self.patterns()[i].spec_color_at(
                d,
            ) == snap.patterns()[i].spec_color_at(d) by {}
            lemma_patterns_flags(c0, snap.patterns(), self.patterns(), w, h);
            assert(self.plays_ok()) by {
                reveal(Board::plays_ok);
            }
        }
        let ghost s1 = *self;
        if !self.tmp_vertex_set.is_marked(x) {
            self.push_changed(x);
            proof {
                lemma_in_list_push(s1.changed(), id as u32, id);
                assert forall|j: int| 0 <= j < 443 && in_list(snap.changed(), j) implies #[trigger] in_list(
                    self.changed(),
                    j,
                ) by {
                    lemma_in_list_push(s1.changed(), id as u32, j);
                }
            }
        }
        let ghost s2 = *self;
        proof {
            assert(in_list(s2.changed(), id));
        }
        self.repaint_around(x, Color::Empty, Ghost(Color::of_player(player)));
        let ghost s3 = *self;
        self.remove_stone_nbr(player, x.up());
        self.remove_stone_nbr(player, x.left());
        self.remove_stone_nbr(player, x.right());
        self.remove_stone_nbr(player, x.down());
        proof {
            assert forall|e: int, d: Dir|
                0 <= e < 443 && d.spec_is_simple4() implies #[trigger] flag_of(self.patterns(), e, d)
                == if e == id {
                false
            } else {
                flag_of(snap.patterns(), e, d)
            } by {
                assert(self.patterns() == s3.patterns());
                assert(s3.patterns()[e].spec_is_in_atari(d) == s2.patterns()[e].spec_is_in_atari(d));
                assert(s2.patterns() == s1.patterns());
                if e == id {
                    assert(s1.patterns()[e] == hv);
                } else {
                    assert(s1.patterns()[e] == snap.patterns()[e]);
                }
            }
            assert forall|i: int| 0 <= i < 443 && within(i, w, h) implies (
            #[trigger] self.nbr_cnt@[i]).bits() == if adjacent(i, id) {
                wrap32(snap.nbr_cnt@[i].bits() - player_unit(player) + 256)
            } else {
                snap.nbr_cnt@[i].bits()
            } by {}
            lemma_counters_remove(c0, snap.nbr_cnt@, self.nbr_cnt@, w, h, id, player);
            assert(self.plays_ok()) by {
                reveal(Board::plays_ok);
            }
            assert(self.wf_stones());
            assert forall|i: int| 0 <= i < 443 && in_list(snap.changed(), i) implies #[trigger] in_list(
                self.changed(),
                i,
            ) by {
                assert(in_list(s2.changed(), i));
            }
            assert forall|i: int|
                0 <= i < 443 && self.colors()[i] == Color::Empty && (self.patterns()[i]
                    != snap.patterns()[i] || snap.colors()[i] != Color::Empty) implies #[trigger] in_list(
                self.changed(),
                i,
            ) by {
                if i == id {
                    assert(in_list(s2.changed(), i));
                } else {
                    assert(s2.patterns()[i] == snap.patterns()[i]);
                }
            }
        }
    }

    /// The vertex `x` has become empty: its neighbor `nbr_v` leaves atari,
    /// if it was in atari, and counts `x` as a liberty.
    fn free_liberty(&mut self, x: Vertex, nbr_v: Vertex, liberties: Ghost<Seq<int>>)
        requires
            old(self).wf_geo(),
            old(self).marked_ok(),
            old(self).colors()[nbr_v.id()].is_player() ==> is_witness(
                old(self).chain@[old(self).chain_id@[nbr_v.id()].id()],
                liberties@,
            ),
        ensures
            final(self).same_except(old(self), false, false, true, true, true, false),
            final(self).wf_geo(),
            final(self).marked_ok(),
            final(self).noted_since(old(self)),
            forall|k: int|
                0 <= k < 443 ==> (#[trigger] final(self).chain@[k]).size == old(self).chain@[k].size,
            forall|k: int|
                0 <= k < 443 ==> same_moments(
                    #[trigger] final(self).chain@[k],
                    if k == old(self).chain_id@[nbr_v.id()].id() {
                        old(self).chain@[k].lib_added(x.id())
                    } else {
                        old(self).chain@[k]
                    },
                ),
            if old(self).atari_found(nbr_v.id()) {
                old(self).flags_set_at(
                    final(self),
                    old(self).atari_point(nbr_v.id()),
                    old(self).chain_id@[nbr_v.id()],
                    false,
                )
            } else {
                final(self).hash3x3 == old(self).hash3x3
            },
            old(self).colors()[nbr_v.id()].is_player() ==> final(self).chain@[head_of(
                old(self).chain_id@,
                nbr_v.id(),
            )].lib_cnt == old(self).chain@[head_of(old(self).chain_id@, nbr_v.id())].lib_cnt + 1,
    {
        proof {
            reveal(Board::wf_geo);
            reveal(Board::wf_flat);
            reveal(Board::wf_stones);
            reveal(Board::wf_listing);
            reveal(Board::counts_ok);
            reveal(Board::noted_since);
            reveal(Board::marked_ok);
            if self.colors()[nbr_v.id()].is_player() {
                lemma_moment_range(liberties@, liberties@.len() as int, 0);
            }
        }
        self.maybe_in_atari_end(nbr_v, liberties);
        let id = self.chain_id.get(nbr_v);
        proof {
            use_type_invariant(nbr_v);
            use_type_invariant(id);
            self.lemma_lens();
        }
        let ghost mid = *self;
        let mut c = self.chain.get(id);
        c.add_lib(x);
        self.chain.set(id, c);
        proof {
            assert(self.plays_ok()) by {
                reveal(Board::plays_ok);
            }
            assert forall|k: int| 0 <= k < 443 implies same_moments(
                #[trigger] self.chain@[k],
                if k == old(self).chain_id@[nbr_v.id()].id() {
                    old(self).chain@[k].lib_added(x.id())
                } else {
                    old(self).chain@[k]
                },
            ) by {
                assert(same_moments(mid.chain@[k], old(self).chain@[k]));
                assert(mid.chain_id == old(self).chain_id);
                assert(id == old(self).chain_id@[nbr_v.id()]);
                assert(self.chain@ == mid.chain@.update(id.id(), c));
                assert(c == mid.chain@[id.id()].lib_added(x.id()));
                if k == id.id() {
                    assert(self.chain@[k] == mid.chain@[k].lib_added(x.id()));
                } else {
                    assert(self.chain@[k] == mid.chain@[k]);
                }
            }
        }
    }

    /// The vertex `x` has become empty: its four neighbors count it as a
    /// liberty.  `libs` are the colors that the records go by so far: those
    /// of the board, but with the stones that are yet to be counted as
    /// liberties.  `snap` is the board before the string with the head `cx`
    /// left it, and `dirty` the strings whose flags were not yet set then.
    fn free_liberties(
        &mut self,
        x: Vertex,
        libs: Ghost<Seq<Color>>,
        snap: Ghost<Board>,
        cx: Ghost<int>,
        dirty: Ghost<Set<int>>,
    )
        requires
            old(self).wf_geo(),
            old(self).marked_ok(),
            old(self).lowered(&snap@, cx@, dirty@),
            old(self).remains_of(&snap@, cx@),
            atari_ok(
                snap@.colors(),
                snap@.chain_ids(),
                snap@.chain_records(),
                snap@.patterns(),
                dirty@,
            ),
            alive_but(snap@.colors(), snap@.chain_ids(), snap@.chain_records(), dirty@),
            snap@.wf_geo(),
            snap@.wf_libs(),
            snap@.wf_chains(),
            22 <= x.id() <= 418,
            libs@.len() == 443,
            libs@[x.id()] != Color::Empty,
            libs_ok(libs@, old(self).colors(), old(self).chain_ids(), old(self).chain_records()),
            forall|u: int|
                0 <= u < 443 && !old(self).colors()[u].is_player() ==> #[trigger] head_of(
                    old(self).chain_id@,
                    u,
                ) == u,
            forall|u: int|
                0 <= u < 443 && old(self).colors()[u].is_player() ==> 0 <= #[trigger] head_of(
                    old(self).chain_id@,
                    u,
                ) < 443 && is_head(
                    old(self).colors(),
                    old(self).chain_ids(),
                    head_of(old(self).chain_id@, u),
                ),
        ensures
            final(self).same_except(old(self), false, false, true, true, true, false),
            final(self).wf_geo(),
            final(self).marked_ok(),
            final(self).noted_since(old(self)),
            forall|k: int|
                0 <= k < 443 ==> (#[trigger] final(self).chain@[k]).size == old(self).chain@[k].size,
            libs_ok(
                libs@.update(x.id(), Color::Empty),
                final(self).colors(),
                final(self).chain_ids(),
                final(self).chain_records(),
            ),
            final(self).lowered(&snap@, cx@, dirty@),
    {
        proof {
            reveal(Board::wf_geo);
            reveal(Board::wf_flat);
            reveal(Board::noted_since);
        }
        let ghost s0 = *self;
        let ghost id = x.id();
        let ghost w0 = Seq::new(
            443,
            |c: int| chain_lib_list(libs@, s0.colors(), s0.chain_ids(), c, 443),
        );
        proof {
            s0.lemma_stones_inside();
            s0.lemma_witnesses(libs@);
        }
        self.free_liberty(x, x.up(), Ghost(w0[head_of(s0.chain_id@, id - 21)]));
        let ghost s1 = *self;
        let ghost w1 = s0.witnesses_after(w0, id, id - 21);
        proof {
            s0.lemma_witness_step(s1.chain@, w0, id, id - 21, 1772);
            s1.lemma_lowered_step(&s0, &snap@, cx@, dirty@, id, id - 21);
        }
        self.free_liberty(x, x.left(), Ghost(w1[head_of(s0.chain_id@, id - 1)]));
        let ghost s2 = *self;
        let ghost w2 = s0.witnesses_after(w1, id, id - 1);
        proof {
            s1.lemma_witness_step(s2.chain@, w1, id, id - 1, 1773);
            s2.lemma_lowered_step(&s1, &snap@, cx@, dirty@, id, id - 1);
        }
        self.free_liberty(x, x.right(), Ghost(w2[head_of(s0.chain_id@, id + 1)]));
        let ghost s3 = *self;
        let ghost w3 = s0.witnesses_after(w2, id, id + 1);
        proof {
            s2.lemma_witness_step(s3.chain@, w2, id, id + 1, 1774);
            s3.lemma_lowered_step(&s2, &snap@, cx@, dirty@, id, id + 1);
        }
        self.free_liberty(x, x.down(), Ghost(w3[head_of(s0.chain_id@, id + 21)]));
        proof {
            self.lemma_lowered_step(&s3, &snap@, cx@, dirty@, id, id + 21);
            lemma_noted_trans(
                s0.colors(),
                s0.patterns(),
                s0.changed(),
                s1.colors(),
                s1.patterns(),
                s1.changed(),
                s2.colors(),
                s2.patterns(),
                s2.changed(),
            );
            lemma_noted_trans(
                s0.colors(),
                s0.patterns(),
                s0.changed(),
                s2.colors(),
                s2.patterns(),
                s2.changed(),
                s3.colors(),
                s3.patterns(),
                s3.changed(),
            );
            lemma_noted_trans(
                s0.colors(),
                s0.patterns(),
                s0.changed(),
                s3.colors(),
                s3.patterns(),
                s3.changed(),
                self.colors(),
                self.patterns(),
                self.changed(),
            );
            s0.lemma_stones_inside();
            s0.lemma_freed_libs(libs@, x.id(), s1.chain@, s2.chain@, s3.chain@, self.chain@);
        }
    }

    /// Every string record has a list of at most `bound` vertices as a
    /// witness of its moments.
    pub open(crate) spec fn witnessed(&self, wit: Seq<Seq<int>>, bound: int) -> bool {
        &&& wit.len() == 443
        &&& forall|c: int|
            0 <= c < 443 && is_head(self.colors(), self.chain_ids(), c) ==> is_witness(
                self.chain@[c],
                #[trigger] wit[c],
            ) && wit[c].len() <= bound
    }

    /// The witnesses after the neighbor `nbr` of the vertex `x` has counted
    /// `x` as a liberty.
    pub open(crate) spec fn witnesses_after(&self, wit: Seq<Seq<int>>, x: int, nbr: int) -> Seq<
        Seq<int>,
    > {
        if self.colors()[nbr].is_player() {
            wit.update(head_of(self.chain_id@, nbr), wit[head_of(self.chain_id@, nbr)].push(x))
        } else {
            wit
        }
    }

    /// The lists of the liberties of the strings are witnesses of their
    /// records.
    pub(crate) proof fn lemma_witnesses(&self, libs: Seq<Color>)
        requires
            stones_inside(self.colors()),
            libs_ok(libs, self.colors(), self.chain_ids(), self.chain_records()),
        ensures
            self.witnessed(
                Seq::new(443, |c: int| chain_lib_list(libs, self.colors(), self.chain_ids(), c, 443)),
                1772,
            ),
    {
        reveal(libs_ok);
        let wit = Seq::new(
            443,
            |c: int| chain_lib_list(libs, self.colors(), self.chain_ids(), c, 443),
        );
        assert forall|c: int| 0 <= c < 443 && is_head(self.colors(), self.chain_ids(), c) implies is_witness(
            self.chain@[c],
            #[trigger] wit[c],
        ) && wit[c].len() <= 1772 by {
            assert(rec_matches(libs, self.colors(), self.chain_ids(), self.chain@[c], c));
            lemma_witness(libs, self.colors(), self.chain_ids(), self.chain@[c], c);
            crate::liberties::lemma_chain_lib_list(
                libs,
                self.colors(),
                self.chain_ids(),
                c,
                443,
                0,
            );
        }
    }

    /// The witnesses follow when the neighbor `nbr` of `x` counts `x` as a
    /// liberty.
    pub(crate) proof fn lemma_witness_step(
        &self,
        recs2: Seq<Chain>,
        wit: Seq<Seq<int>>,
        x: int,
        nbr: int,
        bound: int,
    )
        requires
            self.witnessed(wit, bound),
            bound < 2000,
            0 <= x < 443,
            0 <= nbr < 443,
            forall|u: int|
                0 <= u < 443 && self.colors()[u].is_player() ==> 0 <= #[trigger] head_of(
                    self.chain_id@,
                    u,
                ) < 443,
            forall|u: int|
                0 <= u < 443 && !self.colors()[u].is_player() ==> #[trigger] head_of(
                    self.chain_id@,
                    u,
                ) == u,
            forall|k: int|
                0 <= k < 443 ==> same_moments(
                    #[trigger] recs2[k],
                    if k == self.chain_id@[nbr].id() {
                        self.chain@[k].lib_added(x)
                    } else {
                        self.chain@[k]
                    },
                ),
        ensures
            ({
                let wit2 = self.witnesses_after(wit, x, nbr);
                &&& wit2.len() == 443
                &&& forall|c: int|
                    0 <= c < 443 && is_head(self.colors(), self.chain_ids(), c) ==> is_witness(
                        recs2[c],
                        #[trigger] wit2[c],
                    ) && wit2[c].len() <= bound + 1
            }),
    {
        let wit2 = self.witnesses_after(wit, x, nbr);
        let t = head_of(self.chain_id@, nbr);
        assert forall|c: int| 0 <= c < 443 && is_head(self.colors(), self.chain_ids(), c) implies is_witness(
            recs2[c],
            #[trigger] wit2[c],
        ) && wit2[c].len() <= bound + 1 by {
            assert(is_witness(self.chain@[c], wit[c]) && wit[c].len() <= bound);
            assert(same_moments(recs2[c], if c == self.chain_id@[nbr].id() {
                self.chain@[c].lib_added(x)
            } else {
                self.chain@[c]
            }));
            if self.colors()[nbr].is_player() && c == t {
                lemma_witness_push(self.chain@[c], recs2[c], wit[c], x);
            } else {
                if c == self.chain_id@[nbr].id() {
                    // The neighbor is no stone: its own record is no head's.
                    assert(head_of(self.chain_id@, nbr) == nbr);
                    assert(false);
                }
                lemma_witness_same(self.chain@[c], recs2[c], wit[c]);
            }
        }
    }

    /// After the four neighbors of the vertex `x`, which has become empty,
    /// have counted it, the records hold the liberties with `x` among them.
    pub(crate) proof fn lemma_freed_libs(
        &self,
        libs: Seq<Color>,
        x: int,
        r2: Seq<Chain>,
        r3: Seq<Chain>,
        r4: Seq<Chain>,
        r5: Seq<Chain>,
    )
        requires
            stones_inside(self.colors()),
            22 <= x <= 418,
            libs.len() == 443,
            libs[x] != Color::Empty,
            libs_ok(libs, self.colors(), self.chain_ids(), self.chain_records()),
            forall|u: int|
                0 <= u < 443 && !self.colors()[u].is_player() ==> #[trigger] head_of(
                    self.chain_id@,
                    u,
                ) == u,
            forall|k: int|
                0 <= k < 443 ==> same_moments(
                    #[trigger] r2[k],
                    if k == self.chain_id@[x - 21].id() {
                        self.chain@[k].lib_added(x)
                    } else {
                        self.chain@[k]
                    },
                ),
            forall|k: int|
                0 <= k < 443 ==> same_moments(
                    #[trigger] r3[k],
                    if k == self.chain_id@[x - 1].id() {
                        r2[k].lib_added(x)
                    } else {
                        r2[k]
                    },
                ),
            forall|k: int|
                0 <= k < 443 ==> same_moments(
                    #[trigger] r4[k],
                    if k == self.chain_id@[x + 1].id() {
                        r3[k].lib_added(x)
                    } else {
                        r3[k]
                    },
                ),
            forall|k: int|
                0 <= k < 443 ==> same_moments(
                    #[trigger] r5[k],
                    if k == self.chain_id@[x + 21].id() {
                        r4[k].lib_added(x)
                    } else {
                        r4[k]
                    },
                ),
        ensures
            libs_ok(libs.update(x, Color::Empty), self.colors(), self.chain_ids(), r5),
    {
        reveal(libs_ok);
        let stones = self.colors();
        let ids = self.chain_ids();
        let r1 = self.chain@;
        assert forall|h: int| 0 <= h < 443 && is_head(stones, ids, h) implies #[trigger] rec_matches(
            libs.update(x, Color::Empty),
            stones,
            ids,
            r5[h],
            h,
        ) by {
            assert(rec_matches(libs, stones, ids, r1[h], h));
            assert(head_of(self.chain_id@, x - 21) == ids[x - 21].id());
            assert(head_of(self.chain_id@, x - 1) == ids[x - 1].id());
            assert(head_of(self.chain_id@, x + 1) == ids[x + 1].id());
            assert(head_of(self.chain_id@, x + 21) == ids[x + 21].id());
            assert(same_moments(r2[h], if h == ids[x - 21].id() {
                r1[h].lib_added(x)
            } else {
                r1[h]
            }));
            assert(same_moments(r3[h], if h == ids[x - 1].id() {
                r2[h].lib_added(x)
            } else {
                r2[h]
            }));
            assert(same_moments(r4[h], if h == ids[x + 1].id() {
                r3[h].lib_added(x)
            } else {
                r3[h]
            }));
            assert(same_moments(r5[h], if h == ids[x + 21].id() {
                r4[h].lib_added(x)
            } else {
                r4[h]
            }));
            lemma_libs_steps(
                libs,
                libs.update(x, Color::Empty),
                stones,
                ids,
                h,
                x,
                true,
                r1[h],
                r2[h],
                r3[h],
                r4[h],
                r5[h],
            );
        }
    }

    /// Whether the walk along the string with head `c`, begun on the place
    /// `from`, has passed the stone `u` after `k` steps.
    pub open(crate) spec fn passed(&self, u: int, c: int, from: int, k: int) -> bool {
        self.in_string(u, c) && 0 <= offset_in(
            self.place@[u],
            from,
            self.order@[c].len() as int,
        ) < k
    }

    /// One more step of the walk passes the stone it stood on, and no other.
    pub(crate) proof fn lemma_passed_step(&self, c: int, from: int, k: int, cur: int, u: int)
        requires
            self.wf_chains(),
            0 <= cur < 443,
            0 <= u < 443,
            0 <= k,
            self.in_string(cur, c),
            offset_in(self.place@[cur], from, self.order@[c].len() as int) == k,
        ensures
            self.passed(u, c, from, k + 1) == (self.passed(u, c, from, k) || u == cur),
    {
        if self.in_string(u, c) {
            lemma_walk(
                self.colors(),
                self.chain_id@,
                self.chain_next_v@,
                self.chain@,
                self.order@,
                self.place@,
                u,
            );
            lemma_walk(
                self.colors(),
                self.chain_id@,
                self.chain_next_v@,
                self.chain@,
                self.order@,
                self.place@,
                cur,
            );
            if u != cur && offset_in(self.place@[u], from, self.order@[c].len() as int) == k {
                lemma_same_place(
                    self.colors(),
                    self.chain_id@,
                    self.chain_next_v@,
                    self.chain@,
                    self.order@,
                    self.place@,
                    u,
                    cur,
                );
            }
        }
    }

    /// A walk of as many steps as the string has stones passes them all.
    pub(crate) proof fn lemma_passed_all(&self, c: int, from: int, u: int)
        requires
            self.wf_chains(),
            0 <= u < 443,
            0 <= from < self.order@[c].len(),
        ensures
            self.passed(u, c, from, self.order@[c].len() as int) == self.in_string(u, c),
    {
        if self.in_string(u, c) {
            lemma_walk(
                self.colors(),
                self.chain_id@,
                self.chain_next_v@,
                self.chain@,
                self.order@,
                self.place@,
                u,
            );
        }
    }

    /// The stone after `cur` is the next on the walk that began on `a`, and
    /// it is `a` again after as many steps as the string has stones.
    pub(crate) proof fn lemma_walk_step(&self, a: int, k: int, cur: int)
        requires
            self.wf_chains(),
            0 <= a < 443,
            0 <= cur < 443,
            self.colors()[a].is_player(),
            self.in_string(cur, self.chain_id@[a].id()),
            0 <= k < self.order@[self.chain_id@[a].id()].len(),
            offset_in(
                self.place@[cur],
                self.place@[a],
                self.order@[self.chain_id@[a].id()].len() as int,
            ) == k,
        ensures
            ({
                let c = self.chain_id@[a].id();
                let n = self.order@[c].len() as int;
                let next = self.chain_next_v@[cur].id();
                &&& 0 <= next < 443
                &&& self.in_string(next, c)
                &&& (k + 1 < n ==> offset_in(self.place@[next], self.place@[a], n) == k + 1 && next
                    != a)
                &&& (k + 1 == n ==> next == a)
            }),
    {
        lemma_walk(
            self.colors(),
            self.chain_id@,
            self.chain_next_v@,
            self.chain@,
            self.order@,
            self.place@,
            a,
        );
        lemma_walk(
            self.colors(),
            self.chain_id@,
            self.chain_next_v@,
            self.chain@,
            self.order@,
            self.place@,
            cur,
        );
        let next = self.chain_next_v@[cur].id();
        let c = self.chain_id@[a].id();
        let n = self.order@[c].len() as int;
        if k + 1 == n {
            lemma_same_place(
                self.colors(),
                self.chain_id@,
                self.chain_next_v@,
                self.chain@,
                self.order@,
                self.place@,
                next,
                a,
            );
        }
    }

    /// The number of stones of the color `c`.
    pub open(crate) spec fn stones_of(&self, c: Color) -> int {
        self.spec_stone_count(c.to_player())
    }

    /// The recorded size of the string of the stone on `v`.
    pub open(crate) spec fn string_size(&self, v: int) -> int {
        self.chain@[self.chain_id@[v].id()].size as int
    }

    /// Takes the string of `v` off the board.  `dirty` are the strings
    /// whose atari flags a move has yet to set.
    fn remove_chain(&mut self, v: Vertex, dirty: Ghost<Set<int>>)
        requires
            old(self).wf_geo(),
            old(self).wf_chains(),
            old(self).wf_libs(),
            old(self).marked_ok(),
            old(self).colors()[v.id()].is_player(),
            atari_ok(
                old(self).colors(),
                old(self).chain_ids(),
                old(self).chain_records(),
                old(self).patterns(),
                dirty@,
            ),
            alive_but(old(self).colors(), old(self).chain_ids(), old(self).chain_records(), dirty@),
        ensures
            final(self).lowered(old(self), old(self).chain_id@[v.id()].id(), dirty@),
            final(self).same_except(old(self), true, true, true, true, true, false),
            final(self).wf_geo(),
            final(self).wf_chains(),
            final(self).wf_libs(),
            final(self).marked_ok(),
            final(self).noted_since(old(self)),
            forall|u: int|
                0 <= u < 443 ==> #[trigger] color_of(final(self).colors(), u) == if old(
                    self,
                ).in_string(u, old(self).chain_id@[v.id()].id()) {
                    Color::Empty
                } else {
                    old(self).colors()[u]
                },
            forall|u: int|
                0 <= u < 443 ==> #[trigger] head_of(final(self).chain_id@, u) == if old(
                    self,
                ).in_string(u, old(self).chain_id@[v.id()].id()) {
                    u
                } else {
                    old(self).chain_id@[u].id()
                },
            coarser(
                old(self).colors(),
                old(self).chain_ids(),
                final(self).colors(),
                final(self).chain_ids(),
            ),
            final(self).stones_of(old(self).colors()[v.id()]) == old(self).stones_of(
                old(self).colors()[v.id()],
            ) - old(self).string_size(v.id()),
            final(self).stones_of(Color::of_player(old(self).colors()[v.id()].to_player().spec_opponent()))
                == old(self).stones_of(
                Color::of_player(old(self).colors()[v.id()].to_player().spec_opponent()),
            ),
    {
        proof {
            reveal(Board::wf_geo);
            reveal(Board::wf_flat);
            reveal(Board::wf_stones);
            reveal(Board::wf_listing);
            reveal(Board::counts_ok);
            reveal(Board::noted_since);
            reveal(Board::marked_ok);
        }
        let ghost snap = *self;
        let ghost a = v.id();
        let ghost cx = snap.chain_id@[a].id();
        let ghost pa = snap.place@[a];
        let ghost n = snap.order@[cx].len() as int;
        proof {
            use_type_invariant(v);
            self.lemma_lens();
            lemma_walk(
                snap.colors(),
                snap.chain_id@,
                snap.chain_next_v@,
                snap.chain@,
                snap.order@,
                snap.place@,
                a,
            );
            self.lemma_noted_self();
        }
        let color = self.color_at.get(v);
        let player = color_to_player(color);

        // First pass: the stones leave the board.
        let mut current = v;
        let ghost k: int = 0;
        loop
            invariant_except_break
                0 <= k < n,
                0 <= current.id() < 443,
                snap.in_string(current.id(), cx),
                offset_in(snap.place@[current.id()], pa, n) == k,
            invariant
                0 <= a < 443,
                a == v.id(),
                snap.lens_ok(),
                snap.wf_chains(),
                snap.in_string(a, cx),
                snap.colors()[a] == Color::of_player(player),
                pa == snap.place@[a],
                0 <= pa < n,
                n == snap.order@[cx].len(),
                0 <= cx < 443,
                self.wf_geo(),
                self.marked_ok(),
                self.same_except(&snap, true, true, false, true, true, false),
                self.chain_next_v == snap.chain_next_v,
                self.order == snap.order,
                self.place == snap.place,
                self.noted_since(&snap),
                self.spec_stone_count(player) == snap.spec_stone_count(player) - k,
                self.spec_stone_count(player.spec_opponent()) == snap.spec_stone_count(
                    player.spec_opponent(),
                ),
                forall|u: int|
                    0 <= u < 443 ==> #[trigger] color_of(self.colors(), u) == if snap.passed(
                        u,
                        cx,
                        pa,
                        k,
                    ) {
                        Color::Empty
                    } else {
                        snap.colors()[u]
                    },
                forall|u: int|
                    0 <= u < 443 ==> #[trigger] head_of(self.chain_id@, u) == if snap.passed(
                        u,
                        cx,
                        pa,
                        k,
                    ) {
                        u
                    } else {
                        snap.chain_id@[u].id()
                    },
                forall|e: int, d: Dir|
                    0 <= e < 443 && d.spec_is_simple4() ==> #[trigger] flag_of(self.patterns(), e, d)
                        == if snap.passed(e, cx, pa, k) {
                        false
                    } else {
                        flag_of(snap.patterns(), e, d)
                    },
            ensures
                k == n,
            decreases n - k,
        {
            proof {
                reveal(Board::wf_geo);
                reveal(Board::wf_flat);
                reveal(Board::wf_stones);
                reveal(Board::wf_listing);
                reveal(Board::counts_ok);
                reveal(Board::noted_since);
                reveal(Board::marked_ok);
            }
            let ghost cur = current.id();
            let ghost before = *self;
            proof {
                lemma_walk(
                    snap.colors(),
                    snap.chain_id@,
                    snap.chain_next_v@,
                    snap.chain@,
                    snap.order@,
                    snap.place@,
                    cur,
                );
                lemma_walk(
                    snap.colors(),
                    snap.chain_id@,
                    snap.chain_next_v@,
                    snap.chain@,
                    snap.order@,
                    snap.place@,
                    a,
                );
                assert(color_of(self.colors(), cur) == snap.colors()[cur]);
                assert(snap.colors()[cur] == snap.colors()[a]);
            }
            self.remove_stone(player, current);
            current = self.chain_next_v.get(current);
            proof {
                use_type_invariant(current);
                Vertex::lemma_id_eq(current, v);
                snap.lemma_walk_step(a, k, cur);
                lemma_noted_trans(
                    snap.colors(),
                    snap.patterns(),
                    snap.changed(),
                    before.colors(),
                    before.patterns(),
                    before.changed(),
                    self.colors(),
                    self.patterns(),
                    self.changed(),
                );
                assert forall|u: int| 0 <= u < 443 implies #[trigger] color_of(self.colors(), u)
                    == if snap.passed(u, cx, pa, k + 1) {
                    Color::Empty
                } else {
                    snap.colors()[u]
                } by {
                    snap.lemma_passed_step(cx, pa, k, cur, u);
                    assert(color_of(before.colors(), u) == if snap.passed(u, cx, pa, k) {
                        Color::Empty
                    } else {
                        snap.colors()[u]
                    });
                }
                assert forall|u: int| 0 <= u < 443 implies #[trigger] head_of(self.chain_id@, u)
                    == if snap.passed(u, cx, pa, k + 1) {
                    u
                } else {
                    snap.chain_id@[u].id()
                } by {
                    snap.lemma_passed_step(cx, pa, k, cur, u);
                    assert(head_of(before.chain_id@, u) == if snap.passed(u, cx, pa, k) {
                        u
                    } else {
                        snap.chain_id@[u].id()
                    });
                }
                assert forall|e: int, d: Dir|
                    0 <= e < 443 && d.spec_is_simple4() implies #[trigger] flag_of(
                    self.patterns(),
                    e,
                    d,
                ) == if snap.passed(e, cx, pa, k + 1) {
                    false
                } else {
                    flag_of(snap.patterns(), e, d)
                } by {
                    snap.lemma_passed_step(cx, pa, k, cur, e);
                    assert(flag_of(before.patterns(), e, d) == if snap.passed(e, cx, pa, k) {
                        false
                    } else {
                        flag_of(snap.patterns(), e, d)
                    });
                }
                k = k + 1;
            }
            if current == v {
                break;
            }
        }

        // Second pass: the neighbors gain liberties, and the links go.
        let ghost mid = *self;
        let ghost libs = snap.colors();
        proof {
            k = 0;
            self.lemma_noted_self();
            snap.lemma_lens();
            assert forall|u: int| 0 <= u < 443 implies (snap.passed(u, cx, pa, n) <==> snap.in_string(
                u,
                cx,
            )) by {
                snap.lemma_passed_all(cx, pa, u);
            }
            assert forall|u: int| 0 <= u < 443 && !mid.colors()[u].is_player() implies #[trigger] head_of(
                mid.chain_id@,
                u,
            ) == u by {
                assert(color_of(mid.colors(), u) == mid.colors()[u]);
                if !snap.in_string(u, cx) {
                    lemma_idle(
                        snap.colors(),
                        snap.chain_id@,
                        snap.chain_next_v@,
                        snap.chain@,
                        snap.order@,
                        snap.place@,
                        u,
                    );
                }
            }
            assert forall|u: int| 0 <= u < 443 && mid.colors()[u].is_player() implies 0
                <= #[trigger] head_of(mid.chain_id@, u) < 443 && is_head(
                mid.colors(),
                mid.chain_ids(),
                head_of(mid.chain_id@, u),
            ) by {
                assert(color_of(mid.colors(), u) == mid.colors()[u]);
                lemma_walk(
                    snap.colors(),
                    snap.chain_id@,
                    snap.chain_next_v@,
                    snap.chain@,
                    snap.order@,
                    snap.place@,
                    u,
                );
                let c = snap.chain_id@[u].id();
                assert(color_of(mid.colors(), c) == mid.colors()[c]);
                assert(head_of(mid.chain_id@, c) == mid.chain_id@[c].id());
            }
            assert(mid.remains_of(&snap, cx)) by {
                assert forall|u: int| 0 <= u < 443 && (#[trigger] mid.colors()[u]).is_player() implies snap.colors()[u]
                    == mid.colors()[u] && head_of(mid.chain_id@, u) == head_of(snap.chain_id@, u)
                    && !snap.in_string(u, cx) && 0 <= head_of(mid.chain_id@, u) < 443 && is_head(
                    mid.colors(),
                    mid.chain_ids(),
                    head_of(mid.chain_id@, u),
                ) by {
                    assert(color_of(mid.colors(), u) == mid.colors()[u]);
                }
                assert forall|u: int| 0 <= u < 443 && #[trigger] snap.colors()[u] == Color::Empty implies mid.colors()[u]
                    == Color::Empty by {
                    assert(color_of(mid.colors(), u) == mid.colors()[u]);
                }
                assert forall|u: int| 0 <= u < 443 && !(#[trigger] mid.colors()[u]).is_player() implies head_of(
                    mid.chain_id@,
                    u,
                ) == u by {}
            }
            assert forall|e: int, d: Dir|
                0 <= e < 443 && d.spec_is_simple4() implies #[trigger] flag_of(mid.patterns(), e, d)
                == if snap.in_string(e, cx) {
                false
            } else {
                flag_of(snap.patterns(), e, d)
            } by {
                assert(snap.passed(e, cx, pa, n) <==> snap.in_string(e, cx));
            }
            mid.lemma_lowered_start(&snap, cx, dirty@);
            assert(libs_ok(libs, mid.colors(), mid.chain_ids(), mid.chain_records())) by {
                reveal(libs_ok);
                assert forall|h: int| 0 <= h < 443 && is_head(mid.colors(), mid.chain_ids(), h) implies #[trigger] rec_matches(
                    libs,
                    mid.colors(),
                    mid.chain_ids(),
                    mid.chain_records()[h],
                    h,
                ) by {
                    assert(color_of(mid.colors(), h) == mid.colors()[h]);
                    assert(head_of(mid.chain_id@, h) == h);
                    assert(is_head(snap.colors(), snap.chain_ids(), h));
                    assert(rec_matches(
                        libs,
                        snap.colors(),
                        snap.chain_ids(),
                        snap.chain_records()[h],
                        h,
                    ));
                    assert forall|u: int| 0 <= u < 443 implies member(
                        snap.colors(),
                        snap.chain_ids(),
                        u,
                        h,
                    ) == #[trigger] member(mid.colors(), mid.chain_ids(), u, h) by {
                        assert(color_of(mid.colors(), u) == mid.colors()[u]);
                        assert(head_of(mid.chain_id@, u) == mid.chain_id@[u].id());
                    }
                    lemma_rec_same(
                        libs,
                        snap.colors(),
                        snap.chain_ids(),
                        mid.colors(),
                        mid.chain_ids(),
                        snap.chain_records()[h],
                        mid.chain_records()[h],
                        h,
                    );
                }
            }
        }
        current = v;
        loop
            invariant_except_break
                0 <= k < n,
                0 <= current.id() < 443,
                snap.in_string(current.id(), cx),
                offset_in(snap.place@[current.id()], pa, n) == k,
            invariant
                0 <= a < 443,
                a == v.id(),
                snap.lens_ok(),
                snap.wf_chains(),
                snap.wf_geo(),
                snap.in_string(a, cx),
                pa == snap.place@[a],
                0 <= pa < n,
                n == snap.order@[cx].len(),
                0 <= cx < 443,
                self.wf_geo(),
                self.marked_ok(),
                self.same_except(&mid, false, true, true, true, true, false),
                mid.same_except(&snap, true, true, false, true, true, false),
                self.chain_id == mid.chain_id,
                self.order == snap.order,
                self.place == snap.place,
                self.noted_since(&mid),
                mid.spec_stone_count(player) == snap.spec_stone_count(player) - n,
                mid.spec_stone_count(player.spec_opponent()) == snap.spec_stone_count(
                    player.spec_opponent(),
                ),
                libs.len() == 443,
                libs_ok(libs, self.colors(), self.chain_ids(), self.chain_records()),
                self.lowered(&snap, cx, dirty@),
                mid.remains_of(&snap, cx),
                atari_ok(
                    snap.colors(),
                    snap.chain_ids(),
                    snap.chain_records(),
                    snap.patterns(),
                    dirty@,
                ),
                alive_but(snap.colors(), snap.chain_ids(), snap.chain_records(), dirty@),
                snap.wf_libs(),
                forall|u: int|
                    0 <= u < 443 ==> #[trigger] color_of(libs, u) == if snap.passed(u, cx, pa, k) {
                        Color::Empty
                    } else {
                        snap.colors()[u]
                    },
                forall|u: int|
                    0 <= u < 443 && !mid.colors()[u].is_player() ==> #[trigger] head_of(
                        mid.chain_id@,
                        u,
                    ) == u,
                forall|u: int|
                    0 <= u < 443 && mid.colors()[u].is_player() ==> 0 <= #[trigger] head_of(
                        mid.chain_id@,
                        u,
                    ) < 443 && is_head(mid.colors(), mid.chain_ids(), head_of(mid.chain_id@, u)),
                forall|j: int| 0 <= j < 443 ==> (#[trigger] self.chain@[j]).size == snap.chain@[j].size,
                forall|u: int|
                    0 <= u < 443 ==> #[trigger] next_of(self.chain_next_v@, u) == if snap.passed(
                        u,
                        cx,
                        pa,
                        k,
                    ) {
                        u
                    } else {
                        snap.chain_next_v@[u].id()
                    },
            ensures
                k == n,
            decreases n - k,
        {
            proof {
                reveal(Board::wf_geo);
                reveal(Board::wf_flat);
                reveal(Board::wf_stones);
                reveal(Board::wf_listing);
                reveal(Board::counts_ok);
                reveal(Board::noted_since);
                reveal(Board::marked_ok);
            }
            let ghost cur = current.id();
            let ghost before = *self;
            proof {
                lemma_walk(
                    snap.colors(),
                    snap.chain_id@,
                    snap.chain_next_v@,
                    snap.chain@,
                    snap.order@,
                    snap.place@,
                    cur,
                );
                lemma_on_board(snap.colors(), snap.width(), snap.height(), cur);
                assert(next_of(self.chain_next_v@, cur) == snap.chain_next_v@[cur].id());
                assert(color_of(libs, cur) == snap.colors()[cur]);
            }
            let ghost libs_before = libs;
            self.free_liberties(current, Ghost(libs), Ghost(snap), Ghost(cx), dirty);
            let ghost freed = *self;
            let next = self.chain_next_v.get(current);
            self.chain_next_v.set(current, current);
            current = next;
            proof {
                assert(self.lowered(&snap, cx, dirty@)) by {
                    reveal(Board::lowered);
                    assert forall|c: int|
                        0 <= c < 443 && is_head(self.colors(), self.chain_ids(), c) implies #[trigger] self.lowered_for(
                        &snap,
                        dirty@,
                        c,
                    ) by {
                        assert(freed.lowered_for(&snap, dirty@, c));
                    }
                }
                libs = libs_before.update(cur, Color::Empty);
                assert forall|u: int| 0 <= u < 443 implies #[trigger] color_of(libs, u)
                    == if snap.passed(u, cx, pa, k + 1) {
                    Color::Empty
                } else {
                    snap.colors()[u]
                } by {
                    snap.lemma_passed_step(cx, pa, k, cur, u);
                    assert(color_of(libs_before, u) == if snap.passed(u, cx, pa, k) {
                        Color::Empty
                    } else {
                        snap.colors()[u]
                    });
                }
                assert(self.plays_ok()) by {
                    reveal(Board::plays_ok);
                }
                use_type_invariant(current);
                Vertex::lemma_id_eq(current, v);
                snap.lemma_walk_step(a, k, cur);
                lemma_noted_trans(
                    mid.colors(),
                    mid.patterns(),
                    mid.changed(),
                    before.colors(),
                    before.patterns(),
                    before.changed(),
                    self.colors(),
                    self.patterns(),
                    self.changed(),
                );
                assert forall|u: int| 0 <= u < 443 implies #[trigger] next_of(
                    self.chain_next_v@,
                    u,
                ) == if snap.passed(u, cx, pa, k + 1) {
                    u
                } else {
                    snap.chain_next_v@[u].id()
                } by {
                    snap.lemma_passed_step(cx, pa, k, cur, u);
                    assert(next_of(before.chain_next_v@, u) == if snap.passed(u, cx, pa, k) {
                        u
                    } else {
                        snap.chain_next_v@[u].id()
                    });
                }
                k = k + 1;
            }
            if current == v {
                break;
            }
        }
        proof {
            lemma_noted_trans(
                snap.colors(),
                snap.patterns(),
                snap.changed(),
                mid.colors(),
                mid.patterns(),
                mid.changed(),
                self.colors(),
                self.patterns(),
                self.changed(),
            );
            assert forall|u: int| 0 <= u < 443 implies (snap.passed(u, cx, pa, n) <==> snap.in_string(
                u,
                cx,
            )) by {
                snap.lemma_passed_all(cx, pa, u);
            }
            assert forall|u: int| 0 <= u < 443 implies #[trigger] self.colors()[u]
                == if snap.colors()[u].is_player() && snap.chain_id@[u].id() == cx {
                Color::Empty
            } else {
                snap.colors()[u]
            } by {
                assert(color_of(mid.colors(), u) == mid.colors()[u]);
                assert(snap.passed(u, cx, pa, n) <==> snap.in_string(u, cx));
            }
            assert forall|u: int| 0 <= u < 443 implies (#[trigger] self.chain_id@[u]).id()
                == if snap.colors()[u].is_player() && snap.chain_id@[u].id() == cx {
                u
            } else {
                snap.chain_id@[u].id()
            } by {
                assert(head_of(mid.chain_id@, u) == mid.chain_id@[u].id());
                assert(snap.passed(u, cx, pa, n) <==> snap.in_string(u, cx));
            }
            assert forall|u: int| 0 <= u < 443 implies (#[trigger] self.chain_next_v@[u]).id()
                == if snap.colors()[u].is_player() && snap.chain_id@[u].id() == cx {
                u
            } else {
                snap.chain_next_v@[u].id()
            } by {
                assert(next_of(self.chain_next_v@, u) == self.chain_next_v@[u].id());
                assert(snap.passed(u, cx, pa, n) <==> snap.in_string(u, cx));
            }
            lemma_chains_remove(
                snap.colors(),
                snap.chain_id@,
                snap.chain_next_v@,
                snap.chain@,
                snap.order@,
                snap.place@,
                cx,
                self.colors(),
                self.chain_id@,
                self.chain_next_v@,
                self.chain@,
            );
            assert forall|u: int| 0 <= u < 443 implies #[trigger] color_of(self.colors(), u)
                == if snap.in_string(u, cx) {
                Color::Empty
            } else {
                snap.colors()[u]
            } by {
                assert(self.colors()[u] == if snap.colors()[u].is_player() && snap.chain_id@[u].id()
                    == cx {
                    Color::Empty
                } else {
                    snap.colors()[u]
                });
            }
            assert forall|u: int| 0 <= u < 443 implies #[trigger] head_of(self.chain_id@, u)
                == if snap.in_string(u, cx) {
                u
            } else {
                snap.chain_id@[u].id()
            } by {
                assert((#[trigger] self.chain_id@[u]).id() == if snap.colors()[u].is_player()
                    && snap.chain_id@[u].id() == cx {
                    u
                } else {
                    snap.chain_id@[u].id()
                });
            }
            assert(coarser(snap.colors(), snap.chain_ids(), self.colors(), self.chain_ids())) by {
                reveal(coarser);
                assert forall|u: int| 0 <= u < 443 && (#[trigger] self.colors()[u]).is_player() implies snap.colors()[u]
                    == self.colors()[u] by {
                    assert(color_of(self.colors(), u) == self.colors()[u]);
                }
                assert forall|u: int, w: int|
                    0 <= u < 443 && 0 <= w < 443 && self.colors()[u].is_player()
                        && self.colors()[w].is_player() && #[trigger] same_head(
                        snap.chain_ids(),
                        u,
                        w,
                    ) implies same_head(self.chain_ids(), u, w) by {
                    assert(color_of(self.colors(), u) == self.colors()[u]);
                    assert(color_of(self.colors(), w) == self.colors()[w]);
                    assert(head_of(self.chain_id@, u) == self.chain_id@[u].id());
                    assert(head_of(self.chain_id@, w) == self.chain_id@[w].id());
                }
            }
            assert(libs =~= self.colors()) by {
                assert forall|u: int| 0 <= u < 443 implies libs[u] == self.colors()[u] by {
                    assert(color_of(libs, u) == libs[u]);
                    assert(color_of(self.colors(), u) == self.colors()[u]);
                    assert(snap.passed(u, cx, pa, n) <==> snap.in_string(u, cx));
                }
            }
        }
    }

    /// Whether the colors of `self` come of those of `o` by captures of
    /// stones of the opponent of `player` alone, the stone of `player` on `v`
    /// staying.
    #[verifier::opaque]
    pub open(crate) spec fn captured_from(&self, o: &Board, player: Player, v: int) -> bool {
        &&& self.colors()[v] == Color::of_player(player)
        &&& forall|u: int|
            0 <= u < 443 && u != v ==> #[trigger] color_of(self.colors(), u) == o.colors()[u] || (
            o.colors()[u] == Color::of_player(player.spec_opponent()) && self.colors()[u]
                == Color::Empty)
    }

    /// Every vertex that is empty now, and was not before the move or has
    /// another fingerprint than before the move, is on the list of changed
    /// vertices.
    #[verifier::opaque]
    pub open(crate) spec fn changes_listed(&self, o: &Board) -> bool {
        forall|i: int|
            0 <= i < 443 && self.colors()[i] == Color::Empty && (self.patterns()[i]
                != o.patterns()[i] || o.colors()[i] != Color::Empty) ==> #[trigger] in_list(
                self.changed(),
                i,
            )
    }

    /// What a step of a move keeps and yields: the invariants, the notes
    /// since `o`, and colors that come of those of `o` by captures.
    #[verifier::opaque]
    pub open(crate) spec fn settled(&self, o: &Board, player: Player, v: int) -> bool {
        &&& self.same_except(o, true, true, true, true, true, false)
        &&& self.wf_geo()
        &&& self.wf_chains()
        &&& self.wf_libs()
        &&& self.marked_ok()
        &&& self.noted_since(o)
        &&& self.captured_from(o, player, v)
        &&& coarser(o.colors(), o.chain_ids(), self.colors(), self.chain_ids())
        &&& joined_ok(self.colors(), self.chain_ids(), v)
    }

    /// Steps compose.
    pub(crate) proof fn lemma_settled_trans(&self, m: &Board, o: &Board, player: Player, v: int)
        requires
            m.settled(o, player, v),
            self.settled(m, player, v),
        ensures
            self.settled(o, player, v),
    {
        reveal(Board::settled);
        reveal(Board::noted_since);
        reveal(Board::captured_from);
        lemma_coarser_trans(
            o.colors(),
            o.chain_ids(),
            m.colors(),
            m.chain_ids(),
            self.colors(),
            self.chain_ids(),
        );
        lemma_noted_trans(
            o.colors(),
            o.patterns(),
            o.changed(),
            m.colors(),
            m.patterns(),
            m.changed(),
            self.colors(),
            self.patterns(),
            self.changed(),
        );
        assert forall|u: int| 0 <= u < 443 && u != v implies #[trigger] color_of(
            self.colors(),
            u,
        ) == o.colors()[u] || (o.colors()[u] == Color::of_player(player.spec_opponent())
            && self.colors()[u] == Color::Empty) by {
            assert(color_of(m.colors(), u) == o.colors()[u] || (o.colors()[u] == Color::of_player(
                player.spec_opponent(),
            ) && m.colors()[u] == Color::Empty));
        }
    }

    /// What `settled` says.
    pub(crate) proof fn lemma_settled(&self, o: &Board, player: Player, v: int)
        requires
            self.settled(o, player, v),
        ensures
            self.same_except(o, true, true, true, true, true, false),
            self.wf_geo(),
            self.wf_chains(),
            self.wf_libs(),
            self.marked_ok(),
            self.noted_since(o),
            self.captured_from(o, player, v),
            coarser(o.colors(), o.chain_ids(), self.colors(), self.chain_ids()),
            joined_ok(self.colors(), self.chain_ids(), v),
            self.colors()[v] == Color::of_player(player),
            forall|u: int|
                0 <= u < 443 && u != v && o.colors()[u] == Color::Empty ==> #[trigger] color_of(
                    self.colors(),
                    u,
                ) == Color::Empty,
    {
        reveal(Board::settled);
        reveal(Board::captured_from);
    }

    /// A step that leaves the stones, the fingerprints and the list alone.
    pub(crate) proof fn lemma_settled_links(&self, o: &Board, player: Player, v: int)
        requires
            o.wf_geo(),
            o.marked_ok(),
            self.wf_chains(),
            self.wf_libs(),
            self.same_except(o, false, true, true, false, false, false),
            0 <= v < 443,
            o.colors()[v] == Color::of_player(player),
            coarser(o.colors(), o.chain_ids(), self.colors(), self.chain_ids()),
            joined_ok(o.colors(), o.chain_ids(), v),
        ensures
            self.settled(o, player, v),
    {
        reveal(Board::settled);
        reveal(Board::wf_geo);
        reveal(Board::wf_flat);
        reveal(Board::wf_stones);
        reveal(Board::wf_listing);
        reveal(Board::counts_ok);
        reveal(Board::noted_since);
        reveal(Board::marked_ok);
        reveal(Board::captured_from);
        reveal(Board::plays_ok);
        self.lemma_lens();
        lemma_joined_coarser(o.colors(), o.chain_ids(), self.colors(), self.chain_ids(), v);
    }

    /// Whether the neighbor `nbr` of a new stone of `player` belongs to a
    /// string of the opponent without liberties.
    pub open(crate) spec fn to_capture(&self, player: Player, nbr: int) -> bool {
        self.colors()[nbr] == Color::of_player(player.spec_opponent()) && self.chain@[head_of(
            self.chain_id@,
            nbr,
        )].lib_cnt == 0
    }

    /// What meeting the neighbor `nbr` made of the state `a`: a string to
    /// capture has left the board; the stones of the opponent that remain
    /// have their heads, and, if nothing was captured, their liberty counts.
    #[verifier::opaque]
    pub open(crate) spec fn stepped(&self, a: &Board, player: Player, nbr: int) -> bool {
        let enemy = Color::of_player(player.spec_opponent());
        let c = head_of(a.chain_id@, nbr);
        &&& forall|u: int|
            0 <= u < 443 ==> #[trigger] color_of(self.colors(), u) == if a.to_capture(player, nbr)
                && a.in_string(u, c) {
                Color::Empty
            } else {
                a.colors()[u]
            }
        &&& forall|u: int|
            0 <= u < 443 && self.colors()[u] == enemy ==> #[trigger] head_of(self.chain_id@, u)
                == head_of(a.chain_id@, u)
        &&& (!a.to_capture(player, nbr) ==> forall|h: int|
            0 <= h < 443 && self.colors()[h] == enemy ==> (#[trigger] self.chain@[h]).lib_cnt
                == a.chain@[h].lib_cnt)
    }

    /// Whether the string with the head `c` touches one of the first `d`
    /// neighbors of `v`.
    pub open(crate) spec fn touches_upto(&self, c: int, v: int, d: int) -> bool {
        ||| (d >= 1 && self.in_string(v - 21, c))
        ||| (d >= 2 && self.in_string(v - 1, c))
        ||| (d >= 3 && self.in_string(v + 1, c))
        ||| (d >= 4 && self.in_string(v + 21, c))
    }

    /// Whether the stone on `u` belongs to a string of the opponent of
    /// `player` that has no liberty and touches one of the first `d`
    /// neighbors of `v`.
    pub open(crate) spec fn doomed_upto(&self, player: Player, v: int, d: int, u: int) -> bool {
        &&& self.colors()[u] == Color::of_player(player.spec_opponent())
        &&& self.chain@[head_of(self.chain_id@, u)].lib_cnt == 0
        &&& self.touches_upto(head_of(self.chain_id@, u), v, d)
    }

    /// The state after the first `d` neighbors of the new stone on `v` were
    /// met, in terms of the state `s2` in which the stone was placed: the
    /// doomed strings are off the board, and the other stones of the
    /// opponent have their heads and liberty counts.
    #[verifier::opaque]
    pub open(crate) spec fn captures_done(&self, s2: &Board, player: Player, v: int, d: int) -> bool {
        let enemy = Color::of_player(player.spec_opponent());
        &&& forall|u: int|
            0 <= u < 443 ==> #[trigger] color_of(self.colors(), u) == if s2.doomed_upto(
                player,
                v,
                d,
                u,
            ) {
                Color::Empty
            } else {
                s2.colors()[u]
            }
        &&& forall|u: int|
            0 <= u < 443 && self.colors()[u] == enemy ==> #[trigger] head_of(self.chain_id@, u)
                == head_of(s2.chain_id@, u) && self.chain@[head_of(s2.chain_id@, u)].lib_cnt
                == s2.chain@[head_of(s2.chain_id@, u)].lib_cnt
    }

    /// A stone of the opponent that stands during the move stood when the new
    /// stone was placed.
    pub(crate) proof fn lemma_alive_color(&self, s2: &Board, player: Player, v: int, d: int, k: int)
        requires
            self.captures_done(s2, player, v, d),
            0 <= k < 443,
            self.colors()[k] == Color::of_player(player.spec_opponent()),
        ensures
            s2.colors()[k] == Color::of_player(player.spec_opponent()),
    {
        reveal(Board::captures_done);
        assert(color_of(self.colors(), k) == self.colors()[k]);
    }

    /// Nothing is captured before the first neighbor is met.
    pub(crate) proof fn lemma_captures_start(&self, player: Player, v: int)
        ensures
            self.captures_done(self, player, v, 0),
    {
        reveal(Board::captures_done);
    }

    /// The liberty count of a string of the opponent stays when another
    /// string is captured.
    pub(crate) proof fn lemma_far_record(&self, a: &Board, player: Player, v: int, h: int, c: int)
        requires
            a.wf_geo(),
            a.wf_chains(),
            a.wf_libs(),
            self.wf_libs(),
            joined_ok(a.colors(), a.chain_ids(), v),
            a.colors()[v] == Color::of_player(player),
            0 <= h < 443,
            0 <= c < 443,
            h != c,
            a.colors()[h] == Color::of_player(player.spec_opponent()),
            head_of(a.chain_id@, h) == h,
            head_of(self.chain_id@, h) == h,
            self.colors()[h] == a.colors()[h],
            forall|u: int|
                0 <= u < 443 ==> #[trigger] color_of(self.colors(), u) == if a.in_string(u, c) {
                    Color::Empty
                } else {
                    a.colors()[u]
                },
            forall|u: int|
                0 <= u < 443 && a.in_string(u, c) ==> a.colors()[u] == Color::of_player(
                    player.spec_opponent(),
                ),
            forall|u: int|
                0 <= u < 443 && self.colors()[u] == Color::of_player(player.spec_opponent())
                    ==> #[trigger] head_of(self.chain_id@, u) == head_of(a.chain_id@, u),
            self.wf_chains(),
        ensures
            self.chain@[h].lib_cnt == a.chain@[h].lib_cnt,
    {
        reveal(libs_ok);
        reveal(Board::wf_geo);
        reveal(Board::wf_flat);
        a.lemma_stones_inside();
        a.lemma_lens();
        let enemy = Color::of_player(player.spec_opponent());
        assert(is_head(a.colors(), a.chain_ids(), h));
        assert(is_head(self.colors(), self.chain_ids(), h));
        assert(rec_matches(a.colors(), a.colors(), a.chain_ids(), a.chain@[h], h));
        assert(rec_matches(self.colors(), self.colors(), self.chain_ids(), self.chain@[h], h));
        assert forall|u: int| 0 <= u < 443 implies member(a.colors(), a.chain_ids(), u, h)
            == #[trigger] member(self.colors(), self.chain_ids(), u, h) by {
            assert(color_of(self.colors(), u) == self.colors()[u]);
            if a.colors()[u].is_player() {
                lemma_walk(
                    a.colors(),
                    a.chain_id@,
                    a.chain_next_v@,
                    a.chain@,
                    a.order@,
                    a.place@,
                    u,
                );
            }
            if self.colors()[u].is_player() {
                lemma_walk(
                    self.colors(),
                    self.chain_id@,
                    self.chain_next_v@,
                    self.chain@,
                    self.order@,
                    self.place@,
                    u,
                );
            }
            if self.colors()[u] == enemy {
                assert(head_of(self.chain_id@, u) == self.chain_id@[u].id());
            }
        }
        lemma_libs_same(
            self.colors(),
            a.colors(),
            a.chain_ids(),
            self.colors(),
            self.chain_ids(),
            h,
            443,
            0,
        );
        assert forall|u: int|
            0 <= u < 443 && #[trigger] member(a.colors(), a.chain_ids(), u, h) implies (a.colors()[u
                - 21] == Color::Empty) == (self.colors()[u - 21] == Color::Empty) && (a.colors()[u
                - 1] == Color::Empty) == (self.colors()[u - 1] == Color::Empty) && (a.colors()[u
                + 1] == Color::Empty) == (self.colors()[u + 1] == Color::Empty) && (a.colors()[u
                + 21] == Color::Empty) == (self.colors()[u + 21] == Color::Empty) by {
            lemma_walk(
                a.colors(),
                a.chain_id@,
                a.chain_next_v@,
                a.chain@,
                a.order@,
                a.place@,
                u,
            );
            assert(a.colors()[u] == enemy);
            assert(u != v);
            a.lemma_not_touching(player, v, u, u - 21, c);
            a.lemma_not_touching(player, v, u, u - 1, c);
            a.lemma_not_touching(player, v, u, u + 1, c);
            a.lemma_not_touching(player, v, u, u + 21, c);
            assert(color_of(self.colors(), u - 21) == self.colors()[u - 21]);
            assert(color_of(self.colors(), u - 1) == self.colors()[u - 1]);
            assert(color_of(self.colors(), u + 1) == self.colors()[u + 1]);
            assert(color_of(self.colors(), u + 21) == self.colors()[u + 21]);
        }
        lemma_libs_far(a.colors(), self.colors(), a.colors(), a.chain_ids(), h, 443, 0);
    }

    /// A stone of the opponent does not touch a stone of another string of
    /// the opponent.
    pub(crate) proof fn lemma_not_touching(&self, player: Player, v: int, u: int, e: int, c: int)
        requires
            joined_ok(self.colors(), self.chain_ids(), v),
            self.colors()[v] == Color::of_player(player),
            22 <= u <= 418,
            e == u - 21 || e == u - 1 || e == u + 1 || e == u + 21,
            self.colors()[u] == Color::of_player(player.spec_opponent()),
            head_of(self.chain_id@, u) != c,
            self.in_string(e, c) ==> self.colors()[e] == Color::of_player(player.spec_opponent()),
        ensures
            !self.in_string(e, c),
    {
        if self.in_string(e, c) {
            crate::joined::lemma_joined(self.colors(), self.chain_ids(), v, u, e);
        }
    }

    /// One more neighbor of the new stone on `v` is met.
    #[verifier::spinoff_prover]
    pub(crate) proof fn lemma_capture_step(
        &self,
        a: &Board,
        s2: &Board,
        player: Player,
        v: int,
        d: int,
        nbr: int,
    )
        requires
            22 <= v <= 418,
            0 <= d < 4,
            nbr == if d == 0 {
                v - 21
            } else if d == 1 {
                v - 1
            } else if d == 2 {
                v + 1
            } else {
                v + 21
            },
            a.captures_done(s2, player, v, d),
            self.stepped(a, player, nbr),
            a.wf_geo(),
            a.wf_chains(),
            a.wf_libs(),
            self.wf_libs(),
            self.wf_chains(),
            s2.wf_chains(),
            joined_ok(a.colors(), a.chain_ids(), v),
            a.colors()[v] == Color::of_player(player),
            s2.colors()[v] == Color::of_player(player),
        ensures
            self.captures_done(s2, player, v, d + 1),
    {
        reveal(Board::captures_done);
        reveal(Board::stepped);
        let enemy = Color::of_player(player.spec_opponent());
        let c = head_of(a.chain_id@, nbr);
        let kill = a.to_capture(player, nbr);
        a.lemma_lens();
        if kill {
            lemma_walk(
                a.colors(),
                a.chain_id@,
                a.chain_next_v@,
                a.chain@,
                a.order@,
                a.place@,
                nbr,
            );
            assert(color_of(a.colors(), nbr) == a.colors()[nbr]);
            assert(head_of(a.chain_id@, nbr) == head_of(s2.chain_id@, nbr));
            assert(s2.colors()[nbr] == enemy);
            assert forall|u: int| 0 <= u < 443 && a.in_string(u, c) implies a.colors()[u]
                == enemy && s2.colors()[u] == enemy && head_of(s2.chain_id@, u) == c by {
                lemma_walk(
                    a.colors(),
                    a.chain_id@,
                    a.chain_next_v@,
                    a.chain@,
                    a.order@,
                    a.place@,
                    u,
                );
                assert(color_of(a.colors(), u) == a.colors()[u]);
                assert(head_of(a.chain_id@, u) == head_of(s2.chain_id@, u));
            }
        }
        assert forall|u: int| 0 <= u < 443 implies #[trigger] color_of(self.colors(), u)
            == if s2.doomed_upto(player, v, d + 1, u) {
            Color::Empty
        } else {
            s2.colors()[u]
        } by {
            assert(color_of(a.colors(), u) == if s2.doomed_upto(player, v, d, u) {
                Color::Empty
            } else {
                s2.colors()[u]
            });
            assert(color_of(a.colors(), nbr) == a.colors()[nbr]);
            if kill && a.in_string(u, c) {
            } else {
                if !s2.doomed_upto(player, v, d, u) && s2.doomed_upto(player, v, d + 1, u) {
                    // The string of `u` has no liberty and touches `nbr`,
                    // which is alive: then it is the string to capture.
                    assert(s2.in_string(nbr, head_of(s2.chain_id@, u)));
                    assert(s2.colors()[nbr].is_player());
                    assert(color_of(a.colors(), u) == s2.colors()[u]);
                    if a.colors()[nbr] == enemy {
                        assert(head_of(a.chain_id@, nbr) == head_of(s2.chain_id@, nbr));
                        assert(head_of(a.chain_id@, u) == head_of(s2.chain_id@, u));
                        assert(kill);
                        assert(a.in_string(u, c));
                    } else {
                        // The neighbor was captured before: so was `u`.
                        lemma_walk(
                            s2.colors(),
                            s2.chain_id@,
                            s2.chain_next_v@,
                            s2.chain@,
                            s2.order@,
                            s2.place@,
                            u,
                        );
                        lemma_walk(
                            s2.colors(),
                            s2.chain_id@,
                            s2.chain_next_v@,
                            s2.chain@,
                            s2.order@,
                            s2.place@,
                            nbr,
                        );
                        assert(s2.colors()[nbr] == enemy);
                        assert(s2.doomed_upto(player, v, d, nbr));
                        assert(false);
                    }
                }
            }
        }
        assert forall|u: int| 0 <= u < 443 && self.colors()[u] == enemy implies #[trigger] head_of(
            self.chain_id@,
            u,
        ) == head_of(s2.chain_id@, u) && self.chain@[head_of(s2.chain_id@, u)].lib_cnt
            == s2.chain@[head_of(s2.chain_id@, u)].lib_cnt by {
            assert(color_of(self.colors(), u) == self.colors()[u]);
            assert(a.colors()[u] == enemy);
            assert(head_of(a.chain_id@, u) == head_of(s2.chain_id@, u));
            let h = head_of(a.chain_id@, u);
            lemma_walk(
                a.colors(),
                a.chain_id@,
                a.chain_next_v@,
                a.chain@,
                a.order@,
                a.place@,
                u,
            );
            assert(a.chain_id@[h].id() == h);
            assert(head_of(a.chain_id@, h) == h);
            assert(a.colors()[h] == enemy);
            assert(color_of(self.colors(), h) == self.colors()[h]);
            if kill {
                assert(!a.in_string(u, c));
                assert(h != c);
                assert(!a.in_string(h, c));
                assert(self.colors()[h] == enemy);
                assert(head_of(self.chain_id@, h) == h);
                self.lemma_far_record(a, player, v, h, c);
            } else {
                assert(self.colors()[h] == enemy);
                assert(self.chain@[h].lib_cnt == a.chain@[h].lib_cnt);
            }
            assert(head_of(a.chain_id@, h) == head_of(s2.chain_id@, h));
        }
    }

    /// Captures the string of the neighbor `nbr_v` of the stone of `player`
    /// on `v`, a string of the opponent; `nbr_v` is the neighbor number `d`.
    fn capture_neighbor(&mut self, player: Player, v: Vertex, nbr_v: Vertex, d: Ghost<int>)
        requires
            0 <= d@ < 4,
            nbr_v.id() == Self::nbr_of(v.id(), d@),
            old(self).flagged(v.id(), d@),
            old(self).wf_geo(),
            old(self).wf_chains(),
            old(self).wf_libs(),
            joined_ok(old(self).colors(), old(self).chain_ids(), v.id()),
            old(self).marked_ok(),
            old(self).colors()[v.id()] == Color::of_player(player),
            old(self).colors()[nbr_v.id()] == Color::of_player(player.spec_opponent()),
            old(self).to_capture(player, nbr_v.id()),
        ensures
            final(self).settled(old(self), player, v.id()),
            final(self).colors()[nbr_v.id()] == Color::Empty,
            final(self).stepped(old(self), player, nbr_v.id()),
            final(self).spec_stone_count(player.spec_opponent()) == old(self).spec_stone_count(
                player.spec_opponent(),
            ) - old(self).string_size(nbr_v.id()),
            final(self).flagged(v.id(), d@ + 1),
    {
        proof {
            reveal(Board::settled);
            reveal(Board::captured_from);
            reveal(Board::stepped);
            use_type_invariant(v);
            use_type_invariant(nbr_v);
            assert(atari_ok(
                self.colors(),
                self.chain_ids(),
                self.chain_records(),
                self.patterns(),
                self.dirty(v.id(), d@),
            ) && alive_but(
                self.colors(),
                self.chain_ids(),
                self.chain_records(),
                self.dirty(v.id(), d@),
            )) by {
                reveal(Board::flagged);
            }
            self.lemma_on_board_of(v.id());
            lemma_walk(
                self.colors(),
                self.chain_id@,
                self.chain_next_v@,
                self.chain@,
                self.order@,
                self.place@,
                nbr_v.id(),
            );
            lemma_walk(
                self.colors(),
                self.chain_id@,
                self.chain_next_v@,
                self.chain@,
                self.order@,
                self.place@,
                v.id(),
            );
        }
        let ghost snap = *self;
        let ghost cx = snap.chain_id@[nbr_v.id()].id();
        self.remove_chain(nbr_v, Ghost(snap.dirty(v.id(), d@)));
        proof {
            self.lemma_flags_captured(&snap, player, v.id(), d@);
            lemma_joined_coarser(
                snap.colors(),
                snap.chain_ids(),
                self.colors(),
                self.chain_ids(),
                v.id(),
            );
            assert(color_of(self.colors(), nbr_v.id()) == Color::Empty);
            assert(color_of(self.colors(), v.id()) == snap.colors()[v.id()]);
            assert(cx == head_of(snap.chain_id@, nbr_v.id()));
            assert forall|u: int|
                0 <= u < 443 && self.colors()[u] == Color::of_player(
                    player.spec_opponent(),
                ) implies #[trigger] head_of(self.chain_id@, u) == head_of(snap.chain_id@, u) by {
                assert(color_of(self.colors(), u) == self.colors()[u]);
            }
            assert forall|u: int| 0 <= u < 443 && u != v.id() implies #[trigger] color_of(
                self.colors(),
                u,
            ) == snap.colors()[u] || (snap.colors()[u] == Color::of_player(
                player.spec_opponent(),
            ) && self.colors()[u] == Color::Empty) by {
                if snap.in_string(u, cx) {
                    lemma_walk(
                        snap.colors(),
                        snap.chain_id@,
                        snap.chain_next_v@,
                        snap.chain@,
                        snap.order@,
                        snap.place@,
                        u,
                    );
                }
            }
        }
    }

    /// Checks the string of the neighbor `nbr_v` of the stone of `player`
    /// on `v` for atari.
    fn atari_neighbor(&mut self, player: Player, v: Vertex, nbr_v: Vertex)
        requires
            old(self).wf_geo(),
            old(self).wf_chains(),
            old(self).wf_libs(),
            joined_ok(old(self).colors(), old(self).chain_ids(), v.id()),
            old(self).marked_ok(),
            old(self).colors()[v.id()] == Color::of_player(player),
            old(self).colors()[nbr_v.id()].is_player() ==> old(self).chain@[head_of(
                old(self).chain_id@,
                nbr_v.id(),
            )].lib_cnt != 0,
        ensures
            final(self).settled(old(self), player, v.id()),
            final(self).stepped(old(self), player, nbr_v.id()),
            final(self).same_except(old(self), false, false, true, true, true, false),
            forall|k: int|
                0 <= k < 443 ==> same_moments(#[trigger] final(self).chain@[k], old(self).chain@[k]),
            if old(self).atari_found(nbr_v.id()) {
                old(self).flags_set_at(
                    final(self),
                    old(self).atari_point(nbr_v.id()),
                    old(self).chain_id@[nbr_v.id()],
                    true,
                )
            } else {
                final(self).hash3x3 == old(self).hash3x3
            },
    {
        let ghost snap = *self;
        let ghost head = self.chain_id@[nbr_v.id()].id();
        let ghost liberties = chain_lib_list(
            self.colors(),
            self.colors(),
            self.chain_ids(),
            head,
            443,
        );
        proof {
            use_type_invariant(v);
            use_type_invariant(nbr_v);
            if self.colors()[nbr_v.id()].is_player() {
                reveal(Board::wf_geo);
                reveal(Board::wf_flat);
                reveal(libs_ok);
                self.lemma_stones_inside();
                lemma_walk(
                    self.colors(),
                    self.chain_id@,
                    self.chain_next_v@,
                    self.chain@,
                    self.order@,
                    self.place@,
                    nbr_v.id(),
                );
                assert(is_head(self.colors(), self.chain_ids(), head));
                assert(rec_matches(
                    self.colors(),
                    self.colors(),
                    self.chain_ids(),
                    self.chain@[head],
                    head,
                ));
                lemma_witness(
                    self.colors(),
                    self.colors(),
                    self.chain_ids(),
                    self.chain@[head],
                    head,
                );
            }
        }
        self.maybe_in_atari(nbr_v, Ghost(liberties));
        proof {
            reveal(Board::settled);
            reveal(Board::captured_from);
            assert forall|k: int| 0 <= k < 443 implies (#[trigger] self.chain@[k]).size
                == snap.chain@[k].size by {
                assert(same_moments(self.chain@[k], snap.chain@[k]));
            }
            self.lemma_lens();
            lemma_chains_sizes(
                snap.colors(),
                snap.chain_id@,
                snap.chain_next_v@,
                snap.chain@,
                self.chain@,
                snap.order@,
                snap.place@,
            );
            self.lemma_libs_moments(&snap, snap.colors());
            lemma_coarser_refl(self.colors(), self.chain_ids());
            assert(self.stepped(&snap, player, nbr_v.id())) by {
                reveal(Board::stepped);
                assert forall|h: int|
                    0 <= h < 443 && self.colors()[h] == Color::of_player(
                        player.spec_opponent(),
                    ) implies (#[trigger] self.chain@[h]).lib_cnt == snap.chain@[h].lib_cnt by {
                    assert(same_moments(self.chain@[h], snap.chain@[h]));
                }
            }
        }
    }

    /// Joins the string of the neighbor `nbr_v` with that of the stone of
    /// `player` on `v`, both of `player`: the smaller one goes into the
    /// larger one, and the string of `v` into that of `nbr_v` on a tie;
    /// `nbr_v` is the neighbor number `d`.
    fn join_neighbor(&mut self, player: Player, v: Vertex, nbr_v: Vertex, d: Ghost<int>)
        requires
            0 <= d@ < 4,
            nbr_v.id() == Self::nbr_of(v.id(), d@),
            old(self).met(player, v.id(), d@),
            old(self).wf_geo(),
            old(self).wf_chains(),
            old(self).wf_libs(),
            joined_ok(old(self).colors(), old(self).chain_ids(), v.id()),
            old(self).marked_ok(),
            old(self).colors()[v.id()] == Color::of_player(player),
            old(self).colors()[nbr_v.id()] == Color::of_player(player),
        ensures
            final(self).settled(old(self), player, v.id()),
            same_head(final(self).chain_ids(), nbr_v.id(), v.id()),
            final(self).stepped(old(self), player, nbr_v.id()),
            final(self).same_except(old(self), false, true, true, false, false, false),
            final(self).flagged(v.id(), d@ + 1),
    {
        let ghost snap = *self;
        proof {
            use_type_invariant(v);
            use_type_invariant(nbr_v);
            self.lemma_lens();
            lemma_coarser_refl(self.colors(), self.chain_ids());
            self.lemma_on_board_of(v.id());
            self.lemma_met(player, v.id(), d@);
        }
        proof {
            reveal(Board::wf_geo);
            reveal(Board::wf_flat);
            self.lemma_stones_inside();
        }
        let nbr_chain_id = self.chain_id.get(nbr_v);
        let own_chain_id = self.chain_id.get(v);
        proof {
            Vertex::lemma_id_eq(own_chain_id, nbr_chain_id);
        }
        if own_chain_id != nbr_chain_id {
            if self.chain.get(own_chain_id).size > self.chain.get(nbr_chain_id).size {
                self.merge_chains(v, nbr_v);
            } else {
                self.merge_chains(nbr_v, v);
            }
        }
        proof {
            self.lemma_settled_links(&snap, player, v.id());
            assert(self.flagged(v.id(), d@ + 1)) by {
                lemma_walk(
                    snap.colors(),
                    snap.chain_id@,
                    snap.chain_next_v@,
                    snap.chain@,
                    snap.order@,
                    snap.place@,
                    v.id(),
                );
                lemma_walk(
                    snap.colors(),
                    snap.chain_id@,
                    snap.chain_next_v@,
                    snap.chain@,
                    snap.order@,
                    snap.place@,
                    nbr_v.id(),
                );
                self.lemma_flags_joined(&snap, player, v.id(), d@);
            }
            assert(self.stepped(&snap, player, nbr_v.id())) by {
                reveal(Board::stepped);
                let enemy = Color::of_player(player.spec_opponent());
                lemma_walk(
                    snap.colors(),
                    snap.chain_id@,
                    snap.chain_next_v@,
                    snap.chain@,
                    snap.order@,
                    snap.place@,
                    v.id(),
                );
                lemma_walk(
                    snap.colors(),
                    snap.chain_id@,
                    snap.chain_next_v@,
                    snap.chain@,
                    snap.order@,
                    snap.place@,
                    nbr_v.id(),
                );
                assert forall|u: int| 0 <= u < 443 && self.colors()[u] == enemy implies #[trigger] head_of(
                    self.chain_id@,
                    u,
                ) == head_of(snap.chain_id@, u) by {
                    lemma_walk(
                        snap.colors(),
                        snap.chain_id@,
                        snap.chain_next_v@,
                        snap.chain@,
                        snap.order@,
                        snap.place@,
                        u,
                    );
                }
                assert forall|h: int| 0 <= h < 443 && self.colors()[h] == enemy implies (
                #[trigger] self.chain@[h]).lib_cnt == snap.chain@[h].lib_cnt by {}
            }
        }
    }

    /// The new stone of `player` on `v` meets its neighbor `nbr_v`: a string
    /// of the opponent without liberties is captured, one with liberties is
    /// checked for atari, and a string of `player` is joined with the string
    /// of `v`.  `captured` holds the number of stones captured so far and
    /// the neighbor at which the last capture began; `nbr_v` is the neighbor
    /// number `d`.
    fn settle_neighbor(
        &mut self,
        player: Player,
        v: Vertex,
        nbr_v: Vertex,
        captured: (u32, Vertex),
        d: Ghost<int>,
    ) -> (r: (u32, Vertex))
        requires
            0 <= d@ < 4,
            nbr_v.id() == Self::nbr_of(v.id(), d@),
            old(self).met(player, v.id(), d@),
            old(self).wf_geo(),
            old(self).wf_chains(),
            old(self).wf_libs(),
            joined_ok(old(self).colors(), old(self).chain_ids(), v.id()),
            old(self).marked_ok(),
            old(self).colors()[v.id()] == Color::of_player(player),
            captured.0 <= 2000,
            captured.0 > 0 ==> old(self).colors()[captured.1.id()] == Color::Empty,
        ensures
            final(self).settled(old(self), player, v.id()),
            captured.0 <= r.0 <= captured.0 + 443,
            r.0 > 0 ==> final(self).colors()[r.1.id()] == Color::Empty,
            old(self).colors()[nbr_v.id()] == Color::of_player(player) ==> same_head(
                final(self).chain_ids(),
                nbr_v.id(),
                v.id(),
            ),
            final(self).stepped(old(self), player, nbr_v.id()),
            r.0 - captured.0 == old(self).stones_of(Color::of_player(player.spec_opponent()))
                - final(self).stones_of(Color::of_player(player.spec_opponent())),
            r.0 > captured.0 ==> r.1 == nbr_v && old(self).colors()[nbr_v.id()]
                == Color::of_player(player.spec_opponent()),
            r.0 == captured.0 ==> r.1 == captured.1,
            final(self).met(player, v.id(), d@ + 1),
    {
        let ghost snap = *self;
        proof {
            use_type_invariant(v);
            use_type_invariant(nbr_v);
            use_type_invariant(captured.1);
            self.lemma_lens();
            self.lemma_on_board_of(v.id());
            self.lemma_met(player, v.id(), d@);
        }
        let color = Color::from(player);
        let nbr_color = self.color_at.get(nbr_v);
        let mut captured_cnt: u32 = captured.0;
        let mut last_captured_v = captured.1;
        if color_is_player(nbr_color) {
            if nbr_color != color {
                let nbr_chain_id = self.chain_id.get(nbr_v);
                if self.chain.get(nbr_chain_id).is_captured() {
                    proof {
                        lemma_walk(
                            snap.colors(),
                            snap.chain_id@,
                            snap.chain_next_v@,
                            snap.chain@,
                            snap.order@,
                            snap.place@,
                            nbr_v.id(),
                        );
                    }
                    proof {
                        use_type_invariant(nbr_chain_id);
                        assert(head_of(self.chain_id@, nbr_v.id()) == nbr_chain_id.id());
                    }
                    captured_cnt += self.chain.get(nbr_chain_id).size;
                    last_captured_v = nbr_v;
                    self.capture_neighbor(player, v, nbr_v, d);
                } else {
                    proof {
                        use_type_invariant(nbr_chain_id);
                        assert(head_of(self.chain_id@, nbr_v.id()) == nbr_chain_id.id());
                    }
                    self.atari_neighbor(player, v, nbr_v);
                    proof {
                        self.lemma_flags_checked(&snap, player, v.id(), d@);
                    }
                }
            } else {
                self.join_neighbor(player, v, nbr_v, d);
            }
        } else {
            proof {
                lemma_coarser_refl(self.colors(), self.chain_ids());
                self.lemma_settled_links(&snap, player, v.id());
                reveal(Board::stepped);
                snap.lemma_flags_none(v.id(), d@);
                assert(self.flagged(v.id(), d@ + 1)) by {
                    reveal(Board::flagged);
                }
            }
        }
        proof {
            self.lemma_met_step(&snap, player, v.id(), d@);
            self.lemma_settled(&snap, player, v.id());
            if captured.0 > 0 {
                assert(captured.1.id() != v.id());
                assert(color_of(self.colors(), captured.1.id()) == Color::Empty);
            }
        }
        (captured_cnt, last_captured_v)
    }

    /// Begins the move of `player` on `v`: the list of changed vertices is
    /// emptied, and the turn passes.
    fn begin_move(&mut self, player: Player, v: Vertex)
        requires
            old(self).wf(),
            old(self).spec_move_count() < u32::MAX,
        ensures
            final(self).same_except(old(self), false, false, false, false, true, true),
            final(self).wf_geo(),
            final(self).wf_chains(),
            final(self).marked_ok(),
            final(self).changed() == Seq::<u32>::empty(),
            final(self).play_count == old(self).play_count,
            final(self).ko_v == old(self).ko_v,
            final(self).move_no == old(self).move_no + 1,
            final(self).last_player == player,
            final(self).last_play@ == old(self).last_play@.update(player.raw_spec() as int, v),
    {
        proof {
            reveal(Board::wf_geo);
            reveal(Board::wf_flat);
            reveal(Board::wf_stones);
            reveal(Board::wf_listing);
            reveal(Board::counts_ok);
            reveal(Board::marked_ok);
            self.lemma_lens();
        }
        self.tmp_vertex_set.clear();
        list_clear(&mut self.hash3x3_changed);

        self.last_play.set(player, v);
        self.last_player = player;
        self.move_no += 1;
        proof {
            lemma_changed_empty(self.colors());
            assert(self.plays_ok()) by {
                reveal(Board::plays_ok);
            }
        }
    }

    /// Counts the play on `v`.
    fn count_play(&mut self, v: Vertex)
        requires
            old(self).wf_geo(),
            old(self).move_no >= 1,
            old(self).move_no <= u32::MAX,
            forall|i: int| 0 <= i < 443 ==> #[trigger] old(self).play_count@[i] < old(self).move_no,
        ensures
            final(self).same_except(old(self), false, false, false, false, false, true),
            final(self).wf_geo(),
            final(self).move_no == old(self).move_no,
            final(self).ko_v == old(self).ko_v,
            final(self).last_player == old(self).last_player,
            final(self).last_play == old(self).last_play,
            final(self).play_count@ == old(self).play_count@.update(
                v.id(),
                (old(self).play_count@[v.id()] + 1) as u32,
            ),
    {
        proof {
            reveal(Board::wf_geo);
            reveal(Board::wf_flat);
            reveal(Board::wf_stones);
            reveal(Board::wf_listing);
            reveal(Board::counts_ok);
            use_type_invariant(v);
            self.lemma_lens();
        }
        let played: u32 = self.play_count.get(v);
        self.play_count.set(v, played + 1);
        proof {
            assert(self.plays_ok()) by {
                reveal(Board::plays_ok);
            }
        }
    }

    /// Sets the ko vertex after the captures of a move: the neighbor at
    /// which the only stone was captured, if the stone on `v` is alone and
    /// has one liberty; else none.
    fn update_ko(&mut self, v: Vertex, captured: (u32, Vertex))
        requires
            old(self).wf_geo(),
            captured.0 > 0 ==> old(self).colors()[captured.1.id()] == Color::Empty,
        ensures
            final(self).same_except(old(self), false, false, false, false, false, true),
            final(self).wf_geo(),
            final(self).wf_ko(),
            final(self).marked_ok() == old(self).marked_ok(),
            final(self).wf_chains() == old(self).wf_chains(),
            final(self).move_no == old(self).move_no,
            final(self).play_count == old(self).play_count,
            final(self).last_player == old(self).last_player,
            final(self).last_play == old(self).last_play,
            final(self).ko_v.id() == if captured.0 == 1 && old(self).chain@[old(
                self,
            ).chain_id@[v.id()].id()].size == 1 && old(self).chain@[old(
                self,
            ).chain_id@[v.id()].id()].lib_cnt == 1 {
                captured.1.id()
            } else {
                442
            },
    {
        proof {
            reveal(Board::wf_geo);
            reveal(Board::wf_flat);
            reveal(Board::wf_stones);
            reveal(Board::wf_listing);
            reveal(Board::counts_ok);
            use_type_invariant(captured.1);
            use_type_invariant(v);
            self.lemma_lens();
        }
        let head = self.chain_id.get(v);
        proof {
            use_type_invariant(head);
            reveal(Board::marked_ok);
        }
        let own = self.chain.get(head);
        if captured.0 == 1 && own.size == 1 && own.lib_cnt == 1 {
            self.ko_v = captured.1;
        } else {
            self.ko_v = Vertex::none();
        }
        proof {
            assert(self.plays_ok()) by {
                reveal(Board::plays_ok);
            }
        }
    }

    /// Plays the move of `player` on `v`, a pass or an empty vertex: the
    /// stone is placed, strings of the opponent that it leaves without
    /// liberties are captured, strings of `player` that it touches are
    /// joined, and the ko vertex and the atari flags are set.
    pub fn play_legal(&mut self, player: Player, v: Vertex)
        requires
            old(self).wf(),
            old(self).spec_move_count() < u32::MAX,
            old(self).spec_is_legal(player, v),
        ensures
            final(self).wf(),
            final(self).width() == old(self).width(),
            final(self).height() == old(self).height(),
            final(self).spec_move_count() == old(self).spec_move_count() + 1,
            final(self).spec_last_player() == player,
            final(self).spec_last_play(player) == v,
            final(self).spec_last_play(player.spec_opponent()) == old(self).spec_last_play(
                player.spec_opponent(),
            ),
            v.id() == 441 ==> final(self).same_except(old(self), false, false, false, false, true, true)
                && final(self).spec_ko_vertex().id() == 442,
            v.id() != 441 ==> final(self).captured_from(old(self), player, v.id()),
            v.id() != 441 ==> final(self).played_from(old(self), player, v.id()),
            v.id() != 441 ==> final(self).ko_from(old(self), player, v.id()),
            final(self).changes_listed(old(self)),
            forall|i: int|
                0 <= i < 443 ==> #[trigger] final(self).spec_play_count(i) == if i == v.id() && i
                    != 441 {
                    old(self).spec_play_count(i) + 1
                } else {
                    old(self).spec_play_count(i) as int
                },
    {
        let ghost snap = *self;
        proof {
            use_type_invariant(v);
            self.lemma_lens();
            assert forall|i: int| 0 <= i < 443 implies #[trigger] snap.play_count@[i]
                <= snap.move_no by {
                reveal(Board::plays_ok);
                reveal(Board::wf_geo);
                reveal(Board::wf_flat);
                reveal(Board::wf_stones);
            }
        }
        self.begin_move(player, v);
        let pass = Vertex::pass();
        proof {
            Vertex::lemma_id_eq(v, pass);
            self.lemma_noted_cleared();
        }
        if v == pass {
            let ghost begun = *self;
            self.ko_v = Vertex::none();
            proof {
                self.lemma_passed_turn(&begun, &snap);
            }
            return;
        }
        let ghost s0 = *self;
        self.count_play(v);
        let ghost s1 = *self;
        proof {
            assert(self.marked_ok()) by {
                reveal(Board::marked_ok);
            }
            assert(!in_list(self.changed(), v.id()));
            self.lemma_on_board_of(v.id());
        }
        self.place_stone(player, v);
        let ghost s2 = *self;
        proof {
            s2.lemma_captures_start(player, v.id());
            s2.lemma_flags_placed(&s1, player, v);
            s2.lemma_met_start(player, v.id());
        }

        let captured = (0u32, Vertex::none());
        let ghost before_s3 = captured;
        let captured = self.settle_neighbor(player, v, v.up(), captured, Ghost(0));
        let ghost s3 = *self;
        proof {
            use_type_invariant(captured.1);
            if s2.colors()[v.id() - 21] == Color::of_player(player.spec_opponent()) {
                s2.lemma_alive_color(&s2, player, v.id(), 0, v.id() - 21);
            }
            assert(captured.0 > 0 ==> crate::updates::adjacent(captured.1.id(), v.id())
                && s2.colors()[captured.1.id()] == Color::of_player(player.spec_opponent()));
            s3.lemma_settled(&s2, player, v.id());
            s3.lemma_capture_step(&s2, &s2, player, v.id(), 0, v.id() - 21);
        }
        let ghost before_s4 = captured;
        let captured = self.settle_neighbor(player, v, v.left(), captured, Ghost(1));
        let ghost s4 = *self;
        proof {
            use_type_invariant(captured.1);
            if s3.colors()[v.id() - 1] == Color::of_player(player.spec_opponent()) {
                s3.lemma_alive_color(&s2, player, v.id(), 1, v.id() - 1);
            }
            assert(captured.0 > 0 ==> crate::updates::adjacent(captured.1.id(), v.id())
                && s2.colors()[captured.1.id()] == Color::of_player(player.spec_opponent()));
            s4.lemma_settled(&s3, player, v.id());
            s4.lemma_capture_step(&s3, &s2, player, v.id(), 1, v.id() - 1);
        }
        let ghost before_s5 = captured;
        let captured = self.settle_neighbor(player, v, v.right(), captured, Ghost(2));
        let ghost s5 = *self;
        proof {
            use_type_invariant(captured.1);
            if s4.colors()[v.id() + 1] == Color::of_player(player.spec_opponent()) {
                s4.lemma_alive_color(&s2, player, v.id(), 2, v.id() + 1);
            }
            assert(captured.0 > 0 ==> crate::updates::adjacent(captured.1.id(), v.id())
                && s2.colors()[captured.1.id()] == Color::of_player(player.spec_opponent()));
            s5.lemma_settled(&s4, player, v.id());
            s5.lemma_capture_step(&s4, &s2, player, v.id(), 2, v.id() + 1);
        }
        let ghost before_s6 = captured;
        let captured = self.settle_neighbor(player, v, v.down(), captured, Ghost(3));
        let ghost s6 = *self;
        proof {
            use_type_invariant(captured.1);
            if s5.colors()[v.id() + 21] == Color::of_player(player.spec_opponent()) {
                s5.lemma_alive_color(&s2, player, v.id(), 3, v.id() + 21);
            }
            assert(captured.0 > 0 ==> crate::updates::adjacent(captured.1.id(), v.id())
                && s2.colors()[captured.1.id()] == Color::of_player(player.spec_opponent()));
            s6.lemma_settled(&s5, player, v.id());
            s6.lemma_capture_step(&s5, &s2, player, v.id(), 3, v.id() + 21);
            s6.lemma_settled_trans(&s5, &s4, player, v.id());
            s6.lemma_settled_trans(&s4, &s3, player, v.id());
            s6.lemma_settled_trans(&s3, &s2, player, v.id());
            s6.lemma_settled(&s2, player, v.id());
            s6.lemma_joined_all(&s2, &s3, &s4, &s5, player, v.id());
            s6.lemma_own_liberty(&s2, &s1, player, v);
            s6.lemma_alive_after(&s2, &s1, player, v);
        }
        let ghost kv = captured.1.id();
        proof {
            use_type_invariant(captured.1);
        }
        self.update_ko(v, captured);
        let ghost s7 = *self;
        proof {
            assert(joined_ok(s7.colors(), s7.chain_ids(), v.id())) by {
                assert(s7.colors() == s6.colors() && s7.chain_ids() == s6.chain_ids());
            }
            assert(s7.wf_libs());
            s6.lemma_met(player, v.id(), 4);
            assert(s7.flagged(v.id(), 4)) by {
                reveal(Board::flagged);
                assert(s7.dirty(v.id(), 4) == s6.dirty(v.id(), 4));
            }
        }
        self.atari_neighbor(player, v, v);
        proof {
            self.lemma_flags_last(&s7, v.id());
            self.lemma_finish(&s7, &s6, &s2, &s1, &snap, player, v.id());
            self.lemma_played(&s7, &s6, &s2, &s1, &snap, player, v);
            let enemy = Color::of_player(player.spec_opponent());
            assert(self.spec_stone_count(player.spec_opponent()) == s6.spec_stone_count(
                player.spec_opponent(),
            ));
            assert(s2.spec_stone_count(player.spec_opponent()) == snap.spec_stone_count(
                player.spec_opponent(),
            ));
            if captured.0 > 0 {
                assert(crate::updates::adjacent(kv, v.id()));
                assert(s2.colors()[kv] == enemy);
                assert(snap.colors()[kv] == enemy);
                assert(s6.colors()[kv] == Color::Empty);
                self.lemma_settled(&s7, player, v.id());
                assert(color_of(self.colors(), kv) == self.colors()[kv]);
            }
            let h = s6.chain_id@[v.id()].id();
            assert(self.chain_id == s6.chain_id);
            assert(0 <= h < 443) by {
                lemma_walk(
                    s6.colors(),
                    s6.chain_id@,
                    s6.chain_next_v@,
                    s6.chain@,
                    s6.order@,
                    s6.place@,
                    v.id(),
                );
            }
            assert(same_moments(self.chain@[h], s7.chain@[h]));
            self.lemma_ko(&snap, player, v.id(), captured.0 as int, kv);
            s6.lemma_settled(&s2, player, v.id());
            assert(self.play_count == s1.play_count);
            assert(s0.play_count == snap.play_count);
        }
    }

    /// The ko vertex after the move of `player` on `v`, played on the board
    /// `o`: if the move captured one stone and the new stone is a string of
    /// its own with one liberty, the vertex of the captured stone, a
    /// neighbor of `v`; else none.
    #[verifier::opaque]
    pub open(crate) spec fn ko_from(&self, o: &Board, player: Player, v: int) -> bool {
        let lost = o.spec_stone_count(player.spec_opponent()) - self.spec_stone_count(
            player.spec_opponent(),
        );
        let own = self.chain@[head_of(self.chain_id@, v)];
        if lost == 1 && own.size == 1 && own.lib_cnt == 1 {
            &&& crate::updates::adjacent(self.ko_v.id(), v)
            &&& o.colors()[self.ko_v.id()] == Color::of_player(player.spec_opponent())
            &&& self.colors()[self.ko_v.id()] == Color::Empty
        } else {
            self.ko_v.id() == 442
        }
    }

    /// The ko vertex that the move has set is that of `ko_from`.
    pub(crate) proof fn lemma_ko(&self, o: &Board, player: Player, v: int, captured: int, kv: int)
        requires
            captured == o.spec_stone_count(player.spec_opponent()) - self.spec_stone_count(
                player.spec_opponent(),
            ),
            self.ko_v.id() == if captured == 1 && self.chain@[head_of(self.chain_id@, v)].size == 1
                && self.chain@[head_of(self.chain_id@, v)].lib_cnt == 1 {
                kv
            } else {
                442
            },
            captured > 0 ==> crate::updates::adjacent(kv, v) && o.colors()[kv] == Color::of_player(
                player.spec_opponent(),
            ) && self.colors()[kv] == Color::Empty,
        ensures
            self.ko_from(o, player, v),
    {
        reveal(Board::ko_from);
    }

    /// How many of the cardinal neighbors of `v` are stones of the string
    /// with the head `c`.
    pub open(crate) spec fn touch_count(&self, c: int, v: int) -> int {
        b2i(self.in_string(v - 21, c)) + b2i(self.in_string(v - 1, c)) + b2i(
            self.in_string(v + 1, c),
        ) + b2i(self.in_string(v + 21, c))
    }

    /// Whether a stone of `player` on the empty vertex `v` captures the
    /// stone on `u`: a stone of the opponent in a string that touches `v` and
    /// whose liberty count is that of a string with `v` as its only liberty,
    /// one for each of its stones that touch `v`.
    pub open(crate) spec fn spec_captures(&self, player: Player, v: int, u: int) -> bool {
        &&& self.colors()[u] == Color::of_player(player.spec_opponent())
        &&& self.touch_count(head_of(self.chain_id@, u), v) >= 1
        &&& self.chain@[head_of(self.chain_id@, u)].lib_cnt == self.touch_count(
            head_of(self.chain_id@, u),
            v,
        )
    }

    /// The colors after the move of `player` on `v`, played on the board
    /// `o`: the stone stands on `v`, the stones that it captures are gone,
    /// and nothing else has changed.
    #[verifier::opaque]
    pub open(crate) spec fn played_from(&self, o: &Board, player: Player, v: int) -> bool {
        &&& self.colors()[v] == Color::of_player(player)
        &&& forall|u: int|
            0 <= u < 443 && u != v ==> #[trigger] color_of(self.colors(), u) == if o.spec_captures(
                player,
                v,
                u,
            ) {
                Color::Empty
            } else {
                o.colors()[u]
            }
    }

    /// The liberty count that a string of `o` has after a stone was put on
    /// the empty vertex `v`: the count before, less one for each of its
    /// stones that touch `v`.
    pub(crate) proof fn lemma_placed_count(&self, o: &Board, player: Player, v: Vertex, h: int)
        requires
            o.wf_geo(),
            o.wf_chains(),
            o.wf_libs(),
            o.colors()[v.id()] == Color::Empty,
            self.colors() == o.colors().update(v.id(), Color::of_player(player)),
            self.chain_ids() == o.chain_ids().update(v.id(), v),
            self.wf_libs(),
            0 <= v.id() < 443,
            0 <= h < 443,
            is_head(o.colors(), o.chain_ids(), h),
        ensures
            22 <= v.id() <= 418,
            h != v.id(),
            is_head(self.colors(), self.chain_ids(), h),
            self.chain@[h].lib_cnt == o.chain@[h].lib_cnt - o.touch_count(h, v.id()),
            forall|y: int| 0 <= y < 443 && y != v.id() ==> self.in_string(y, h) == o.in_string(y, h),
    {
        reveal(libs_ok);
        reveal(Board::wf_geo);
        reveal(Board::wf_flat);
        o.lemma_stones_inside();
        o.lemma_lens();
        let id = v.id();
        o.lemma_on_board_of(id);
        let c0 = o.colors();
        let c1 = self.colors();
        let ids0 = o.chain_ids();
        let ids1 = self.chain_ids();
        assert(rec_matches(c0, c0, ids0, o.chain@[h], h));
        assert(rec_matches(c1, c1, ids1, self.chain@[h], h));
        assert forall|u: int| 0 <= u < 443 implies member(c0, ids0, u, h) == #[trigger] member(
            c1,
            ids1,
            u,
            h,
        ) by {}
        lemma_libs_same(c1, c0, ids0, c1, ids1, h, 443, 0);
        lemma_libs_fill(c0, c0, ids0, h, id, Color::of_player(player), 443, 0);
        lemma_touching_nbrs(c0, ids0, h, id, 443, 0);
    }

    /// A stone that the move captures is a stone of a string that has no
    /// liberty once the stone stands on `v`, and the other way round.
    pub(crate) proof fn lemma_doomed_link(&self, o: &Board, player: Player, v: Vertex, u: int)
        requires
            o.wf_geo(),
            o.wf_chains(),
            o.wf_libs(),
            o.colors()[v.id()] == Color::Empty,
            self.colors() == o.colors().update(v.id(), Color::of_player(player)),
            self.chain_ids() == o.chain_ids().update(v.id(), v),
            self.wf_libs(),
            0 <= v.id() < 443,
            0 <= u < 443,
            u != v.id(),
        ensures
            self.doomed_upto(player, v.id(), 4, u) == o.spec_captures(player, v.id(), u),
    {
        let enemy = Color::of_player(player.spec_opponent());
        o.lemma_lens();
        o.lemma_on_board_of(v.id());
        if o.colors()[u] == enemy {
            lemma_walk(
                o.colors(),
                o.chain_id@,
                o.chain_next_v@,
                o.chain@,
                o.order@,
                o.place@,
                u,
            );
            let h = head_of(o.chain_id@, u);
            assert(is_head(o.colors(), o.chain_ids(), h));
            self.lemma_placed_count(o, player, v, h);
            assert(head_of(self.chain_id@, u) == h);
            assert(self.in_string(v.id() - 21, h) == o.in_string(v.id() - 21, h));
            assert(self.in_string(v.id() - 1, h) == o.in_string(v.id() - 1, h));
            assert(self.in_string(v.id() + 1, h) == o.in_string(v.id() + 1, h));
            assert(self.in_string(v.id() + 21, h) == o.in_string(v.id() + 21, h));
        }
    }

    /// After a legal move, the string of the new stone has a liberty.
    pub(crate) proof fn lemma_own_liberty(&self, s2: &Board, o: &Board, player: Player, v: Vertex)
        requires
            o.wf_geo(),
            o.wf_chains(),
            o.wf_libs(),
            o.spec_is_legal(player, v),
            v.id() != 441,
            0 <= v.id() < 443,
            s2.colors() == o.colors().update(v.id(), Color::of_player(player)),
            s2.chain_ids() == o.chain_ids().update(v.id(), v),
            s2.wf_libs(),
            s2.wf_chains(),
            s2.wf_geo(),
            self.captures_done(s2, player, v.id(), 4),
            self.wf_geo(),
            self.wf_chains(),
            self.wf_libs(),
            coarser(s2.colors(), s2.chain_ids(), self.colors(), self.chain_ids()),
            joined_ok(self.colors(), self.chain_ids(), -1),
        ensures
            self.chain@[head_of(self.chain_id@, v.id())].lib_cnt != 0,
    {
        reveal(libs_ok);
        reveal(Board::captures_done);
        reveal(Board::wf_geo);
        reveal(Board::wf_flat);
        let id = v.id();
        let own = Color::of_player(player);
        let enemy = Color::of_player(player.spec_opponent());
        o.lemma_lens();
        o.lemma_on_board_of(id);
        self.lemma_stones_inside();
        s2.lemma_stones_inside();
        assert(color_of(self.colors(), id) == self.colors()[id]);
        assert(self.colors()[id] == own);
        lemma_walk(
            self.colors(),
            self.chain_id@,
            self.chain_next_v@,
            self.chain@,
            self.order@,
            self.place@,
            id,
        );
        let hv = head_of(self.chain_id@, id);
        assert(is_head(self.colors(), self.chain_ids(), hv));
        assert(rec_matches(self.colors(), self.colors(), self.chain_ids(), self.chain@[hv], hv));
        // A vertex next to `v` that is empty in the end.
        let e = if nbr_empty_count(o.colors(), id) > 0 {
            if o.colors()[id - 21] == Color::Empty {
                id - 21
            } else if o.colors()[id - 1] == Color::Empty {
                id - 1
            } else if o.colors()[id + 1] == Color::Empty {
                id + 1
            } else {
                id + 21
            }
        } else if o.rescued_by(player, id, id - 21) {
            id - 21
        } else if o.rescued_by(player, id, id - 1) {
            id - 1
        } else if o.rescued_by(player, id, id + 1) {
            id + 1
        } else {
            id + 21
        };
        assert(crate::updates::adjacent(e, id));
        assert(color_of(self.colors(), e) == self.colors()[e]);
        if nbr_empty_count(o.colors(), id) > 0 {
            assert(self.colors()[e] == Color::Empty);
            lemma_libs_positive(self.colors(), self.colors(), self.chain_ids(), hv, id, e, 443);
        } else {
            assert(o.rescued_by(player, id, e));
            lemma_walk(
                o.colors(),
                o.chain_id@,
                o.chain_next_v@,
                o.chain@,
                o.order@,
                o.place@,
                e,
            );
            let h = head_of(o.chain_id@, e);
            assert(is_head(o.colors(), o.chain_ids(), h));
            s2.lemma_placed_count(o, player, v, h);
            o.lemma_tally(id, e);
            if o.colors()[e] == enemy {
                // The neighbor is captured.
                assert(o.tally(id, e) == 0);
                assert(o.in_string(e, h));
                assert(o.touch_count(h, id) >= 1);
                s2.lemma_doomed_link(o, player, v, e);
                assert(s2.doomed_upto(player, id, 4, e));
                assert(self.colors()[e] == Color::Empty);
                lemma_libs_positive(self.colors(), self.colors(), self.chain_ids(), hv, id, e, 443);
            } else {
                // The neighbor is a friend whose string keeps a liberty.
                assert(o.colors()[e] == own);
                assert(o.tally(id, e) != 0);
                assert(s2.chain@[h].lib_cnt != 0);
                assert(rec_matches(s2.colors(), s2.colors(), s2.chain_ids(), s2.chain@[h], h));
                let pair = lemma_libs_exists(s2.colors(), s2.colors(), s2.chain_ids(), h, 443);
                let w = pair.0;
                let f = pair.1;
                lemma_walk(
                    s2.colors(),
                    s2.chain_id@,
                    s2.chain_next_v@,
                    s2.chain@,
                    s2.order@,
                    s2.place@,
                    w,
                );
                lemma_walk(
                    s2.colors(),
                    s2.chain_id@,
                    s2.chain_next_v@,
                    s2.chain@,
                    s2.order@,
                    s2.place@,
                    e,
                );
                assert(s2.colors()[e] == own);
                assert(head_of(s2.chain_id@, e) == h);
                assert(s2.colors()[w] == own);
                assert(color_of(self.colors(), w) == self.colors()[w]);
                assert(color_of(self.colors(), f) == self.colors()[f]);
                assert(self.colors()[w] == own);
                assert(self.colors()[f] == Color::Empty);
                assert(self.colors()[e] == own);
                lemma_coarser(
                    s2.colors(),
                    s2.chain_ids(),
                    self.colors(),
                    self.chain_ids(),
                    w,
                    e,
                );
                crate::joined::lemma_joined(
                    self.colors(),
                    self.chain_ids(),
                    -1,
                    id,
                    e,
                );
                assert(member(self.colors(), self.chain_ids(), w, hv));
                lemma_libs_positive(self.colors(), self.colors(), self.chain_ids(), hv, w, f, 443);
            }
        }
    }

    /// After a legal move, every string has a liberty.
    pub(crate) proof fn lemma_alive_after(&self, s2: &Board, o: &Board, player: Player, v: Vertex)
        requires
            o.wf_geo(),
            o.wf_chains(),
            o.wf_libs(),
            o.wf_alive(),
            o.colors()[v.id()] == Color::Empty,
            0 <= v.id() < 443,
            s2.colors() == o.colors().update(v.id(), Color::of_player(player)),
            s2.chain_ids() == o.chain_ids().update(v.id(), v),
            s2.wf_libs(),
            s2.wf_chains(),
            s2.wf_geo(),
            self.captures_done(s2, player, v.id(), 4),
            self.wf_geo(),
            self.wf_chains(),
            self.wf_libs(),
            coarser(s2.colors(), s2.chain_ids(), self.colors(), self.chain_ids()),
            joined_ok(self.colors(), self.chain_ids(), -1),
            self.chain@[head_of(self.chain_id@, v.id())].lib_cnt != 0,
        ensures
            self.wf_alive(),
    {
        reveal(alive_ok);
        reveal(libs_ok);
        reveal(Board::captures_done);
        reveal(Board::wf_geo);
        reveal(Board::wf_flat);
        let id = v.id();
        let own = Color::of_player(player);
        let enemy = Color::of_player(player.spec_opponent());
        o.lemma_lens();
        o.lemma_on_board_of(id);
        self.lemma_stones_inside();
        o.lemma_stones_inside();
        assert(color_of(self.colors(), id) == self.colors()[id]);
        assert forall|h: int|
            0 <= h < 443 && is_head(self.colors(), self.chain_ids(), h) implies (
        #[trigger] self.chain@[h]).lib_cnt != 0 by {
            assert(color_of(self.colors(), h) == self.colors()[h]);
            assert(head_of(self.chain_id@, h) == h);
            if h == head_of(self.chain_id@, id) {
            } else if self.colors()[h] == enemy {
                assert(h != id);
                assert(s2.colors()[h] == enemy);
                assert(o.colors()[h] == enemy);
                assert(head_of(s2.chain_id@, h) == h);
                assert(is_head(o.colors(), o.chain_ids(), h));
                s2.lemma_placed_count(o, player, v, h);
                assert(o.chain@[h].lib_cnt != 0);
                if s2.chain@[h].lib_cnt == 0 {
                    assert(o.touch_count(h, id) >= 1);
                    assert(s2.touches_upto(h, id, 4));
                    assert(s2.doomed_upto(player, id, 4, h));
                    assert(false);
                }
            } else {
                assert(self.colors()[h] == own);
                assert(h != id) by {
                    if h == id {
                        assert(head_of(self.chain_id@, id) == h);
                    }
                }
                assert(s2.colors()[h] == own);
                assert(o.colors()[h] == own);
                lemma_walk(
                    o.colors(),
                    o.chain_id@,
                    o.chain_next_v@,
                    o.chain@,
                    o.order@,
                    o.place@,
                    h,
                );
                let c0 = head_of(o.chain_id@, h);
                assert(is_head(o.colors(), o.chain_ids(), c0));
                assert(rec_matches(o.colors(), o.colors(), o.chain_ids(), o.chain@[c0], c0));
                assert(o.chain@[c0].lib_cnt != 0);
                let pair = lemma_libs_exists(o.colors(), o.colors(), o.chain_ids(), c0, 443);
                let w = pair.0;
                let e = pair.1;
                lemma_walk(
                    o.colors(),
                    o.chain_id@,
                    o.chain_next_v@,
                    o.chain@,
                    o.order@,
                    o.place@,
                    w,
                );
                assert(o.colors()[w] == own);
                assert(w != id);
                assert(s2.colors()[w] == own);
                assert(color_of(self.colors(), w) == self.colors()[w]);
                assert(self.colors()[w] == own);
                assert(same_head(s2.chain_ids(), w, h));
                lemma_coarser(
                    s2.colors(),
                    s2.chain_ids(),
                    self.colors(),
                    self.chain_ids(),
                    w,
                    h,
                );
                assert(member(self.colors(), self.chain_ids(), w, h));
                if e == id {
                    crate::joined::lemma_joined(self.colors(), self.chain_ids(), -1, w, id);
                    assert(false);
                } else {
                    assert(s2.colors()[e] == Color::Empty);
                    assert(color_of(self.colors(), e) == self.colors()[e]);
                    assert(self.colors()[e] == Color::Empty);
                    lemma_libs_positive(
                        self.colors(),
                        self.colors(),
                        self.chain_ids(),
                        h,
                        w,
                        e,
                        443,
                    );
                    assert(rec_matches(
                        self.colors(),
                        self.colors(),
                        self.chain_ids(),
                        self.chain@[h],
                        h,
                    ));
                }
            }
        }
    }

    /// The tally of the suicide check is the liberty count of the string
    /// less one for each of its stones that touch the vertex.
    pub(crate) proof fn lemma_tally(&self, id: int, n: int)
        requires
            self.wf_chains(),
            self.lens_ok(),
            22 <= id <= 418,
            n == id - 21 || n == id - 1 || n == id + 1 || n == id + 21,
            self.colors()[n].is_player(),
        ensures
            self.tally(id, n) == self.chain@[head_of(self.chain_id@, n)].lib_cnt - self.touch_count(
                head_of(self.chain_id@, n),
                id,
            ),
    {
        let c = self.chain_id@[n];
        lemma_walk(
            self.colors(),
            self.chain_id@,
            self.chain_next_v@,
            self.chain@,
            self.order@,
            self.place@,
            n,
        );
        assert forall|y: int| 0 <= y < 443 implies (self.chain_id@[y] == c) == self.in_string(
            y,
            c.id(),
        ) by {
            Vertex::lemma_id_eq(self.chain_id@[y], c);
            if !self.colors()[y].is_player() {
                lemma_idle(
                    self.colors(),
                    self.chain_id@,
                    self.chain_next_v@,
                    self.chain@,
                    self.order@,
                    self.place@,
                    y,
                );
            }
        }
    }

    /// The colors after the move, in terms of the board before it.
    pub(crate) proof fn lemma_played(
        &self,
        s7: &Board,
        s6: &Board,
        s2: &Board,
        s1: &Board,
        o: &Board,
        player: Player,
        v: Vertex,
    )
        requires
            o.wf(),
            0 <= v.id() < 443,
            s1.same_except(o, false, false, false, false, true, true),
            s1.wf_geo(),
            s1.wf_chains(),
            s1.wf_libs(),
            s1.colors()[v.id()] == Color::Empty,
            s2.colors() == s1.colors().update(v.id(), Color::of_player(player)),
            s2.chain_ids() == s1.chain_ids().update(v.id(), v),
            s2.wf_libs(),
            s6.captures_done(s2, player, v.id(), 4),
            s7.colors() == s6.colors(),
            self.stepped(s7, player, v.id()),
            s7.colors()[v.id()] == Color::of_player(player),
        ensures
            self.played_from(o, player, v.id()),
    {
        reveal(Board::played_from);
        reveal(Board::captures_done);
        reveal(Board::stepped);
        o.lemma_lens();
        assert(color_of(self.colors(), v.id()) == self.colors()[v.id()]);
        assert forall|u: int| 0 <= u < 443 && u != v.id() implies #[trigger] color_of(
            self.colors(),
            u,
        ) == if o.spec_captures(player, v.id(), u) {
            Color::Empty
        } else {
            o.colors()[u]
        } by {
            s2.lemma_doomed_link(s1, player, v, u);
            assert(color_of(s6.colors(), u) == s6.colors()[u]);
        }
    }

    /// After the stone on `v` has met its four neighbors, it has the head of
    /// each neighbor of its color, and no pair of stones is left unlinked.
    pub(crate) proof fn lemma_joined_all(
        &self,
        s2: &Board,
        s3: &Board,
        s4: &Board,
        s5: &Board,
        player: Player,
        v: int,
    )
        requires
            22 <= v <= 418,
            s3.settled(s2, player, v),
            s4.settled(s3, player, v),
            s5.settled(s4, player, v),
            self.settled(s5, player, v),
            self.settled(s4, player, v),
            self.settled(s3, player, v),
            s2.colors()[v - 21] == Color::of_player(player) ==> same_head(s3.chain_ids(), v - 21, v),
            s3.colors()[v - 1] == Color::of_player(player) ==> same_head(s4.chain_ids(), v - 1, v),
            s4.colors()[v + 1] == Color::of_player(player) ==> same_head(s5.chain_ids(), v + 1, v),
            s5.colors()[v + 21] == Color::of_player(player) ==> same_head(
                self.chain_ids(),
                v + 21,
                v,
            ),
        ensures
            joined_ok(self.colors(), self.chain_ids(), -1),
    {
        self.lemma_settled(s5, player, v);
        self.lemma_settled(s4, player, v);
        self.lemma_settled(s3, player, v);
        s3.lemma_settled(s2, player, v);
        s4.lemma_settled(s3, player, v);
        s5.lemma_settled(s4, player, v);
        let own = Color::of_player(player);
        if self.colors()[v - 21] == own {
            lemma_coarser(
                s3.colors(),
                s3.chain_ids(),
                self.colors(),
                self.chain_ids(),
                v - 21,
                v,
            );
            lemma_coarser(s2.colors(), s2.chain_ids(), s3.colors(), s3.chain_ids(), v - 21, v);
        }
        if self.colors()[v - 1] == own {
            lemma_coarser(s4.colors(), s4.chain_ids(), self.colors(), self.chain_ids(), v - 1, v);
            lemma_coarser(s3.colors(), s3.chain_ids(), s4.colors(), s4.chain_ids(), v - 1, v);
        }
        if self.colors()[v + 1] == own {
            lemma_coarser(s5.colors(), s5.chain_ids(), self.colors(), self.chain_ids(), v + 1, v);
            lemma_coarser(s4.colors(), s4.chain_ids(), s5.colors(), s5.chain_ids(), v + 1, v);
        }
        if self.colors()[v + 21] == own {
            lemma_coarser(
                s5.colors(),
                s5.chain_ids(),
                self.colors(),
                self.chain_ids(),
                v + 21,
                v,
            );
        }
        lemma_joined_done(self.colors(), self.chain_ids(), v);
    }

    /// A vertex that is empty lies on the board, away from its edge.
    pub(crate) proof fn lemma_on_board_of(&self, id: int)
        requires
            self.wf_geo(),
            0 <= id < 443,
            self.colors()[id] != Color::OffBoard,
        ensures
            22 <= id <= 418,
            within(id, self.width(), self.height()),
    {
        reveal(Board::wf_geo);
        reveal(Board::wf_flat);
        reveal(Board::wf_stones);
        lemma_on_board(self.colors(), self.width(), self.height(), id);
    }

    /// After the list of changed vertices was emptied, nothing is on it.
    pub(crate) proof fn lemma_noted_cleared(&self)
        requires
            self.changed() == Seq::<u32>::empty(),
        ensures
            forall|i: int| !in_list(self.changed(), i),
    {
    }

    /// A pass leaves a well-formed board well-formed, with nothing to list.
    pub(crate) proof fn lemma_passed_turn(&self, begun: &Board, o: &Board)
        requires
            o.wf(),
            begun.wf_geo(),
            begun.wf_chains(),
            begun.same_except(o, false, false, false, false, true, true),
            self.same_except(begun, false, false, false, false, false, true),
            self.move_no == begun.move_no,
            self.play_count == begun.play_count,
            self.last_player == begun.last_player,
            self.last_play == begun.last_play,
            self.ko_v.id() == 442,
        ensures
            self.wf(),
            self.changes_listed(o),
            self.same_except(o, false, false, false, false, true, true),
    {
        reveal(Board::wf_geo);
        reveal(Board::wf_flat);
        reveal(Board::wf_stones);
        reveal(Board::wf_listing);
        reveal(Board::counts_ok);
        reveal(Board::plays_ok);
        reveal(Board::changes_listed);
        self.lemma_lens();
    }

    /// The end of a move: the ko vertex is set and the string of the new
    /// stone is checked for atari.
    pub(crate) proof fn lemma_finish(
        &self,
        s7: &Board,
        s6: &Board,
        s2: &Board,
        s1: &Board,
        o: &Board,
        player: Player,
        v: int,
    )
        requires
            o.lens_ok(),
            0 <= v < 443,
            s1.same_except(o, false, false, false, false, true, true),
            s1.changed() == Seq::<u32>::empty(),
            s1.colors()[v] == Color::Empty,
            s2.same_except(s1, true, true, true, true, true, false),
            s2.colors() == s1.colors().update(v, Color::of_player(player)),
            s2.noted_since(s1),
            s6.settled(s2, player, v),
            joined_ok(s6.colors(), s6.chain_ids(), -1),
            s7.same_except(s6, false, false, false, false, false, true),
            s7.wf_ko(),
            s7.move_no == s6.move_no,
            s7.play_count == s6.play_count,
            s7.last_player == s6.last_player,
            s7.last_play == s6.last_play,
            self.settled(s7, player, v),
            s6.wf_alive(),
            forall|k: int|
                0 <= k < 443 ==> same_moments(#[trigger] self.chain@[k], s7.chain@[k]),
            self.chain_id == s7.chain_id,
            self.color_at == s7.color_at,
            self.wf_atari(),
        ensures
            self.wf(),
            self.captured_from(o, player, v),
            self.changes_listed(o),
            self.move_no == s1.move_no,
            self.last_player == s1.last_player,
            self.last_play == s1.last_play,
            self.board_width == o.board_width,
            self.board_height == o.board_height,
    {
        reveal(Board::settled);
        reveal(Board::captured_from);
        reveal(Board::noted_since);
        reveal(Board::changes_listed);
        assert forall|u: int| 0 <= u < 443 && u != v implies #[trigger] color_of(
            self.colors(),
            u,
        ) == o.colors()[u] || (o.colors()[u] == Color::of_player(player.spec_opponent())
            && self.colors()[u] == Color::Empty) by {
            assert(color_of(s6.colors(), u) == s2.colors()[u] || (s2.colors()[u]
                == Color::of_player(player.spec_opponent()) && s6.colors()[u] == Color::Empty));
            assert(color_of(self.colors(), u) == s7.colors()[u] || (s7.colors()[u]
                == Color::of_player(player.spec_opponent()) && self.colors()[u] == Color::Empty));
        }
        lemma_noted_trans(
            s1.colors(),
            s1.patterns(),
            s1.changed(),
            s2.colors(),
            s2.patterns(),
            s2.changed(),
            s6.colors(),
            s6.patterns(),
            s6.changed(),
        );
        lemma_noted_trans(
            s1.colors(),
            s1.patterns(),
            s1.changed(),
            s6.colors(),
            s6.patterns(),
            s6.changed(),
            self.colors(),
            self.patterns(),
            self.changed(),
        );
        assert(s7.colors() == s6.colors() && s7.patterns() == s6.patterns() && s7.changed()
            == s6.changed());
        assert(self.colors()[s7.ko_v.id()] == Color::Empty || s7.ko_v.id() == 442) by {
            if s7.ko_v.id() != 442 {
                assert(s7.ko_v.id() != v);
                assert(color_of(self.colors(), s7.ko_v.id()) == Color::Empty);
            }
        }
        lemma_joined_coarser(s7.colors(), s7.chain_ids(), self.colors(), self.chain_ids(), -1);
        assert(self.wf_alive()) by {
            reveal(alive_ok);
            assert forall|c: int|
                0 <= c < 443 && is_head(self.colors(), self.chain_ids(), c) implies (
            #[trigger] self.chain@[c]).lib_cnt != 0 by {
                assert(same_moments(self.chain@[c], s7.chain@[c]));
                assert(s6.chain@[c].lib_cnt != 0);
            }
        }
    }
}

/// The color that `colors` gives the vertex `u`.
pub open spec fn color_of(colors: Seq<Color>, u: int) -> Color {
    colors[u]
}

/// The stone that `nexts` links after the vertex `u`.
pub open spec fn next_of(nexts: Seq<Vertex>, u: int) -> int {
    nexts[u].id()
}

/// The head that `ids` gives the vertex `u`.
pub open spec fn head_of(ids: Seq<Vertex>, u: int) -> int {
    ids[u].id()
}

/// Gives every stone of the string of `start` the head `head`, walking the
/// cycle of the string once.
fn relabel_string(
    chain_id: &mut VertexMap<Vertex>,
    chain_next_v: &VertexMap<Vertex>,
    start: Vertex,
    head: Vertex,
    colors: Ghost<Seq<Color>>,
    recs: Ghost<Seq<Chain>>,
    order: Ghost<Seq<Seq<int>>>,
    place: Ghost<Seq<int>>,
)
    requires
        chains_ok(colors@, old(chain_id)@, chain_next_v@, recs@, order@, place@),
        0 <= start.id() < 443,
        colors@[start.id()].is_player(),
    ensures
        final(chain_id)@.len() == 443,
        forall|u: int|
            0 <= u < 443 ==> #[trigger] head_of(final(chain_id)@, u) == if colors@[u].is_player()
                && old(chain_id)@[u].id() == old(chain_id)@[start.id()].id() {
                head.id()
            } else {
                old(chain_id)@[u].id()
            },
{
    let ghost ids0 = chain_id@;
    let ghost a = start.id();
    let ghost ca = ids0[a].id();
    let ghost pa = place@[a];
    let ghost n = order@[ca].len() as int;
    proof {
        use_type_invariant(head);
        lemma_walk(colors@, ids0, chain_next_v@, recs@, order@, place@, a);
    }
    let mut current = start;
    let ghost k: int = 0;
    loop
        invariant_except_break
            0 <= k < n,
            0 <= current.id() < 443,
            colors@[current.id()].is_player(),
            ids0[current.id()].id() == ca,
            offset_in(place@[current.id()], pa, n) == k,
        invariant
            0 <= a < 443,
            a == start.id(),
            chains_ok(colors@, ids0, chain_next_v@, recs@, order@, place@),
            colors@[a].is_player(),
            ids0[a].id() == ca,
            pa == place@[a],
            0 <= pa < n,
            n == order@[ca].len(),
            chain_id@.len() == 443,
            ids0.len() == 443,
            forall|u: int|
                0 <= u < 443 ==> #[trigger] head_of(chain_id@, u) == if colors@[u].is_player()
                    && ids0[u].id() == ca && 0 <= offset_in(place@[u], pa, n) < k {
                    head.id()
                } else {
                    ids0[u].id()
                },
        ensures
            k == n,
        decreases n - k,
    {
        let ghost cur = current.id();
        proof {
            lemma_walk(colors@, ids0, chain_next_v@, recs@, order@, place@, cur);
        }
        let ghost ids_before = chain_id@;
        chain_id.set(current, head);
        current = chain_next_v.get(current);
        proof {
            use_type_invariant(current);
            Vertex::lemma_id_eq(current, start);
            assert forall|u: int| 0 <= u < 443 implies #[trigger] head_of(chain_id@, u)
                == if colors@[u].is_player() && ids0[u].id() == ca && 0 <= offset_in(
                place@[u],
                pa,
                n,
            ) < k + 1 {
                head.id()
            } else {
                ids0[u].id()
            } by {
                if u != cur && colors@[u].is_player() && ids0[u].id() == ca && offset_in(
                    place@[u],
                    pa,
                    n,
                ) == k {
                    lemma_walk(colors@, ids0, chain_next_v@, recs@, order@, place@, u);
                    lemma_same_place(colors@, ids0, chain_next_v@, recs@, order@, place@, u, cur);
                }
                assert(head_of(ids_before, u) == if colors@[u].is_player() && ids0[u].id() == ca
                    && 0 <= offset_in(place@[u], pa, n) < k {
                    head.id()
                } else {
                    ids0[u].id()
                });
                if u == cur {
                    assert(chain_id@[u] == head);
                } else {
                    assert(chain_id@[u] == ids_before[u]);
                }
            }
            if k + 1 == n {
                lemma_same_place(
                    colors@,
                    ids0,
                    chain_next_v@,
                    recs@,
                    order@,
                    place@,
                    current.id(),
                    a,
                );
            }
            k = k + 1;
        }
        if current == start {
            break;
        }
    }
    proof {
        assert forall|u: int| 0 <= u < 443 implies #[trigger] head_of(chain_id@, u)
            == if colors@[u].is_player() && ids0[u].id() == ca {
            head.id()
        } else {
            ids0[u].id()
        } by {
            if colors@[u].is_player() && ids0[u].id() == ca {
                lemma_walk(colors@, ids0, chain_next_v@, recs@, order@, place@, u);
            }
        }
    }
}

} // verus!
