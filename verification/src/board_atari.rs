//! How the atari flags of the fingerprints follow a move.

use crate::atari::{alive_but, atari_ok, flag_of, flag_ok, lemma_flag, rec_in_atari};
use crate::board::{Board, Chain};
use crate::board_play::{color_of, head_of};
use crate::hash::b2i;
use crate::joined::{lemma_coarser, same_head};
use crate::liberties::{
    alive_ok, chain_lib_list, chain_libs, lemma_chain_lib_list, lemma_lib_listed,
    lemma_libs_differ, lemma_libs_exists, lemma_libs_fill, lemma_libs_positive, lemma_libs_range,
    lemma_libs_same, lemma_libs_zero, lemma_touching_nbrs, lemma_witness, libs_ok, member,
    rec_matches, same_moments, stones_inside, touching,
};
use crate::moments::lemma_single_liberty;
use crate::position::is_head;
use crate::strings::{lemma_idle, lemma_walk};
use crate::types::{Color, Dir, Player, Vertex};
use crate::updates::adjacent;
use vstd::prelude::*;

verus! {

impl Board {
    /// The quotient of the sum and the count of the record kept at `c`.
    pub open(crate) spec fn point_of(&self, c: int) -> int {
        (self.chain@[c].lib_sum as int) / (self.chain@[c].lib_cnt as int)
    }

    /// A string in atari has one liberty: the quotient of the sum and the
    /// count of its record is an empty vertex, and every empty neighbor of
    /// every stone of the string is that vertex.
    pub(crate) proof fn lemma_atari_law(&self, c: int, u: int, e: int)
        requires
            self.wf_libs(),
            stones_inside(self.colors()),
            0 <= c < 443,
            is_head(self.colors(), self.chain_ids(), c),
            rec_in_atari(self.chain@[c]),
        ensures
            self.chain@[c].lib_sum % self.chain@[c].lib_cnt == 0,
            0 <= self.point_of(c) < 443,
            self.colors()[self.point_of(c)] == Color::Empty,
            (0 <= u < 443 && self.in_string(u, c) && adjacent(e, u) && self.colors()[e]
                == Color::Empty) ==> e == self.point_of(c),
    {
        reveal(libs_ok);
        let colors = self.colors();
        let ids = self.chain_ids();
        let rec = self.chain@[c];
        assert(rec_matches(colors, colors, ids, rec, c));
        let list = chain_lib_list(colors, colors, ids, c, 443);
        lemma_witness(colors, colors, ids, rec, c);
        lemma_chain_lib_list(colors, colors, ids, c, 443, 0);
        lemma_single_liberty(list, rec.lib_cnt as int, rec.lib_sum as int, rec.lib_sum2 as int);
        let a = rec.lib_sum as int / rec.lib_cnt as int;
        assert(list[0] == a);
        assert(colors[list[0]] == Color::Empty);
        if 0 <= u < 443 && self.in_string(u, c) && adjacent(e, u) && colors[e] == Color::Empty {
            lemma_lib_listed(colors, colors, ids, c, u, e, 443);
        }
    }

    /// A string with two liberties is not in atari.
    pub(crate) proof fn lemma_two_liberties(&self, c: int, u1: int, e1: int, u2: int, e2: int)
        requires
            self.wf_libs(),
            stones_inside(self.colors()),
            0 <= c < 443,
            is_head(self.colors(), self.chain_ids(), c),
            0 <= u1 < 443,
            0 <= u2 < 443,
            self.in_string(u1, c),
            self.in_string(u2, c),
            adjacent(e1, u1),
            adjacent(e2, u2),
            self.colors()[e1] == Color::Empty,
            self.colors()[e2] == Color::Empty,
            e1 != e2,
        ensures
            !rec_in_atari(self.chain@[c]),
    {
        if rec_in_atari(self.chain@[c]) {
            self.lemma_atari_law(c, u1, e1);
            self.lemma_atari_law(c, u2, e2);
        }
    }

    /// The strings whose flags the move of a stone on `v` has yet to set,
    /// after the first `d` neighbors of `v` were met: the string of `v`, and
    /// the strings that touch `v` at none of these neighbors.
    pub open(crate) spec fn dirty(&self, v: int, d: int) -> Set<int> {
        Set::new(
            |c: int|
                c == head_of(self.chain_id@, v) || (self.touches_upto(c, v, 4) && !self.touches_upto(
                    c,
                    v,
                    d,
                )),
        )
    }

    /// The atari flags are right but for the strings that are dirty after
    /// `d` neighbors of `v`, and the other strings have liberties.
    #[verifier::opaque]
    pub open(crate) spec fn flagged(&self, v: int, d: int) -> bool {
        &&& atari_ok(
            self.colors(),
            self.chain_ids(),
            self.chain_records(),
            self.patterns(),
            self.dirty(v, d),
        )
        &&& alive_but(self.colors(), self.chain_ids(), self.chain_records(), self.dirty(v, d))
    }

    /// The empty vertices of a well-formed board stand away from the rim of
    /// the grid, and their neighbors are vertices.
    pub(crate) proof fn lemma_empty_inside(&self, e: int)
        requires
            self.wf_geo(),
            0 <= e < 443,
            self.colors()[e] != Color::OffBoard,
        ensures
            22 <= e <= 418,
            forall|d: Dir| 0 <= e + #[trigger] d.offset() < 443,
            forall|d: Dir| d.spec_is_simple4() ==> adjacent(e, e + #[trigger] d.offset()),
    {
        self.lemma_on_board_of(e);
    }

    /// After the string of the stone on `nbr`, which has a liberty, was
    /// checked for atari, its flags are right.
    pub(crate) proof fn lemma_flags_atari(&self, a: &Board, nbr: int, da: Set<int>, db: Set<int>)
        requires
            atari_ok(a.colors(), a.chain_ids(), a.chain_records(), a.patterns(), da),
            alive_but(a.colors(), a.chain_ids(), a.chain_records(), da),
            a.wf_geo(),
            a.wf_libs(),
            a.wf_chains(),
            0 <= nbr < 443,
            a.colors()[nbr].is_player(),
            a.chain@[head_of(a.chain_id@, nbr)].lib_cnt != 0,
            self.colors() == a.colors(),
            self.chain_ids() == a.chain_ids(),
            forall|k: int| 0 <= k < 443 ==> same_moments(#[trigger] self.chain@[k], a.chain@[k]),
            if a.atari_found(nbr) {
                a.flags_set_at(self, a.atari_point(nbr), a.chain_id@[nbr], true)
            } else {
                self.hash3x3 == a.hash3x3
            },
            !db.contains(head_of(a.chain_id@, nbr)),
            forall|h: int| h != head_of(a.chain_id@, nbr) ==> db.contains(h) == da.contains(h),
        ensures
            atari_ok(self.colors(), self.chain_ids(), self.chain_records(), self.patterns(), db),
            alive_but(self.colors(), self.chain_ids(), self.chain_records(), db),
    {
        reveal(atari_ok);
        reveal(alive_but);
        reveal(Board::wf_geo);
        reveal(Board::wf_flat);
        a.lemma_stones_inside();
        a.lemma_lens();
        let c = head_of(a.chain_id@, nbr);
        lemma_walk(
            a.colors(),
            a.chain_id@,
            a.chain_next_v@,
            a.chain@,
            a.order@,
            a.place@,
            nbr,
        );
        assert(is_head(a.colors(), a.chain_ids(), c));
        assert(same_moments(self.chain@[c], a.chain@[c]));
        let found = a.atari_found(nbr);
        let l = a.atari_point(nbr);
        if rec_in_atari(a.chain@[c]) {
            a.lemma_atari_law(c, 0, 0);
            assert(found);
        }
        assert forall|e: int, d: Dir|
            0 <= e < 443 && self.colors()[e] == Color::Empty && d.spec_is_simple4() implies #[trigger] flag_ok(
            self.colors(),
            self.chain_ids(),
            self.chain_records(),
            self.patterns(),
            db,
            e,
            d,
        ) by {
            a.lemma_empty_inside(e);
            let n = e + d.offset();
            assert(flag_ok(
                a.colors(),
                a.chain_ids(),
                a.chain_records(),
                a.patterns(),
                da,
                e,
                d,
            ));
            Vertex::lemma_id_eq(a.chain_id@[n], a.chain_id@[nbr]);
            if a.colors()[n].is_player() {
                lemma_walk(
                    a.colors(),
                    a.chain_id@,
                    a.chain_next_v@,
                    a.chain@,
                    a.order@,
                    a.place@,
                    n,
                );
                let h = head_of(a.chain_id@, n);
                assert(same_moments(self.chain@[h], a.chain@[h]));
                if h == c {
                    if rec_in_atari(a.chain@[c]) {
                        a.lemma_atari_law(c, n, e);
                        assert(e == l);
                    }
                }
            } else {
                lemma_idle(
                    a.colors(),
                    a.chain_id@,
                    a.chain_next_v@,
                    a.chain@,
                    a.order@,
                    a.place@,
                    n,
                );
            }
            if found && e == l {
            } else {
                assert(self.patterns()[e] == a.patterns()[e]);
            }
        }
        assert forall|h: int|
            0 <= h < 443 && is_head(self.colors(), self.chain_ids(), h) && !db.contains(h) implies (
        #[trigger] self.chain_records()[h]).lib_cnt != 0 by {
            assert(same_moments(self.chain@[h], a.chain@[h]));
        }
    }

    /// The neighbor of `v` number `d`, in the order in which a move meets
    /// them.
    pub open(crate) spec fn nbr_of(v: int, d: int) -> int {
        if d == 0 {
            v - 21
        } else if d == 1 {
            v - 1
        } else if d == 2 {
            v + 1
        } else {
            v + 21
        }
    }

    /// Meeting a neighbor that is no stone changes nothing.
    pub(crate) proof fn lemma_flags_none(&self, v: int, d: int)
        requires
            self.flagged(v, d),
            0 <= d < 4,
            !self.colors()[Self::nbr_of(v, d)].is_player(),
        ensures
            self.flagged(v, d + 1),
    {
        reveal(Board::flagged);
        assert(self.dirty(v, d + 1) =~= self.dirty(v, d));
    }

    /// After the string of the neighbor number `d` of `v`, a string of the
    /// color of the stone on `v`, was joined with the string of `v`, the
    /// flags are as right as before.
    pub(crate) proof fn lemma_flags_joined(&self, a: &Board, player: Player, v: int, d: int)
        requires
            a.flagged(v, d),
            0 <= d < 4,
            22 <= v <= 418,
            a.wf_geo(),
            a.wf_chains(),
            self.wf_chains(),
            a.lens_ok(),
            a.colors()[v] == Color::of_player(player),
            a.colors()[Self::nbr_of(v, d)] == Color::of_player(player),
            self.colors() == a.colors(),
            self.patterns() == a.patterns(),
            // The neighbors met before are in the string of `v` if they are
            // of its color.
            forall|i: int|
                0 <= i < d && a.colors()[Self::nbr_of(v, i)] == Color::of_player(player)
                    ==> #[trigger] same_head(a.chain_ids(), Self::nbr_of(v, i), v),
            // The two strings are one now, with one of the two heads, and
            // the sums of the records; nothing else has changed.
            same_head(self.chain_ids(), Self::nbr_of(v, d), v),
            head_of(self.chain_id@, v) == head_of(a.chain_id@, v) || head_of(self.chain_id@, v)
                == head_of(a.chain_id@, Self::nbr_of(v, d)),
            forall|u: int|
                0 <= u < 443 && a.colors()[u].is_player() ==> #[trigger] head_of(self.chain_id@, u)
                    == if head_of(a.chain_id@, u) == head_of(a.chain_id@, v) || head_of(
                    a.chain_id@,
                    u,
                ) == head_of(a.chain_id@, Self::nbr_of(v, d)) {
                    head_of(self.chain_id@, v)
                } else {
                    head_of(a.chain_id@, u)
                },
            forall|k: int|
                0 <= k < 443 && k != head_of(self.chain_id@, v) ==> #[trigger] self.chain@[k]
                    == a.chain@[k],
        ensures
            self.flagged(v, d + 1),
    {
        reveal(Board::flagged);
        reveal(atari_ok);
        reveal(alive_but);
        let da = a.dirty(v, d);
        let db = self.dirty(v, d + 1);
        let own = Color::of_player(player);
        let n_d = Self::nbr_of(v, d);
        let hv = head_of(a.chain_id@, v);
        let hn = head_of(a.chain_id@, n_d);
        let hb = head_of(self.chain_id@, v);
        lemma_walk(a.colors(), a.chain_id@, a.chain_next_v@, a.chain@, a.order@, a.place@, v);
        lemma_walk(a.colors(), a.chain_id@, a.chain_next_v@, a.chain@, a.order@, a.place@, n_d);
        // The two heads were dirty.
        assert(da.contains(hv));
        assert(da.contains(hn)) by {
            if hn != hv {
                assert(a.in_string(n_d, hn));
                assert(a.touches_upto(hn, v, 4));
                if a.touches_upto(hn, v, d) {
                    let i = if d >= 1 && a.in_string(v - 21, hn) {
                        0int
                    } else if d >= 2 && a.in_string(v - 1, hn) {
                        1int
                    } else {
                        2int
                    };
                    assert(a.in_string(Self::nbr_of(v, i), hn));
                    lemma_walk(
                        a.colors(),
                        a.chain_id@,
                        a.chain_next_v@,
                        a.chain@,
                        a.order@,
                        a.place@,
                        Self::nbr_of(v, i),
                    );
                    assert(a.colors()[Self::nbr_of(v, i)] == own);
                    assert(same_head(a.chain_ids(), Self::nbr_of(v, i), v));
                    assert(false);
                }
            }
        }
        // A stone whose string is clean now had the same head, which was
        // clean.
        assert forall|u: int|
            0 <= u < 443 && self.colors()[u].is_player() && !db.contains(
                #[trigger] head_of(self.chain_id@, u),
            ) implies head_of(self.chain_id@, u) == head_of(a.chain_id@, u) && !da.contains(
            head_of(a.chain_id@, u),
        ) && self.chain@[head_of(self.chain_id@, u)] == a.chain@[head_of(a.chain_id@, u)] by {
            let h = head_of(a.chain_id@, u);
            assert(head_of(self.chain_id@, u) == if h == hv || h == hn {
                hb
            } else {
                h
            });
            assert(db.contains(hb));
            assert(h != hv && h != hn);
            lemma_walk(a.colors(), a.chain_id@, a.chain_next_v@, a.chain@, a.order@, a.place@, u);
            assert(h != hb);
            assert forall|y: int| 0 <= y < 443 implies self.in_string(y, h) == a.in_string(y, h) by {
                if a.colors()[y].is_player() {
                    assert(head_of(self.chain_id@, y) == if head_of(a.chain_id@, y) == hv
                        || head_of(a.chain_id@, y) == hn {
                        hb
                    } else {
                        head_of(a.chain_id@, y)
                    });
                }
            }
            assert(!a.in_string(n_d, h));
            assert(self.touches_upto(h, v, 4) == a.touches_upto(h, v, 4));
            assert(self.touches_upto(h, v, d + 1) == a.touches_upto(h, v, d));
        }
        assert forall|e: int, dd: Dir|
            0 <= e < 443 && self.colors()[e] == Color::Empty && dd.spec_is_simple4() implies #[trigger] flag_ok(
            self.colors(),
            self.chain_ids(),
            self.chain_records(),
            self.patterns(),
            db,
            e,
            dd,
        ) by {
            let n = e + dd.offset();
            a.lemma_empty_inside(e);
            assert(0 <= n < 443);
            assert(flag_ok(
                a.colors(),
                a.chain_ids(),
                a.chain_records(),
                a.patterns(),
                da,
                e,
                dd,
            ));
            if a.colors()[n].is_player() {
                let h = head_of(a.chain_id@, n);
                lemma_walk(
                    a.colors(),
                    a.chain_id@,
                    a.chain_next_v@,
                    a.chain@,
                    a.order@,
                    a.place@,
                    n,
                );
                assert(head_of(self.chain_id@, n) == if h == hv || h == hn {
                    hb
                } else {
                    h
                });
                if !db.contains(head_of(self.chain_id@, n)) {
                    assert(head_of(self.chain_id@, n) == h && !da.contains(h) && self.chain@[h]
                        == a.chain@[h]);
                }
                if db.contains(head_of(self.chain_id@, n)) {
                    if h == hv || h == hn {
                    } else {
                        assert(self.in_string(n, h));
                        assert forall|y: int| 0 <= y < 443 implies self.in_string(y, h)
                            == a.in_string(y, h) by {
                            if a.colors()[y].is_player() {
                                assert(head_of(self.chain_id@, y) == if head_of(a.chain_id@, y)
                                    == hv || head_of(a.chain_id@, y) == hn {
                                    hb
                                } else {
                                    head_of(a.chain_id@, y)
                                });
                            }
                        }
                        assert(h != hb) by {
                            lemma_walk(
                                a.colors(),
                                a.chain_id@,
                                a.chain_next_v@,
                                a.chain@,
                                a.order@,
                                a.place@,
                                n,
                            );
                        }
                        assert(a.touches_upto(h, v, 4));
                        assert(!a.touches_upto(h, v, d));
                        assert(da.contains(h));
                    }
                }
            }
        }
        assert forall|h: int|
            0 <= h < 443 && is_head(self.colors(), self.chain_ids(), h) && !db.contains(h) implies (
        #[trigger] self.chain_records()[h]).lib_cnt != 0 by {
            assert(head_of(self.chain_id@, h) == h);
            assert(head_of(a.chain_id@, h) == h);
            assert(is_head(a.colors(), a.chain_ids(), h));
        }
    }

    /// Whether two records count the same liberties.
    pub open(crate) spec fn same_libs(a: Chain, b: Chain) -> bool {
        a.lib_cnt == b.lib_cnt && a.lib_sum == b.lib_sum && a.lib_sum2 == b.lib_sum2
    }

    /// A string that does not touch the vertex `v` counts the same liberties
    /// after a stone was put on `v`.
    pub(crate) proof fn lemma_placed_far(&self, o: &Board, player: Player, v: Vertex, h: int)
        requires
            o.wf_geo(),
            o.wf_chains(),
            o.wf_libs(),
            o.colors()[v.id()] == Color::Empty,
            self.colors() == o.colors().update(v.id(), Color::of_player(player)),
            self.chain_ids() == o.chain_ids().update(v.id(), v),
            self.wf_libs(),
            0 <= v.id() < 443,
            0 <= h < 443,
            is_head(o.colors(), o.chain_ids(), h),
            o.touch_count(h, v.id()) == 0,
        ensures
            Self::same_libs(self.chain@[h], o.chain@[h]),
    {
        reveal(libs_ok);
        reveal(Board::wf_geo);
        reveal(Board::wf_flat);
        o.lemma_stones_inside();
        o.lemma_lens();
        let id = v.id();
        o.lemma_on_board_of(id);
        let c0 = o.colors();
        let c1 = self.colors();
        let ids0 = o.chain_ids();
        let ids1 = self.chain_ids();
        assert(rec_matches(c0, c0, ids0, o.chain@[h], h));
        assert(is_head(c1, ids1, h));
        assert(rec_matches(c1, c1, ids1, self.chain@[h], h));
        assert forall|u: int| 0 <= u < 443 implies member(c0, ids0, u, h) == #[trigger] member(
            c1,
            ids1,
            u,
            h,
        ) by {}
        let own = Color::of_player(player);
        assert forall|k: int| 0 <= k <= 2 implies #[trigger] chain_libs(c1, c1, ids1, h, 443, k)
            == chain_libs(c0, c0, ids0, h, 443, k) by {
            lemma_libs_same(c1, c0, ids0, c1, ids1, h, 443, k);
            lemma_libs_fill(c0, c0, ids0, h, id, own, 443, k);
            lemma_touching_nbrs(c0, ids0, h, id, 443, k);
        }
        assert(chain_libs(c1, c1, ids1, h, 443, 0) == chain_libs(c0, c0, ids0, h, 443, 0));
        assert(chain_libs(c1, c1, ids1, h, 443, 1) == chain_libs(c0, c0, ids0, h, 443, 1));
        assert(chain_libs(c1, c1, ids1, h, 443, 2) == chain_libs(c0, c0, ids0, h, 443, 2));
    }

    /// After a stone was put on the empty vertex `v` of the board `o`, the
    /// flags are right but for the strings that touch `v`.
    pub(crate) proof fn lemma_flags_placed(&self, o: &Board, player: Player, v: Vertex)
        requires
            o.wf_geo(),
            o.wf_chains(),
            o.wf_libs(),
            o.wf_alive(),
            atari_ok(
                o.colors(),
                o.chain_ids(),
                o.chain_records(),
                o.patterns(),
                Set::<int>::empty(),
            ),
            o.colors()[v.id()] == Color::Empty,
            0 <= v.id() < 443,
            self.colors() == o.colors().update(v.id(), Color::of_player(player)),
            self.chain_ids() == o.chain_ids().update(v.id(), v),
            self.wf_libs(),
            self.wf_chains(),
            forall|e: int, d: Dir|
                0 <= e < 443 ==> #[trigger] flag_of(self.patterns(), e, d) == flag_of(
                    o.patterns(),
                    e,
                    d,
                ),
        ensures
            self.flagged(v.id(), 0),
    {
        reveal(Board::flagged);
        reveal(atari_ok);
        reveal(alive_but);
        reveal(alive_ok);
        reveal(Board::wf_geo);
        reveal(Board::wf_flat);
        o.lemma_stones_inside();
        o.lemma_lens();
        let id = v.id();
        o.lemma_on_board_of(id);
        let dirty = self.dirty(id, 0);
        let none = Set::<int>::empty();
        assert(head_of(self.chain_id@, id) == id);
        // A string of `o` is a string now, with the same stones; it is
        // dirty if it touches `v`, and counts the same liberties if not.
        assert forall|h: int|
            0 <= h < 443 && #[trigger] is_head(o.colors(), o.chain_ids(), h) implies h != id
            && is_head(self.colors(), self.chain_ids(), h) && (dirty.contains(h) == (o.touch_count(
            h,
            id,
        ) >= 1)) && (!dirty.contains(h) ==> Self::same_libs(self.chain@[h], o.chain@[h])) by {
            assert forall|y: int| 0 <= y < 443 && y != id implies self.in_string(y, h)
                == o.in_string(y, h) by {}
            assert(self.in_string(id - 21, h) == o.in_string(id - 21, h));
            assert(self.in_string(id - 1, h) == o.in_string(id - 1, h));
            assert(self.in_string(id + 1, h) == o.in_string(id + 1, h));
            assert(self.in_string(id + 21, h) == o.in_string(id + 21, h));
            assert(!self.touches_upto(h, id, 0));
            if o.touch_count(h, id) == 0 {
                self.lemma_placed_far(o, player, v, h);
            }
        }
        assert forall|e: int, d: Dir|
            0 <= e < 443 && self.colors()[e] == Color::Empty && d.spec_is_simple4() implies #[trigger] flag_ok(
            self.colors(),
            self.chain_ids(),
            self.chain_records(),
            self.patterns(),
            dirty,
            e,
            d,
        ) by {
            assert(e != id);
            o.lemma_empty_inside(e);
            let n = e + d.offset();
            assert(flag_ok(
                o.colors(),
                o.chain_ids(),
                o.chain_records(),
                o.patterns(),
                none,
                e,
                d,
            ));
            assert(flag_of(self.patterns(), e, d) == flag_of(o.patterns(), e, d));
            if n == id {
                assert(dirty.contains(id));
            } else if o.colors()[n].is_player() {
                lemma_walk(
                    o.colors(),
                    o.chain_id@,
                    o.chain_next_v@,
                    o.chain@,
                    o.order@,
                    o.place@,
                    n,
                );
                let h = head_of(o.chain_id@, n);
                assert(is_head(o.colors(), o.chain_ids(), h));
                assert(head_of(self.chain_id@, n) == h);
                if dirty.contains(h) {
                    if rec_in_atari(o.chain@[h]) {
                        let y = if o.in_string(id - 21, h) {
                            id - 21
                        } else if o.in_string(id - 1, h) {
                            id - 1
                        } else if o.in_string(id + 1, h) {
                            id + 1
                        } else {
                            id + 21
                        };
                        assert(o.in_string(y, h));
                        o.lemma_atari_law(h, y, id);
                        o.lemma_atari_law(h, n, e);
                        assert(false);
                    }
                } else {
                    assert(Self::same_libs(self.chain@[h], o.chain@[h]));
                }
            }
        }
        assert forall|h: int|
            0 <= h < 443 && is_head(self.colors(), self.chain_ids(), h) && !dirty.contains(
                h,
            ) implies (#[trigger] self.chain_records()[h]).lib_cnt != 0 by {
            assert(h != id);
            assert(is_head(o.colors(), o.chain_ids(), h));
            assert(o.chain@[h].lib_cnt != 0);
        }
    }

    /// The flags that empty vertices of `snap` hold for the stones of the
    /// string with the head `c` are those of `snap`.
    pub open(crate) spec fn flags_kept(&self, snap: &Board, c: int) -> bool {
        forall|e: int, d: Dir|
            0 <= e < 443 && d.spec_is_simple4() && snap.colors()[e] == Color::Empty
                && self.in_string(e + d.offset(), c) ==> #[trigger] flag_of(self.patterns(), e, d)
                == flag_of(snap.patterns(), e, d)
    }

    /// The flags that empty vertices of `snap` hold for the stones of the
    /// string with the head `c` are down.
    pub open(crate) spec fn flags_down(&self, snap: &Board, c: int) -> bool {
        forall|e: int, d: Dir|
            0 <= e < 443 && d.spec_is_simple4() && snap.colors()[e] == Color::Empty
                && self.in_string(e + d.offset(), c) ==> !#[trigger] flag_of(self.patterns(), e, d)
    }

    /// What the capture of a string has made of the record and the flags of
    /// the string with the head `c` so far: it counts no fewer liberties than
    /// in `snap`; as long as it counts as many, it counts the same, and its
    /// flags are those of `snap`; once it counts more, its flags are down, if
    /// they were right in `snap`.
    pub open(crate) spec fn lowered_for(&self, snap: &Board, dirty: Set<int>, c: int) -> bool {
        &&& self.chain@[c].lib_cnt >= snap.chain@[c].lib_cnt
        &&& (self.chain@[c].lib_cnt == snap.chain@[c].lib_cnt ==> Self::same_libs(
            self.chain@[c],
            snap.chain@[c],
        ) && self.flags_kept(snap, c))
        &&& (self.chain@[c].lib_cnt != snap.chain@[c].lib_cnt && !dirty.contains(c)
            ==> self.flags_down(snap, c))
    }

    /// What the capture of the string with the head `cx` has made of the
    /// flags so far: flags were lowered only, those of the captured stones
    /// are down, and every string is as `lowered_for` says.
    #[verifier::opaque]
    pub open(crate) spec fn lowered(&self, snap: &Board, cx: int, dirty: Set<int>) -> bool {
        &&& forall|e: int, d: Dir|
            0 <= e < 443 && d.spec_is_simple4() && #[trigger] flag_of(self.patterns(), e, d)
                ==> flag_of(snap.patterns(), e, d) && !snap.in_string(e, cx)
        &&& forall|c: int|
            0 <= c < 443 && is_head(self.colors(), self.chain_ids(), c)
                ==> #[trigger] self.lowered_for(snap, dirty, c)
    }

    /// The stones that stand while the string with the head `cx` leaves the
    /// board `snap` are stones of `snap` outside that string, with their
    /// heads; the empty vertices of `snap` are empty; and a vertex without a
    /// stone is its own head.
    pub open(crate) spec fn remains_of(&self, snap: &Board, cx: int) -> bool {
        &&& forall|u: int|
            0 <= u < 443 && (#[trigger] self.colors()[u]).is_player() ==> snap.colors()[u]
                == self.colors()[u] && head_of(self.chain_id@, u) == head_of(snap.chain_id@, u)
                && !snap.in_string(u, cx) && 0 <= head_of(self.chain_id@, u) < 443 && is_head(
                self.colors(),
                self.chain_ids(),
                head_of(self.chain_id@, u),
            )
        &&& forall|u: int|
            0 <= u < 443 && #[trigger] snap.colors()[u] == Color::Empty ==> self.colors()[u]
                == Color::Empty
        &&& forall|u: int|
            0 <= u < 443 && !(#[trigger] self.colors()[u]).is_player() ==> head_of(
                self.chain_id@,
                u,
            ) == u
    }

    /// Before a neighbor of a captured stone has counted the new liberty,
    /// the flags are those of `snap` but for the captured stones, whose
    /// flags are down.
    pub(crate) proof fn lemma_lowered_start(&self, snap: &Board, cx: int, dirty: Set<int>)
        requires
            self.remains_of(snap, cx),
            self.chain == snap.chain,
            forall|e: int, d: Dir|
                0 <= e < 443 && d.spec_is_simple4() ==> #[trigger] flag_of(self.patterns(), e, d)
                    == if snap.in_string(e, cx) {
                    false
                } else {
                    flag_of(snap.patterns(), e, d)
                },
        ensures
            self.lowered(snap, cx, dirty),
    {
        reveal(Board::lowered);
        assert forall|c: int|
            0 <= c < 443 && is_head(self.colors(), self.chain_ids(), c) implies #[trigger] self.lowered_for(
            snap,
            dirty,
            c,
        ) by {
            assert forall|e: int, d: Dir|
                0 <= e < 443 && d.spec_is_simple4() && snap.colors()[e] == Color::Empty
                    && self.in_string(e + d.offset(), c) implies #[trigger] flag_of(
                self.patterns(),
                e,
                d,
            ) == flag_of(snap.patterns(), e, d) by {}
        }
    }

    /// One neighbor `nbr` of the captured stone on `x` has left atari, if it
    /// was in atari, and counted `x` as a liberty.
    pub(crate) proof fn lemma_lowered_step(
        &self,
        a: &Board,
        snap: &Board,
        cx: int,
        dirty: Set<int>,
        x: int,
        nbr: int,
    )
        requires
            a.lowered(snap, cx, dirty),
            a.remains_of(snap, cx),
            self.colors() == a.colors(),
            self.chain_ids() == a.chain_ids(),
            0 <= nbr < 443,
            0 <= x < 443,
            if a.atari_found(nbr) {
                a.flags_set_at(self, a.atari_point(nbr), a.chain_id@[nbr], false)
            } else {
                self.hash3x3 == a.hash3x3
            },
            forall|k: int|
                0 <= k < 443 ==> same_moments(
                    #[trigger] self.chain@[k],
                    if k == head_of(a.chain_id@, nbr) {
                        a.chain@[k].lib_added(x)
                    } else {
                        a.chain@[k]
                    },
                ),
            a.colors()[nbr].is_player() ==> self.chain@[head_of(a.chain_id@, nbr)].lib_cnt
                == a.chain@[head_of(a.chain_id@, nbr)].lib_cnt + 1,
            atari_ok(
                snap.colors(),
                snap.chain_ids(),
                snap.chain_records(),
                snap.patterns(),
                dirty,
            ),
            alive_but(snap.colors(), snap.chain_ids(), snap.chain_records(), dirty),
            snap.wf_geo(),
            snap.wf_libs(),
            snap.wf_chains(),
        ensures
            self.lowered(snap, cx, dirty),
    {
        reveal(Board::lowered);
        reveal(alive_but);
        reveal(Board::wf_geo);
        reveal(Board::wf_flat);
        snap.lemma_stones_inside();
        snap.lemma_lens();
        a.lemma_lens();
        self.lemma_lens();
        let t = head_of(a.chain_id@, nbr);
        let found = a.atari_found(nbr);
        let l = a.atari_point(nbr);
        // Flags are lowered only.
        assert forall|e: int, d: Dir|
            0 <= e < 443 && d.spec_is_simple4() && #[trigger] flag_of(
                self.patterns(),
                e,
                d,
            ) implies flag_of(a.patterns(), e, d) by {
            if found && e == l {
            } else {
                assert(self.patterns()[e] == a.patterns()[e]);
            }
        }
        assert forall|c: int|
            0 <= c < 443 && is_head(self.colors(), self.chain_ids(), c) implies #[trigger] self.lowered_for(
            snap,
            dirty,
            c,
        ) by {
            assert(a.lowered_for(snap, dirty, c));
            assert(same_moments(self.chain@[c], if c == t {
                a.chain@[c].lib_added(x)
            } else {
                a.chain@[c]
            }));
            assert(a.colors()[c].is_player());
            if c == t && a.colors()[nbr].is_player() {
                assert(self.chain@[c].lib_cnt == a.chain@[c].lib_cnt + 1);
                if !dirty.contains(c) {
                    assert forall|e: int, d: Dir|
                        0 <= e < 443 && d.spec_is_simple4() && snap.colors()[e] == Color::Empty
                            && self.in_string(e + d.offset(), c) implies !#[trigger] flag_of(
                        self.patterns(),
                        e,
                        d,
                    ) by {
                        let n = e + d.offset();
                        snap.lemma_empty_inside(e);
                        if a.chain@[c].lib_cnt != snap.chain@[c].lib_cnt {
                            assert(a.flags_down(snap, c));
                            assert(!flag_of(a.patterns(), e, d));
                        } else {
                            assert(a.flags_kept(snap, c));
                            assert(flag_of(a.patterns(), e, d) == flag_of(snap.patterns(), e, d));
                            lemma_flag(
                                snap.colors(),
                                snap.chain_ids(),
                                snap.chain_records(),
                                snap.patterns(),
                                dirty,
                                e,
                                d,
                            );
                            assert(a.colors()[n].is_player());
                            assert(snap.colors()[n].is_player());
                            assert(head_of(snap.chain_id@, n) == c);
                            assert(is_head(snap.colors(), snap.chain_ids(), c)) by {
                                lemma_walk(
                                    snap.colors(),
                                    snap.chain_id@,
                                    snap.chain_next_v@,
                                    snap.chain@,
                                    snap.order@,
                                    snap.place@,
                                    n,
                                );
                            }
                            if rec_in_atari(snap.chain@[c]) {
                                snap.lemma_atari_law(c, n, e);
                                assert(snap.point_of(c) == e);
                                assert(a.colors()[nbr].is_player());
                                assert(Self::same_libs(a.chain@[c], snap.chain@[c]));
                                assert(a.atari_point(nbr) == e);
                                assert(a.colors()[e] == Color::Empty);
                                assert(found);
                                Vertex::lemma_id_eq(a.chain_id@[n], a.chain_id@[nbr]);
                                assert(head_of(a.chain_id@, n) == c);
                                assert(a.chain_id@[n] == a.chain_id@[nbr]);
                            } else {
                                assert(!flag_of(snap.patterns(), e, d));
                            }
                        }
                    }
                }
            } else {
                // The record of the string is as it was.
                assert(Self::same_libs(self.chain@[c], a.chain@[c])) by {
                    if c == t {
                        assert(head_of(a.chain_id@, nbr) == nbr);
                        assert(false);
                    }
                }
                assert forall|e: int, d: Dir|
                    0 <= e < 443 && d.spec_is_simple4() && snap.colors()[e] == Color::Empty
                        && self.in_string(e + d.offset(), c) implies #[trigger] flag_of(
                    self.patterns(),
                    e,
                    d,
                ) == flag_of(a.patterns(), e, d) by {
                    let n = e + d.offset();
                    snap.lemma_empty_inside(e);
                    if found && e == l {
                        Vertex::lemma_id_eq(a.chain_id@[n], a.chain_id@[nbr]);
                        assert(head_of(a.chain_id@, n) == c);
                        if a.colors()[nbr].is_player() {
                            assert(c != t);
                        } else {
                            assert(head_of(a.chain_id@, nbr) == nbr);
                            assert(c != nbr);
                        }
                    } else {
                        assert(self.patterns()[e] == a.patterns()[e]);
                    }
                }
                if self.chain@[c].lib_cnt == snap.chain@[c].lib_cnt {
                    assert(a.flags_kept(snap, c));
                    assert(self.flags_kept(snap, c)) by {
                        assert forall|e: int, d: Dir|
                            0 <= e < 443 && d.spec_is_simple4() && snap.colors()[e]
                                == Color::Empty && self.in_string(
                                e + d.offset(),
                                c,
                            ) implies #[trigger] flag_of(self.patterns(), e, d) == flag_of(
                            snap.patterns(),
                            e,
                            d,
                        ) by {
                            assert(flag_of(self.patterns(), e, d) == flag_of(a.patterns(), e, d));
                            assert(flag_of(a.patterns(), e, d) == flag_of(snap.patterns(), e, d));
                        }
                    }
                } else if !dirty.contains(c) {
                    assert(a.flags_down(snap, c));
                    assert(self.flags_down(snap, c)) by {
                        assert forall|e: int, d: Dir|
                            0 <= e < 443 && d.spec_is_simple4() && snap.colors()[e]
                                == Color::Empty && self.in_string(
                                e + d.offset(),
                                c,
                            ) implies !#[trigger] flag_of(self.patterns(), e, d) by {
                            assert(flag_of(self.patterns(), e, d) == flag_of(a.patterns(), e, d));
                            assert(!flag_of(a.patterns(), e, d));
                        }
                    }
                }
            }
        }
    }

    /// A string that stands after the string with the head `cx` was taken
    /// off the board `a` stood before with the same stones, and it is dirty
    /// after the neighbor number `d` of `v`, a stone of the captured string,
    /// exactly if it was dirty before it.
    pub(crate) proof fn lemma_captured_heads(&self, a: &Board, v: int, d: int, cx: int, h: int)
        requires
            0 <= d < 4,
            22 <= v <= 418,
            0 <= h < 443,
            a.in_string(Self::nbr_of(v, d), cx),
            !a.in_string(v, cx),
            is_head(self.colors(), self.chain_ids(), h),
            forall|u: int|
                0 <= u < 443 ==> #[trigger] color_of(self.colors(), u) == if a.in_string(u, cx) {
                    Color::Empty
                } else {
                    a.colors()[u]
                },
            forall|u: int|
                0 <= u < 443 ==> #[trigger] head_of(self.chain_id@, u) == if a.in_string(u, cx) {
                    u
                } else {
                    a.chain_id@[u].id()
                },
        ensures
            is_head(a.colors(), a.chain_ids(), h),
            h != cx,
            forall|y: int| 0 <= y < 443 ==> self.in_string(y, h) == a.in_string(y, h),
            self.dirty(v, d + 1).contains(h) == a.dirty(v, d).contains(h),
    {
        assert(color_of(self.colors(), h) == self.colors()[h]);
        assert(head_of(self.chain_id@, h) == h);
        assert forall|y: int| 0 <= y < 443 implies self.in_string(y, h) == a.in_string(y, h) by {
            assert(color_of(self.colors(), y) == self.colors()[y]);
            assert(head_of(self.chain_id@, y) == self.chain_id@[y].id());
        }
        assert(head_of(self.chain_id@, v) == head_of(a.chain_id@, v));
        assert(self.in_string(v - 21, h) == a.in_string(v - 21, h));
        assert(self.in_string(v - 1, h) == a.in_string(v - 1, h));
        assert(self.in_string(v + 1, h) == a.in_string(v + 1, h));
        assert(self.in_string(v + 21, h) == a.in_string(v + 21, h));
        assert(!a.in_string(Self::nbr_of(v, d), h));
    }

    /// After the string of the neighbor number `d` of `v`, a string of the
    /// opponent without liberties, was taken off the board, the flags are as
    /// right as before.
    pub(crate) proof fn lemma_flags_captured(&self, a: &Board, player: Player, v: int, d: int)
        requires
            a.flagged(v, d),
            0 <= d < 4,
            22 <= v <= 418,
            a.wf_geo(),
            a.wf_chains(),
            a.wf_libs(),
            self.wf_geo(),
            self.wf_chains(),
            self.wf_libs(),
            a.colors()[v] == Color::of_player(player),
            a.to_capture(player, Self::nbr_of(v, d)),
            self.lowered(a, head_of(a.chain_id@, Self::nbr_of(v, d)), a.dirty(v, d)),
            forall|u: int|
                0 <= u < 443 ==> #[trigger] color_of(self.colors(), u) == if a.in_string(
                    u,
                    head_of(a.chain_id@, Self::nbr_of(v, d)),
                ) {
                    Color::Empty
                } else {
                    a.colors()[u]
                },
            forall|u: int|
                0 <= u < 443 ==> #[trigger] head_of(self.chain_id@, u) == if a.in_string(
                    u,
                    head_of(a.chain_id@, Self::nbr_of(v, d)),
                ) {
                    u
                } else {
                    a.chain_id@[u].id()
                },
        ensures
            self.flagged(v, d + 1),
    {
        reveal(Board::flagged);
        reveal(atari_ok);
        reveal(alive_but);
        reveal(Board::lowered);
        reveal(libs_ok);
        reveal(Board::wf_geo);
        reveal(Board::wf_flat);
        a.lemma_stones_inside();
        self.lemma_stones_inside();
        a.lemma_lens();
        self.lemma_lens();
        let nbr = Self::nbr_of(v, d);
        let cx = head_of(a.chain_id@, nbr);
        let da = a.dirty(v, d);
        let db = self.dirty(v, d + 1);
        lemma_walk(a.colors(), a.chain_id@, a.chain_next_v@, a.chain@, a.order@, a.place@, nbr);
        lemma_walk(a.colors(), a.chain_id@, a.chain_next_v@, a.chain@, a.order@, a.place@, v);
        assert(a.in_string(nbr, cx));
        assert(!a.in_string(v, cx)) by {
            if a.in_string(v, cx) {
                assert(a.colors()[cx] == a.colors()[v]);
                assert(a.colors()[cx] == a.colors()[nbr]);
                assert(false);
            }
        }
        assert(is_head(a.colors(), a.chain_ids(), cx));
        assert(rec_matches(a.colors(), a.colors(), a.chain_ids(), a.chain@[cx], cx));
        assert forall|e: int, dd: Dir|
            0 <= e < 443 && self.colors()[e] == Color::Empty && dd.spec_is_simple4() implies #[trigger] flag_ok(
            self.colors(),
            self.chain_ids(),
            self.chain_records(),
            self.patterns(),
            db,
            e,
            dd,
        ) by {
            self.lemma_empty_inside(e);
            let n = e + dd.offset();
            assert(0 <= n < 443);
            assert(adjacent(e, n));
            assert(color_of(self.colors(), e) == self.colors()[e]);
            assert(color_of(self.colors(), n) == self.colors()[n]);
            assert(head_of(self.chain_id@, n) == self.chain_id@[n].id());
            let fb = flag_of(self.patterns(), e, dd);
            if a.in_string(e, cx) {
                assert(!fb);
                if self.colors()[n].is_player() {
                    let h = head_of(self.chain_id@, n);
                    lemma_walk(
                        self.colors(),
                        self.chain_id@,
                        self.chain_next_v@,
                        self.chain@,
                        self.order@,
                        self.place@,
                        n,
                    );
                    assert(is_head(self.colors(), self.chain_ids(), h));
                    self.lemma_captured_heads(a, v, d, cx, h);
                    if !db.contains(h) {
                        assert(a.chain_records()[h].lib_cnt != 0);
                        assert(rec_matches(a.colors(), a.colors(), a.chain_ids(), a.chain@[h], h));
                        let wf = lemma_libs_exists(a.colors(), a.colors(), a.chain_ids(), h, 443);
                        let w = wf.0;
                        let f = wf.1;
                        assert(a.in_string(w, h));
                        assert(self.in_string(w, h));
                        assert(22 <= w <= 418);
                        assert(color_of(self.colors(), f) == self.colors()[f]);
                        assert(self.in_string(n, h));
                        self.lemma_two_liberties(h, n, e, w, f);
                    }
                }
            } else {
                assert(a.colors()[e] == Color::Empty);
                lemma_flag(a.colors(), a.chain_ids(), a.chain_records(), a.patterns(), da, e, dd);
                let fa = flag_of(a.patterns(), e, dd);
                assert(fb ==> fa);
                if a.in_string(n, cx) {
                    lemma_libs_positive(a.colors(), a.colors(), a.chain_ids(), cx, n, e, 443);
                    assert(false);
                } else if a.colors()[n].is_player() {
                    let h = head_of(a.chain_id@, n);
                    lemma_walk(
                        a.colors(),
                        a.chain_id@,
                        a.chain_next_v@,
                        a.chain@,
                        a.order@,
                        a.place@,
                        n,
                    );
                    assert(h != cx);
                    assert(!a.in_string(h, cx));
                    assert(color_of(self.colors(), h) == self.colors()[h]);
                    assert(head_of(self.chain_id@, h) == self.chain_id@[h].id());
                    assert(is_head(self.colors(), self.chain_ids(), h));
                    self.lemma_captured_heads(a, v, d, cx, h);
                    assert(self.in_string(n, h));
                    if db.contains(h) {
                        assert(!fa);
                    } else {
                        assert(self.lowered_for(a, da, h));
                        assert(fa == rec_in_atari(a.chain@[h]));
                        if self.chain@[h].lib_cnt == a.chain@[h].lib_cnt {
                            assert(self.flags_kept(a, h));
                            assert(fb == fa);
                        } else {
                            assert(self.flags_down(a, h));
                            assert(!fb);
                            assert(rec_matches(
                                self.colors(),
                                self.colors(),
                                self.chain_ids(),
                                self.chain@[h],
                                h,
                            ));
                            assert(rec_matches(a.colors(), a.colors(), a.chain_ids(), a.chain@[h], h));
                            assert forall|y: int| 0 <= y < 443 implies member(
                                self.colors(),
                                self.chain_ids(),
                                y,
                                h,
                            ) == #[trigger] member(a.colors(), a.chain_ids(), y, h) by {
                                assert(self.in_string(y, h) == a.in_string(y, h));
                            }
                            lemma_libs_same(
                                self.colors(),
                                self.colors(),
                                self.chain_ids(),
                                a.colors(),
                                a.chain_ids(),
                                h,
                                443,
                                0,
                            );
                            let wf = lemma_libs_differ(
                                self.colors(),
                                a.colors(),
                                a.colors(),
                                a.chain_ids(),
                                h,
                                443,
                            );
                            let w = wf.0;
                            let f = wf.1;
                            assert(22 <= w <= 418);
                            assert(color_of(self.colors(), f) == self.colors()[f]);
                            assert(self.colors()[f] == Color::Empty && a.colors()[f] != Color::Empty);
                            assert(a.chain_records()[h].lib_cnt != 0);
                            let wf2 = lemma_libs_exists(
                                a.colors(),
                                a.colors(),
                                a.chain_ids(),
                                h,
                                443,
                            );
                            let w2 = wf2.0;
                            let f2 = wf2.1;
                            assert(22 <= w2 <= 418);
                            assert(color_of(self.colors(), f2) == self.colors()[f2]);
                            assert(self.in_string(w, h));
                            assert(self.in_string(w2, h));
                            self.lemma_two_liberties(h, w, f, w2, f2);
                        }
                    }
                } else {
                    assert(!fa);
                }
            }
        }
        assert forall|h: int|
            0 <= h < 443 && is_head(self.colors(), self.chain_ids(), h) && !db.contains(h) implies (
        #[trigger] self.chain_records()[h]).lib_cnt != 0 by {
            self.lemma_captured_heads(a, v, d, cx, h);
            assert(self.lowered_for(a, da, h));
            assert(a.chain_records()[h].lib_cnt != 0);
        }
    }

    /// After the string of the neighbor number `d` of `v`, a string of the
    /// opponent with a liberty, was checked for atari, its flags are right.
    pub(crate) proof fn lemma_flags_checked(&self, a: &Board, player: Player, v: int, d: int)
        requires
            a.flagged(v, d),
            0 <= d < 4,
            22 <= v <= 418,
            a.wf_geo(),
            a.wf_libs(),
            a.wf_chains(),
            a.colors()[v] == Color::of_player(player),
            a.colors()[Self::nbr_of(v, d)] == Color::of_player(player.spec_opponent()),
            a.chain@[head_of(a.chain_id@, Self::nbr_of(v, d))].lib_cnt != 0,
            self.colors() == a.colors(),
            self.chain_ids() == a.chain_ids(),
            forall|k: int| 0 <= k < 443 ==> same_moments(#[trigger] self.chain@[k], a.chain@[k]),
            if a.atari_found(Self::nbr_of(v, d)) {
                a.flags_set_at(
                    self,
                    a.atari_point(Self::nbr_of(v, d)),
                    a.chain_id@[Self::nbr_of(v, d)],
                    true,
                )
            } else {
                self.hash3x3 == a.hash3x3
            },
        ensures
            self.flagged(v, d + 1),
    {
        reveal(Board::flagged);
        let nbr = Self::nbr_of(v, d);
        let da = a.dirty(v, d);
        let db = self.dirty(v, d + 1);
        let hn = head_of(a.chain_id@, nbr);
        lemma_walk(a.colors(), a.chain_id@, a.chain_next_v@, a.chain@, a.order@, a.place@, nbr);
        lemma_walk(a.colors(), a.chain_id@, a.chain_next_v@, a.chain@, a.order@, a.place@, v);
        assert(self.in_string(nbr, hn));
        assert(self.touches_upto(hn, v, d + 1));
        assert(hn != head_of(a.chain_id@, v));
        assert forall|h: int| h != hn implies db.contains(h) == da.contains(h) by {
            assert(!self.in_string(nbr, h));
            assert(self.touches_upto(h, v, d + 1) == a.touches_upto(h, v, d));
            assert(self.touches_upto(h, v, 4) == a.touches_upto(h, v, 4));
        }
        self.lemma_flags_atari(a, nbr, da, db);
    }

    /// After the string of the new stone on `v`, which has met its four
    /// neighbors, was checked for atari, every flag is right.
    pub(crate) proof fn lemma_flags_last(&self, a: &Board, v: int)
        requires
            a.flagged(v, 4),
            0 <= v < 443,
            a.wf_geo(),
            a.wf_libs(),
            a.wf_chains(),
            a.colors()[v].is_player(),
            a.chain@[head_of(a.chain_id@, v)].lib_cnt != 0,
            self.colors() == a.colors(),
            self.chain_ids() == a.chain_ids(),
            forall|k: int| 0 <= k < 443 ==> same_moments(#[trigger] self.chain@[k], a.chain@[k]),
            if a.atari_found(v) {
                a.flags_set_at(self, a.atari_point(v), a.chain_id@[v], true)
            } else {
                self.hash3x3 == a.hash3x3
            },
        ensures
            self.wf_atari(),
    {
        reveal(Board::flagged);
        let da = a.dirty(v, 4);
        let db = Set::<int>::empty();
        self.lemma_flags_atari(a, v, da, db);
    }

    /// What holds during the move of `player` on `v` after the first `d`
    /// neighbors were met: the flags are right but for the strings that are
    /// still dirty, and the neighbors met that are stones of `player` are in
    /// the string of `v`.
    #[verifier::opaque]
    pub open(crate) spec fn met(&self, player: Player, v: int, d: int) -> bool {
        &&& self.flagged(v, d)
        &&& forall|i: int|
            0 <= i < d && self.colors()[Self::nbr_of(v, i)] == Color::of_player(player)
                ==> #[trigger] same_head(self.chain_ids(), Self::nbr_of(v, i), v)
    }

    /// Before the first neighbor is met.
    pub(crate) proof fn lemma_met_start(&self, player: Player, v: int)
        requires
            self.flagged(v, 0),
        ensures
            self.met(player, v, 0),
    {
        reveal(Board::met);
    }

    /// One more neighbor is met.
    pub(crate) proof fn lemma_met_step(&self, a: &Board, player: Player, v: int, d: int)
        requires
            a.met(player, v, d),
            0 <= d < 4,
            22 <= v <= 418,
            self.flagged(v, d + 1),
            self.settled(a, player, v),
            a.colors()[Self::nbr_of(v, d)] == Color::of_player(player) ==> same_head(
                self.chain_ids(),
                Self::nbr_of(v, d),
                v,
            ),
        ensures
            self.met(player, v, d + 1),
    {
        reveal(Board::met);
        self.lemma_settled(a, player, v);
        assert forall|i: int|
            0 <= i < d + 1 && self.colors()[Self::nbr_of(v, i)] == Color::of_player(
                player,
            ) implies #[trigger] same_head(self.chain_ids(), Self::nbr_of(v, i), v) by {
            let n = Self::nbr_of(v, i);
            lemma_coarser(a.colors(), a.chain_ids(), self.colors(), self.chain_ids(), n, v);
            if i < d {
                assert(same_head(a.chain_ids(), Self::nbr_of(v, i), v));
            }
        }
    }

    /// What `met` says.
    pub(crate) proof fn lemma_met(&self, player: Player, v: int, d: int)
        requires
            self.met(player, v, d),
        ensures
            self.flagged(v, d),
            forall|i: int|
                0 <= i < d && self.colors()[Self::nbr_of(v, i)] == Color::of_player(player)
                    ==> #[trigger] same_head(self.chain_ids(), Self::nbr_of(v, i), v),
    {
        reveal(Board::met);
    }

    /// The string of a stone next to the empty vertex `id` is in atari
    /// exactly if no liberty but `id` is left for it: its liberty count is
    /// the number of its stones that touch `id`.
    pub(crate) proof fn lemma_tally_atari(&self, id: int, n: int) -> (r: (int, int))
        requires
            self.wf_geo(),
            self.wf_chains(),
            self.wf_libs(),
            0 <= id < 443,
            self.colors()[id] == Color::Empty,
            adjacent(n, id),
            self.colors()[n].is_player(),
        ensures
            (self.tally(id, n) == 0) == rec_in_atari(self.chain@[head_of(self.chain_id@, n)]),
            self.tally(id, n) != 0 ==> 0 <= r.0 < 443 && self.in_string(
                r.0,
                head_of(self.chain_id@, n),
            ) && adjacent(r.1, r.0) && self.colors()[r.1] == Color::Empty && r.1 != id,
    {
        reveal(libs_ok);
        reveal(Board::wf_geo);
        reveal(Board::wf_flat);
        self.lemma_stones_inside();
        self.lemma_lens();
        self.lemma_on_board_of(id);
        self.lemma_tally(id, n);
        let c0 = self.colors();
        let ids = self.chain_ids();
        let c = head_of(self.chain_id@, n);
        lemma_walk(c0, self.chain_id@, self.chain_next_v@, self.chain@, self.order@, self.place@, n);
        assert(is_head(c0, ids, c));
        assert(rec_matches(c0, c0, ids, self.chain@[c], c));
        let c1 = c0.update(id, Color::Black);
        let t = self.touch_count(c, id);
        assert(self.in_string(n, c));
        assert(t >= 1);
        lemma_libs_fill(c0, c0, ids, c, id, Color::Black, 443, 0);
        lemma_libs_fill(c0, c0, ids, c, id, Color::Black, 443, 1);
        lemma_libs_fill(c0, c0, ids, c, id, Color::Black, 443, 2);
        lemma_touching_nbrs(c0, ids, c, id, 443, 0);
        lemma_touching_nbrs(c0, ids, c, id, 443, 1);
        lemma_touching_nbrs(c0, ids, c, id, 443, 2);
        assert(touching(c0, ids, c, id, 443, 0) == t);
        assert(touching(c0, ids, c, id, 443, 1) == t * id) by (nonlinear_arith)
            requires
                touching(c0, ids, c, id, 443, 1) == b2i(self.in_string(id - 21, c)) * id + b2i(
                    self.in_string(id - 1, c),
                ) * id + b2i(self.in_string(id + 1, c)) * id + b2i(self.in_string(id + 21, c)) * id,
                t == b2i(self.in_string(id - 21, c)) + b2i(self.in_string(id - 1, c)) + b2i(
                    self.in_string(id + 1, c),
                ) + b2i(self.in_string(id + 21, c)),
        ;
        assert(touching(c0, ids, c, id, 443, 2) == t * (id * id)) by (nonlinear_arith)
            requires
                touching(c0, ids, c, id, 443, 2) == b2i(self.in_string(id - 21, c)) * (id * id)
                    + b2i(self.in_string(id - 1, c)) * (id * id) + b2i(self.in_string(id + 1, c)) * (
                id * id) + b2i(self.in_string(id + 21, c)) * (id * id),
                t == b2i(self.in_string(id - 21, c)) + b2i(self.in_string(id - 1, c)) + b2i(
                    self.in_string(id + 1, c),
                ) + b2i(self.in_string(id + 21, c)),
        ;
        let left = chain_libs(c1, c0, ids, c, 443, 0);
        lemma_libs_range(c1, c0, ids, c, 443, 0);
        assert(self.tally(id, n) == left);
        if left == 0 {
            lemma_libs_zero(c1, c0, ids, c, 443, 1);
            lemma_libs_zero(c1, c0, ids, c, 443, 2);
            let cnt = self.chain@[c].lib_cnt as int;
            let sum = self.chain@[c].lib_sum as int;
            let sum2 = self.chain@[c].lib_sum2 as int;
            assert(cnt == t && sum == t * id && sum2 == t * (id * id));
            assert(cnt * sum2 == sum * sum) by (nonlinear_arith)
                requires
                    cnt == t && sum == t * id && sum2 == t * (id * id),
            ;
            (0, 0)
        } else {
            let other = lemma_libs_exists(c1, c0, ids, c, 443);
            if rec_in_atari(self.chain@[c]) {
                self.lemma_atari_law(c, n, id);
                self.lemma_atari_law(c, other.0, other.1);
                assert(false);
            }
            other
        }
    }
}

} // verus!
