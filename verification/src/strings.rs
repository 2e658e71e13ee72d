//! Facts about strings: how the cycles of stones change when a stone is put
//! down, when two strings join and when a string leaves the board.

use crate::board::Chain;
use crate::position::{chains_ok, cycle_ok, idle_ok, is_head, member_ok, succ_in};
use crate::types::{Color, Vertex};
use crate::updates::lemma_pigeonhole;
use vstd::prelude::*;

verus! {

/// `x` below `2 * len`, brought back onto a cycle of `len` places.
pub open spec fn wrap_in(x: int, len: int) -> int {
    if x >= len {
        x - len
    } else {
        x
    }
}

/// How many places after `from` the place `p` comes on a cycle of `len`
/// places.
pub open spec fn offset_in(p: int, from: int, len: int) -> int {
    if p - from < 0 {
        p - from + len
    } else {
        p - from
    }
}

/// What `chains_ok` says of one stone.
pub proof fn lemma_stone(
    colors: Seq<Color>,
    ids: Seq<Vertex>,
    nexts: Seq<Vertex>,
    recs: Seq<Chain>,
    order: Seq<Seq<int>>,
    place: Seq<int>,
    u: int,
)
    requires
        chains_ok(colors, ids, nexts, recs, order, place),
        0 <= u < 443,
        colors[u].is_player(),
    ensures
        member_ok(colors, ids, order, place, u),
        is_head(colors, ids, ids[u].id()),
        cycle_ok(
            colors,
            ids,
            nexts,
            place,
            ids[u].id(),
            order[ids[u].id()],
            recs[ids[u].id()].size as int,
        ),
        1 <= order[ids[u].id()].len() <= 443,
        0 <= nexts[u].id() < 443,
        colors[nexts[u].id()] == colors[u],
        ids[nexts[u].id()].id() == ids[u].id(),
        place[nexts[u].id()] == succ_in(place[u], order[ids[u].id()].len() as int),
        order[ids[u].id()].len() == recs[ids[u].id()].size,
        colors.len() == 443,
        ids.len() == 443,
        nexts.len() == 443,
        recs.len() == 443,
        order.len() == 443,
        place.len() == 443,
{
    reveal(chains_ok);
    assert(member_ok(colors, ids, order, place, u));
    let c = ids[u].id();
    assert(is_head(colors, ids, c));
    assert(cycle_ok(colors, ids, nexts, place, c, order[c], recs[c].size as int));
    lemma_cycle_bound(colors, ids, nexts, place, c, order[c], recs[c].size as int);
    let cyc = order[c];
    let r = place[u];
    assert(cyc[r] == u);
    let r2 = succ_in(r, cyc.len() as int);
    assert(0 <= cyc[r2] < 443);
}

/// The head of a stone, its place on the cycle, and the stone that follows.
pub proof fn lemma_walk(
    colors: Seq<Color>,
    ids: Seq<Vertex>,
    nexts: Seq<Vertex>,
    recs: Seq<Chain>,
    order: Seq<Seq<int>>,
    place: Seq<int>,
    u: int,
)
    requires
        chains_ok(colors, ids, nexts, recs, order, place),
        0 <= u < 443,
        colors[u].is_player(),
    ensures
        0 <= ids[u].id() < 443,
        colors[ids[u].id()] == colors[u],
        ids[ids[u].id()].id() == ids[u].id(),
        1 <= order[ids[u].id()].len() <= 443,
        order[ids[u].id()].len() == recs[ids[u].id()].size,
        0 <= place[u] < order[ids[u].id()].len(),
        0 <= nexts[u].id() < 443,
        colors[nexts[u].id()] == colors[u],
        ids[nexts[u].id()].id() == ids[u].id(),
        place[nexts[u].id()] == succ_in(place[u], order[ids[u].id()].len() as int),
        colors.len() == 443,
        ids.len() == 443,
        nexts.len() == 443,
        recs.len() == 443,
        order.len() == 443,
        place.len() == 443,
{
    lemma_stone(colors, ids, nexts, recs, order, place, u);
}

/// What `chains_ok` says of a vertex without a stone.
pub proof fn lemma_idle(
    colors: Seq<Color>,
    ids: Seq<Vertex>,
    nexts: Seq<Vertex>,
    recs: Seq<Chain>,
    order: Seq<Seq<int>>,
    place: Seq<int>,
    u: int,
)
    requires
        chains_ok(colors, ids, nexts, recs, order, place),
        0 <= u < 443,
        !colors[u].is_player(),
    ensures
        ids[u].id() == u,
        nexts[u].id() == u,
{
    reveal(chains_ok);
    assert(idle_ok(ids, nexts, u));
}

/// The stones of a cycle are different vertices, so there are at most 443.
pub proof fn lemma_cycle_bound(
    colors: Seq<Color>,
    ids: Seq<Vertex>,
    nexts: Seq<Vertex>,
    place: Seq<int>,
    c: int,
    cycle: Seq<int>,
    size: int,
)
    requires
        cycle_ok(colors, ids, nexts, place, c, cycle, size),
    ensures
        cycle.len() <= 443,
        cycle.no_duplicates(),
{
    assert forall|j: int, k: int| 0 <= j < cycle.len() && 0 <= k < cycle.len() && j != k implies cycle[j]
        != cycle[k] by {
        assert(place[cycle[j]] == j);
        assert(place[cycle[k]] == k);
    }
    assert forall|k: int| 0 <= k < cycle.len() implies 0 <= #[trigger] cycle[k] < 443 by {}
    lemma_pigeonhole(cycle, 443);
}

/// The tables of the strings stand when the records keep their sizes.
pub proof fn lemma_chains_sizes(
    colors: Seq<Color>,
    ids: Seq<Vertex>,
    nexts: Seq<Vertex>,
    recs: Seq<Chain>,
    recs2: Seq<Chain>,
    order: Seq<Seq<int>>,
    place: Seq<int>,
)
    requires
        chains_ok(colors, ids, nexts, recs, order, place),
        recs2.len() == 443,
        forall|c: int| 0 <= c < 443 ==> (#[trigger] recs2[c]).size == recs[c].size,
    ensures
        chains_ok(colors, ids, nexts, recs2, order, place),
{
    reveal(chains_ok);
    assert forall|c: int| 0 <= c < 443 && is_head(colors, ids, c) implies #[trigger] cycle_ok(
        colors,
        ids,
        nexts,
        place,
        c,
        order[c],
        recs2[c].size as int,
    ) by {
        assert(cycle_ok(colors, ids, nexts, place, c, order[c], recs[c].size as int));
        assert(recs2[c].size == recs[c].size);
    }
    assert forall|u: int| 0 <= u < 443 && colors[u].is_player() implies #[trigger] member_ok(
        colors,
        ids,
        order,
        place,
        u,
    ) by {}
    assert forall|u: int| 0 <= u < 443 && !colors[u].is_player() implies #[trigger] idle_ok(
        ids,
        nexts,
        u,
    ) by {}
}

/// A stone on a vertex that had none is a string of its own.
pub proof fn lemma_chains_place(
    colors: Seq<Color>,
    ids: Seq<Vertex>,
    nexts: Seq<Vertex>,
    recs: Seq<Chain>,
    order: Seq<Seq<int>>,
    place: Seq<int>,
    v: Vertex,
    c: Color,
    rec: Chain,
)
    requires
        chains_ok(colors, ids, nexts, recs, order, place),
        0 <= v.id() < 443,
        !colors[v.id()].is_player(),
        c.is_player(),
        rec.size == 1,
    ensures
        chains_ok(
            colors.update(v.id(), c),
            ids.update(v.id(), v),
            nexts.update(v.id(), v),
            recs.update(v.id(), rec),
            order.update(v.id(), seq![v.id()]),
            place.update(v.id(), 0),
        ),
{
    reveal(chains_ok);
    let i = v.id();
    let colors2 = colors.update(i, c);
    let ids2 = ids.update(i, v);
    let nexts2 = nexts.update(i, v);
    let recs2 = recs.update(i, rec);
    let order2 = order.update(i, seq![i]);
    let place2 = place.update(i, 0);
    assert forall|u: int| 0 <= u < 443 && colors2[u].is_player() implies #[trigger] member_ok(
        colors2,
        ids2,
        order2,
        place2,
        u,
    ) by {
        if u != i {
            assert(member_ok(colors, ids, order, place, u));
        }
    }
    assert forall|h: int| 0 <= h < 443 && is_head(colors2, ids2, h) implies #[trigger] cycle_ok(
        colors2,
        ids2,
        nexts2,
        place2,
        h,
        order2[h],
        recs2[h].size as int,
    ) by {
        if h != i {
            assert(is_head(colors, ids, h));
            assert(cycle_ok(colors, ids, nexts, place, h, order[h], recs[h].size as int));
            let cyc = order[h];
            assert forall|r: int| 0 <= r < cyc.len() implies {
                let u = #[trigger] cyc[r];
                &&& 0 <= u < 443
                &&& colors2[u] == colors2[h]
                &&& ids2[u].id() == h
                &&& place2[u] == r
                &&& nexts2[u].id() == cyc[succ_in(r, cyc.len() as int)]
            } by {
                let u = cyc[r];
                assert(colors[u] == colors[h]);
                assert(u != i);
            }
        }
    }
    assert forall|u: int| 0 <= u < 443 && !colors2[u].is_player() implies #[trigger] idle_ok(
        ids2,
        nexts2,
        u,
    ) by {
        assert(idle_ok(ids, nexts, u));
    }
}

/// The order of the string that comes of joining the string of order `a`,
/// entered after its place `pa`, into the string of order `b` at its place
/// `pb`.
pub open spec fn merged_cycle(a: Seq<int>, b: Seq<int>, pa: int, pb: int) -> Seq<int> {
    Seq::new(
        a.len() + b.len(),
        |r: int|
            if r == 0 {
                b[pb]
            } else if r <= a.len() {
                a[wrap_in(pa + r, a.len() as int)]
            } else {
                b[wrap_in(pb + r - a.len(), b.len() as int)]
            },
    )
}

/// The place that a stone of the joined string takes in `merged_cycle`.
pub open spec fn merged_place(
    colors: Seq<Color>,
    ids: Seq<Vertex>,
    place: Seq<int>,
    ca: int,
    cb: int,
    pa: int,
    pb: int,
    n: int,
    m: int,
) -> Seq<int> {
    Seq::new(
        443,
        |u: int|
            if colors[u].is_player() && ids[u].id() == ca {
                let d = place[u] - pa;
                if d <= 0 {
                    d + n
                } else {
                    d
                }
            } else if colors[u].is_player() && ids[u].id() == cb {
                let d = place[u] - pb;
                if d == 0 {
                    0
                } else if d < 0 {
                    n + m + d
                } else {
                    n + d
                }
            } else {
                place[u]
            },
    )
}

/// The tables `ids2`, `nexts2` and `recs2` are what joining the string of `a`
/// into the string of `b` makes of `ids`, `nexts` and `recs`: the stones of
/// the string of `a` take the head of the string of `b`, the links after `a`
/// and after `b` are swapped, and the sizes add up.
pub open spec fn merge_rel(
    colors: Seq<Color>,
    ids: Seq<Vertex>,
    nexts: Seq<Vertex>,
    recs: Seq<Chain>,
    a: int,
    b: int,
    ids2: Seq<Vertex>,
    nexts2: Seq<Vertex>,
    recs2: Seq<Chain>,
) -> bool {
    &&& 0 <= a < 443
    &&& 0 <= b < 443
    &&& colors[a].is_player()
    &&& colors[a] == colors[b]
    &&& ids[a].id() != ids[b].id()
    &&& ids2.len() == 443
    &&& nexts2.len() == 443
    &&& recs2.len() == 443
    &&& forall|u: int|
        0 <= u < 443 ==> (#[trigger] ids2[u]).id() == if colors[u].is_player() && ids[u].id()
            == ids[a].id() {
            ids[b].id()
        } else {
            ids[u].id()
        }
    &&& forall|u: int|
        0 <= u < 443 ==> (#[trigger] nexts2[u]).id() == if u == a {
            nexts[b].id()
        } else if u == b {
            nexts[a].id()
        } else {
            nexts[u].id()
        }
    &&& forall|c: int|
        0 <= c < 443 && c != ids[a].id() ==> (#[trigger] recs2[c]).size == if c == ids[b].id() {
            recs[ids[a].id()].size + recs[ids[b].id()].size
        } else {
            recs[c].size as int
        }
}

proof fn lemma_merge_members(
    colors: Seq<Color>,
    ids: Seq<Vertex>,
    nexts: Seq<Vertex>,
    recs: Seq<Chain>,
    order: Seq<Seq<int>>,
    place: Seq<int>,
    a: int,
    b: int,
    ids2: Seq<Vertex>,
    nexts2: Seq<Vertex>,
    recs2: Seq<Chain>,
    u: int,
)
    requires
        chains_ok(colors, ids, nexts, recs, order, place),
        merge_rel(colors, ids, nexts, recs, a, b, ids2, nexts2, recs2),
        0 <= u < 443,
        colors[u].is_player(),
    ensures
        member_ok(
            colors,
            ids2,
            order.update(
                ids[b].id(),
                merged_cycle(order[ids[a].id()], order[ids[b].id()], place[a], place[b]),
            ),
            merged_place(
                colors,
                ids,
                place,
                ids[a].id(),
                ids[b].id(),
                place[a],
                place[b],
                order[ids[a].id()].len() as int,
                order[ids[b].id()].len() as int,
            ),
            u,
        ),
{
    lemma_stone(colors, ids, nexts, recs, order, place, a);
    lemma_stone(colors, ids, nexts, recs, order, place, b);
    lemma_stone(colors, ids, nexts, recs, order, place, u);
    reveal(chains_ok);
    let ca = ids[a].id();
    let cb = ids[b].id();
    let oa = order[ca];
    let ob = order[cb];
    let n = oa.len() as int;
    let m = ob.len() as int;
    let pa = place[a];
    let pb = place[b];
    let cyc = merged_cycle(oa, ob, pa, pb);
    let order2 = order.update(cb, cyc);
    let place2 = merged_place(colors, ids, place, ca, cb, pa, pb, n, m);
    assert(oa[pa] == a);
    assert(ob[pb] == b);
    let pu = place[u];
    if ids[u].id() == ca {
        assert(oa[pu] == u);
        let d = pu - pa;
        let r = if d <= 0 {
            d + n
        } else {
            d
        };
        assert(place2[u] == r);
        assert(1 <= r <= n);
        assert(wrap_in(pa + r, n) == pu);
        assert(cyc[r] == oa[wrap_in(pa + r, n)]);
        assert(ids2[u].id() == cb);
        assert(ids2[cb].id() == cb);
    } else if ids[u].id() == cb {
        assert(ob[pu] == u);
        let d = pu - pb;
        if d == 0 {
            assert(place2[u] == 0);
            assert(cyc[0] == ob[pb]);
        } else {
            let r = if d < 0 {
                n + m + d
            } else {
                n + d
            };
            assert(place2[u] == r);
            assert(n + 1 <= r < n + m);
            assert(wrap_in(pb + r - n, m) == pu);
            assert(cyc[r] == ob[wrap_in(pb + r - n, m)]);
        }
        assert(ids2[u].id() == cb);
        assert(ids2[cb].id() == cb);
    } else {
        let c = ids[u].id();
        assert(ids2[u].id() == c);
        assert(ids[c].id() == c);
        assert(ids2[c].id() == c);
        assert(order2[c] == order[c]);
        assert(place2[u] == place[u]);
    }
}

#[verifier::rlimit(60)]
#[verifier::spinoff_prover]
proof fn lemma_merge_cycle(
    colors: Seq<Color>,
    ids: Seq<Vertex>,
    nexts: Seq<Vertex>,
    recs: Seq<Chain>,
    order: Seq<Seq<int>>,
    place: Seq<int>,
    a: int,
    b: int,
    ids2: Seq<Vertex>,
    nexts2: Seq<Vertex>,
    recs2: Seq<Chain>,
    r: int,
)
    requires
        chains_ok(colors, ids, nexts, recs, order, place),
        merge_rel(colors, ids, nexts, recs, a, b, ids2, nexts2, recs2),
        0 <= r < order[ids[a].id()].len() + order[ids[b].id()].len(),
    ensures
        ({
            let ca = ids[a].id();
            let cb = ids[b].id();
            let n = order[ca].len() as int;
            let m = order[cb].len() as int;
            let cyc = merged_cycle(order[ca], order[cb], place[a], place[b]);
            let place2 = merged_place(colors, ids, place, ca, cb, place[a], place[b], n, m);
            let u = cyc[r];
            &&& 0 <= u < 443
            &&& colors[u] == colors[cb]
            &&& ids2[u].id() == cb
            &&& place2[u] == r
            &&& nexts2[u].id() == cyc[succ_in(r, n + m)]
        }),
{
    lemma_stone(colors, ids, nexts, recs, order, place, a);
    lemma_stone(colors, ids, nexts, recs, order, place, b);
    let ca = ids[a].id();
    let cb = ids[b].id();
    let oa = order[ca];
    let ob = order[cb];
    let n = oa.len() as int;
    let m = ob.len() as int;
    let pa = place[a];
    let pb = place[b];
    let cyc = merged_cycle(oa, ob, pa, pb);
    let place2 = merged_place(colors, ids, place, ca, cb, pa, pb, n, m);
    assert(oa[pa] == a);
    assert(ob[pb] == b);
    if r == 0 {
        assert(cyc[0] == b);
        assert(place2[b] == 0);
        assert(nexts2[b].id() == nexts[a].id());
        assert(nexts[a].id() == oa[succ_in(pa, n)]);
        assert(succ_in(0, n + m) == 1);
        assert(cyc[1] == oa[wrap_in(pa + 1, n)]);
        assert(wrap_in(pa + 1, n) == succ_in(pa, n));
        assert(ids2[b].id() == cb);
    } else if r <= n {
        let q = wrap_in(pa + r, n);
        let u = oa[q];
        assert(cyc[r] == u);
        assert(0 <= q < n);
        assert(place[u] == q);
        assert(ids[u].id() == ca);
        assert(colors[u] == colors[ca]);
        assert(colors[u].is_player());
        assert(place2[u] == r);
        assert(u != b);
        assert(ids2[u].id() == cb);
        if r == n {
            assert(q == pa);
            assert(u == a);
            assert(nexts2[a].id() == nexts[b].id());
            assert(nexts[b].id() == ob[succ_in(pb, m)]);
            if m == 1 {
                assert(succ_in(r, n + m) == 0);
                assert(succ_in(pb, m) == 0);
                assert(pb == 0);
            } else {
                assert(succ_in(r, n + m) == n + 1);
                assert(cyc[n + 1] == ob[wrap_in(pb + 1, m)]);
                assert(wrap_in(pb + 1, m) == succ_in(pb, m));
            }
        } else {
            assert(q != pa);
            assert(u != a) by {
                assert(place[a] == pa);
            }
            assert(nexts2[u].id() == nexts[u].id());
            assert(nexts[u].id() == oa[succ_in(q, n)]);
            assert(succ_in(r, n + m) == r + 1);
            assert(cyc[r + 1] == oa[wrap_in(pa + r + 1, n)]);
            assert(wrap_in(pa + r + 1, n) == succ_in(q, n));
        }
    } else {
        let q = wrap_in(pb + r - n, m);
        let u = ob[q];
        assert(cyc[r] == u);
        assert(0 <= q < m);
        assert(q != pb);
        assert(place[u] == q);
        assert(ids[u].id() == cb);
        assert(colors[u] == colors[cb]);
        assert(colors[u].is_player());
        assert(place2[u] == r);
        assert(u != b) by {
            assert(place[b] == pb);
        }
        assert(u != a);
        assert(ids2[u].id() == cb);
        assert(nexts2[u].id() == nexts[u].id());
        assert(nexts[u].id() == ob[succ_in(q, m)]);
        if r == n + m - 1 {
            assert(succ_in(r, n + m) == 0);
            assert(succ_in(q, m) == pb);
        } else {
            assert(succ_in(r, n + m) == r + 1);
            assert(cyc[r + 1] == ob[wrap_in(pb + r + 1 - n, m)]);
            assert(wrap_in(pb + r + 1 - n, m) == succ_in(q, m));
        }
    }
}

proof fn lemma_merge_others(
    colors: Seq<Color>,
    ids: Seq<Vertex>,
    nexts: Seq<Vertex>,
    recs: Seq<Chain>,
    order: Seq<Seq<int>>,
    place: Seq<int>,
    a: int,
    b: int,
    ids2: Seq<Vertex>,
    nexts2: Seq<Vertex>,
    recs2: Seq<Chain>,
    h: int,
)
    requires
        chains_ok(colors, ids, nexts, recs, order, place),
        merge_rel(colors, ids, nexts, recs, a, b, ids2, nexts2, recs2),
        0 <= h < 443,
        is_head(colors, ids2, h),
        h != ids[b].id(),
    ensures
        cycle_ok(
            colors,
            ids2,
            nexts2,
            merged_place(
                colors,
                ids,
                place,
                ids[a].id(),
                ids[b].id(),
                place[a],
                place[b],
                order[ids[a].id()].len() as int,
                order[ids[b].id()].len() as int,
            ),
            h,
            order[h],
            recs2[h].size as int,
        ),
        h != ids[a].id(),
{
    lemma_stone(colors, ids, nexts, recs, order, place, a);
    lemma_stone(colors, ids, nexts, recs, order, place, b);
    lemma_stone(colors, ids, nexts, recs, order, place, h);
    let ca = ids[a].id();
    let cb = ids[b].id();
    let n = order[ca].len() as int;
    let m = order[cb].len() as int;
    let place2 = merged_place(colors, ids, place, ca, cb, place[a], place[b], n, m);
    assert(ids2[h].id() == h);
    assert(h != ca) by {
        if h == ca {
            assert(ids2[ca].id() == cb);
        }
    }
    assert(ids[h].id() == h);
    let cy = order[h];
    assert(recs2[h].size == recs[h].size);
    assert forall|r: int| 0 <= r < cy.len() implies {
        let u = #[trigger] cy[r];
        &&& 0 <= u < 443
        &&& colors[u] == colors[h]
        &&& ids2[u].id() == h
        &&& place2[u] == r
        &&& nexts2[u].id() == cy[succ_in(r, cy.len() as int)]
    } by {
        let u = cy[r];
        assert(ids[u].id() == h);
        assert(u != a && u != b);
    }
}

/// Two strings of one color join.
pub proof fn lemma_chains_merge(
    colors: Seq<Color>,
    ids: Seq<Vertex>,
    nexts: Seq<Vertex>,
    recs: Seq<Chain>,
    order: Seq<Seq<int>>,
    place: Seq<int>,
    a: int,
    b: int,
    ids2: Seq<Vertex>,
    nexts2: Seq<Vertex>,
    recs2: Seq<Chain>,
)
    requires
        chains_ok(colors, ids, nexts, recs, order, place),
        merge_rel(colors, ids, nexts, recs, a, b, ids2, nexts2, recs2),
    ensures
        chains_ok(
            colors,
            ids2,
            nexts2,
            recs2,
            order.update(
                ids[b].id(),
                merged_cycle(order[ids[a].id()], order[ids[b].id()], place[a], place[b]),
            ),
            merged_place(
                colors,
                ids,
                place,
                ids[a].id(),
                ids[b].id(),
                place[a],
                place[b],
                order[ids[a].id()].len() as int,
                order[ids[b].id()].len() as int,
            ),
        ),
{
    lemma_stone(colors, ids, nexts, recs, order, place, a);
    lemma_stone(colors, ids, nexts, recs, order, place, b);
    let ca = ids[a].id();
    let cb = ids[b].id();
    let n = order[ca].len() as int;
    let m = order[cb].len() as int;
    let cyc = merged_cycle(order[ca], order[cb], place[a], place[b]);
    let order2 = order.update(cb, cyc);
    let place2 = merged_place(colors, ids, place, ca, cb, place[a], place[b], n, m);
    assert forall|u: int| 0 <= u < 443 && colors[u].is_player() implies #[trigger] member_ok(
        colors,
        ids2,
        order2,
        place2,
        u,
    ) by {
        lemma_merge_members(colors, ids, nexts, recs, order, place, a, b, ids2, nexts2, recs2, u);
    }
    assert forall|h: int| 0 <= h < 443 && is_head(colors, ids2, h) implies #[trigger] cycle_ok(
        colors,
        ids2,
        nexts2,
        place2,
        h,
        order2[h],
        recs2[h].size as int,
    ) by {
        reveal(chains_ok);
        if h == cb {
            assert(order2[h] == cyc);
            assert(cyc.len() == n + m);
            assert(recs2[cb].size == n + m);
            assert forall|r: int| 0 <= r < cyc.len() implies {
                let u = #[trigger] cyc[r];
                &&& 0 <= u < 443
                &&& colors[u] == colors[h]
                &&& ids2[u].id() == h
                &&& place2[u] == r
                &&& nexts2[u].id() == cyc[succ_in(r, cyc.len() as int)]
            } by {
                lemma_merge_cycle(
                    colors,
                    ids,
                    nexts,
                    recs,
                    order,
                    place,
                    a,
                    b,
                    ids2,
                    nexts2,
                    recs2,
                    r,
                );
            }
        } else {
            lemma_merge_others(
                colors,
                ids,
                nexts,
                recs,
                order,
                place,
                a,
                b,
                ids2,
                nexts2,
                recs2,
                h,
            );
            assert(order2[h] == order[h]);
        }
    }
    assert forall|u: int| 0 <= u < 443 && !colors[u].is_player() implies #[trigger] idle_ok(
        ids2,
        nexts2,
        u,
    ) by {
        lemma_idle(colors, ids, nexts, recs, order, place, u);
    }
    reveal(chains_ok);
}

/// The string with head `cx` leaves the board: its stones become empty
/// vertices, each a string of its own.
pub proof fn lemma_chains_remove(
    colors: Seq<Color>,
    ids: Seq<Vertex>,
    nexts: Seq<Vertex>,
    recs: Seq<Chain>,
    order: Seq<Seq<int>>,
    place: Seq<int>,
    cx: int,
    colors2: Seq<Color>,
    ids2: Seq<Vertex>,
    nexts2: Seq<Vertex>,
    recs2: Seq<Chain>,
)
    requires
        chains_ok(colors, ids, nexts, recs, order, place),
        0 <= cx < 443,
        is_head(colors, ids, cx),
        colors2.len() == 443,
        ids2.len() == 443,
        nexts2.len() == 443,
        recs2.len() == 443,
        forall|u: int|
            0 <= u < 443 ==> #[trigger] colors2[u] == if colors[u].is_player() && ids[u].id() == cx {
                Color::Empty
            } else {
                colors[u]
            },
        forall|u: int|
            0 <= u < 443 ==> (#[trigger] ids2[u]).id() == if colors[u].is_player() && ids[u].id()
                == cx {
                u
            } else {
                ids[u].id()
            },
        forall|u: int|
            0 <= u < 443 ==> (#[trigger] nexts2[u]).id() == if colors[u].is_player() && ids[u].id()
                == cx {
                u
            } else {
                nexts[u].id()
            },
        forall|c: int| 0 <= c < 443 && c != cx ==> (#[trigger] recs2[c]).size == recs[c].size,
    ensures
        chains_ok(colors2, ids2, nexts2, recs2, order, place),
{
    reveal(chains_ok);
    assert forall|u: int| 0 <= u < 443 && colors2[u].is_player() implies #[trigger] member_ok(
        colors2,
        ids2,
        order,
        place,
        u,
    ) by {
        assert(colors[u].is_player());
        assert(member_ok(colors, ids, order, place, u));
        let c = ids[u].id();
        assert(c != cx);
        assert(ids[c].id() == c);
        assert(colors2[c] == colors[c]);
        assert(ids2[c].id() == c);
    }
    assert forall|h: int| 0 <= h < 443 && is_head(colors2, ids2, h) implies #[trigger] cycle_ok(
        colors2,
        ids2,
        nexts2,
        place,
        h,
        order[h],
        recs2[h].size as int,
    ) by {
        assert(colors[h].is_player());
        assert(ids[h].id() == h);
        assert(h != cx);
        assert(is_head(colors, ids, h));
        assert(cycle_ok(colors, ids, nexts, place, h, order[h], recs[h].size as int));
        let cy = order[h];
        assert forall|r: int| 0 <= r < cy.len() implies {
            let u = #[trigger] cy[r];
            &&& 0 <= u < 443
            &&& colors2[u] == colors2[h]
            &&& ids2[u].id() == h
            &&& place[u] == r
            &&& nexts2[u].id() == cy[succ_in(r, cy.len() as int)]
        } by {
            let u = cy[r];
            assert(ids[u].id() == h);
            assert(colors[u] == colors[h]);
        }
    }
    assert forall|u: int| 0 <= u < 443 && !colors2[u].is_player() implies #[trigger] idle_ok(
        ids2,
        nexts2,
        u,
    ) by {
        if colors[u].is_player() {
            assert(ids[u].id() == cx);
        } else {
            assert(idle_ok(ids, nexts, u));
        }
    }
}

/// Two stones of one string with the same place are the same stone.
pub proof fn lemma_same_place(
    colors: Seq<Color>,
    ids: Seq<Vertex>,
    nexts: Seq<Vertex>,
    recs: Seq<Chain>,
    order: Seq<Seq<int>>,
    place: Seq<int>,
    u: int,
    v: int,
)
    requires
        chains_ok(colors, ids, nexts, recs, order, place),
        0 <= u < 443,
        0 <= v < 443,
        colors[u].is_player(),
        colors[v].is_player(),
        ids[u].id() == ids[v].id(),
        place[u] == place[v],
    ensures
        u == v,
{
    lemma_stone(colors, ids, nexts, recs, order, place, u);
    lemma_stone(colors, ids, nexts, recs, order, place, v);
}

} // verus!
