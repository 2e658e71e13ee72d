//! Liberties: what the moments that a string record keeps are the moments
//! of, and how they follow the stones.
//!
//! A liberty of a string counts once for every stone of the string that
//! touches it.

use crate::board::{wrap32, Chain};
use crate::moments::{lemma_moment_add, lemma_moment_push, moment};
use crate::position::is_head;
use crate::types::{Color, Vertex};
use crate::updates::adjacent;
use vstd::prelude::*;

verus! {

/// The `k`-th power of `x`, for `k` up to 2.
pub open spec fn pw(x: int, k: int) -> int {
    if k == 0 {
        1
    } else if k == 1 {
        x
    } else {
        x * x
    }
}

/// What the vertex `e` adds to a moment if it is empty.
pub open spec fn lib_term(colors: Seq<Color>, e: int, k: int) -> int {
    if colors[e] == Color::Empty {
        pw(e, k)
    } else {
        0
    }
}

/// The `k`-th moment of the empty cardinal neighbors of `u`.
pub open spec fn stone_libs(colors: Seq<Color>, u: int, k: int) -> int {
    lib_term(colors, u - 21, k) + lib_term(colors, u - 1, k) + lib_term(colors, u + 1, k)
        + lib_term(colors, u + 21, k)
}

/// Whether `u` is a stone of the string with the head `c`.
pub open spec fn member(stones: Seq<Color>, ids: Seq<Vertex>, u: int, c: int) -> bool {
    stones[u].is_player() && ids[u].id() == c
}

/// The `k`-th moment of the liberties of the string with the head `c`, over
/// its stones below `n`.  `colors` says which vertices are empty, `stones`
/// and `ids` which vertices are stones of the string.
pub open spec fn chain_libs(
    colors: Seq<Color>,
    stones: Seq<Color>,
    ids: Seq<Vertex>,
    c: int,
    n: int,
    k: int,
) -> int
    decreases n,
{
    if n <= 0 {
        0
    } else {
        chain_libs(colors, stones, ids, c, n - 1, k) + if member(stones, ids, n - 1, c) {
            stone_libs(colors, n - 1, k)
        } else {
            0
        }
    }
}

/// The `k`-th power of `x`, once for every stone below `n` of the string
/// with the head `c` that touches `x`.
pub open spec fn touching(stones: Seq<Color>, ids: Seq<Vertex>, c: int, x: int, n: int, k: int) -> int
    decreases n,
{
    if n <= 0 {
        0
    } else {
        touching(stones, ids, c, x, n - 1, k) + if member(stones, ids, n - 1, c) && adjacent(
            n - 1,
            x,
        ) {
            pw(x, k)
        } else {
            0
        }
    }
}

/// The record `rec` holds the moments of the liberties of the string with the
/// head `c`.
pub open spec fn rec_matches(
    colors: Seq<Color>,
    stones: Seq<Color>,
    ids: Seq<Vertex>,
    rec: Chain,
    c: int,
) -> bool {
    &&& rec.lib_cnt == chain_libs(colors, stones, ids, c, 443, 0)
    &&& rec.lib_sum == chain_libs(colors, stones, ids, c, 443, 1)
    &&& rec.lib_sum2 == chain_libs(colors, stones, ids, c, 443, 2)
}

/// Every string record holds the moments of the liberties of its string.
#[verifier::opaque]
pub open spec fn libs_ok(
    colors: Seq<Color>,
    stones: Seq<Color>,
    ids: Seq<Vertex>,
    recs: Seq<Chain>,
) -> bool {
    forall|c: int|
        0 <= c < 443 && is_head(stones, ids, c) ==> #[trigger] rec_matches(
            colors,
            stones,
            ids,
            recs[c],
            c,
        )
}

/// Every string has a liberty: no record of a head counts zero.
#[verifier::opaque]
pub open spec fn alive_ok(stones: Seq<Color>, ids: Seq<Vertex>, recs: Seq<Chain>) -> bool {
    forall|c: int| 0 <= c < 443 && is_head(stones, ids, c) ==> (#[trigger] recs[c]).lib_cnt != 0
}

/// The stones stand away from the rim of the grid.
pub open spec fn stones_inside(stones: Seq<Color>) -> bool {
    forall|u: int| 0 <= u < 443 && (#[trigger] stones[u]).is_player() ==> 22 <= u <= 418
}

pub proof fn lemma_pw_range(x: int, k: int)
    requires
        0 <= x < 443,
        0 <= k <= 2,
    ensures
        0 <= pw(x, k) <= 195364,
{
    assert(0 <= x * x <= 195364) by (nonlinear_arith)
        requires
            0 <= x < 443,
    ;
}

/// A moment is not negative and fits 32 bits with room to spare.
pub proof fn lemma_libs_range(
    colors: Seq<Color>,
    stones: Seq<Color>,
    ids: Seq<Vertex>,
    c: int,
    n: int,
    k: int,
)
    requires
        0 <= n <= 443,
        0 <= k <= 2,
        stones_inside(stones),
    ensures
        0 <= chain_libs(colors, stones, ids, c, n, k) <= n * 800000,
    decreases n,
{
    if n > 0 {
        lemma_libs_range(colors, stones, ids, c, n - 1, k);
        if member(stones, ids, n - 1, c) {
            let u = n - 1;
            lemma_pw_range(u - 21, k);
            lemma_pw_range(u - 1, k);
            lemma_pw_range(u + 1, k);
            lemma_pw_range(u + 21, k);
        }
    }
}

pub proof fn lemma_touching_range(
    stones: Seq<Color>,
    ids: Seq<Vertex>,
    c: int,
    x: int,
    n: int,
    k: int,
)
    requires
        0 <= n <= 443,
        0 <= k <= 2,
        0 <= x < 443,
    ensures
        0 <= touching(stones, ids, c, x, n, k) <= n * 195364,
    decreases n,
{
    lemma_pw_range(x, k);
    if n > 0 {
        lemma_touching_range(stones, ids, c, x, n - 1, k);
    }
}

/// When the vertex `x` stops being empty, every string loses it as a
/// liberty, once for every stone that touches it.
pub proof fn lemma_libs_fill(
    colors: Seq<Color>,
    stones: Seq<Color>,
    ids: Seq<Vertex>,
    c: int,
    x: int,
    to: Color,
    n: int,
    k: int,
)
    requires
        0 <= n <= 443,
        colors.len() == 443,
        0 <= x < 443,
        colors[x] == Color::Empty,
        to != Color::Empty,
        stones_inside(stones),
    ensures
        chain_libs(colors.update(x, to), stones, ids, c, n, k) == chain_libs(
            colors,
            stones,
            ids,
            c,
            n,
            k,
        ) - touching(stones, ids, c, x, n, k),
    decreases n,
{
    if n > 0 {
        lemma_libs_fill(colors, stones, ids, c, x, to, n - 1, k);
    }
}

/// When the vertex `x` becomes empty, every string gains it as a liberty,
/// once for every stone that touches it.
pub proof fn lemma_libs_free(
    colors: Seq<Color>,
    stones: Seq<Color>,
    ids: Seq<Vertex>,
    c: int,
    x: int,
    n: int,
    k: int,
)
    requires
        0 <= n <= 443,
        colors.len() == 443,
        0 <= x < 443,
        colors[x] != Color::Empty,
        stones_inside(stones),
    ensures
        chain_libs(colors.update(x, Color::Empty), stones, ids, c, n, k) == chain_libs(
            colors,
            stones,
            ids,
            c,
            n,
            k,
        ) + touching(stones, ids, c, x, n, k),
    decreases n,
{
    if n > 0 {
        lemma_libs_free(colors, stones, ids, c, x, n - 1, k);
    }
}

/// What the neighbor `y` of `x` adds to `touching` if it belongs to the
/// string and lies below `n`.
pub open spec fn touch_term(
    stones: Seq<Color>,
    ids: Seq<Vertex>,
    c: int,
    x: int,
    y: int,
    n: int,
    k: int,
) -> int {
    if y < n && member(stones, ids, y, c) {
        pw(x, k)
    } else {
        0
    }
}

/// The stones that touch `x` are among its four neighbors.
pub proof fn lemma_touching_nbrs(
    stones: Seq<Color>,
    ids: Seq<Vertex>,
    c: int,
    x: int,
    n: int,
    k: int,
)
    requires
        0 <= n <= 443,
        22 <= x <= 418,
    ensures
        touching(stones, ids, c, x, n, k) == touch_term(stones, ids, c, x, x - 21, n, k)
            + touch_term(stones, ids, c, x, x - 1, n, k) + touch_term(stones, ids, c, x, x + 1, n, k)
            + touch_term(stones, ids, c, x, x + 21, n, k),
    decreases n,
{
    if n > 0 {
        lemma_touching_nbrs(stones, ids, c, x, n - 1, k);
    }
}

/// Moments that go by the same stones and the same empty vertices are the
/// same.
pub proof fn lemma_libs_same(
    colors: Seq<Color>,
    stones: Seq<Color>,
    ids: Seq<Vertex>,
    stones2: Seq<Color>,
    ids2: Seq<Vertex>,
    c: int,
    n: int,
    k: int,
)
    requires
        0 <= n <= 443,
        forall|u: int| 0 <= u < n ==> member(stones, ids, u, c) == #[trigger] member(stones2, ids2, u, c),
    ensures
        chain_libs(colors, stones, ids, c, n, k) == chain_libs(colors, stones2, ids2, c, n, k),
    decreases n,
{
    if n > 0 {
        lemma_libs_same(colors, stones, ids, stones2, ids2, c, n - 1, k);
        assert(member(stones, ids, n - 1, c) == member(stones2, ids2, n - 1, c));
    }
}

/// The moments of a string of one stone are those of the stone.
pub proof fn lemma_libs_single(
    colors: Seq<Color>,
    stones: Seq<Color>,
    ids: Seq<Vertex>,
    c: int,
    n: int,
    k: int,
)
    requires
        0 <= n <= 443,
        0 <= c < 443,
        forall|u: int| 0 <= u < n ==> (#[trigger] member(stones, ids, u, c) <==> u == c),
    ensures
        chain_libs(colors, stones, ids, c, n, k) == if c < n {
            stone_libs(colors, c, k)
        } else {
            0
        },
    decreases n,
{
    if n > 0 {
        lemma_libs_single(colors, stones, ids, c, n - 1, k);
        assert(member(stones, ids, n - 1, c) <==> n - 1 == c);
    }
}

/// The moments of a string that took the stones of another are the sums of
/// the moments of the two.
pub proof fn lemma_libs_join(
    colors: Seq<Color>,
    stones: Seq<Color>,
    ids: Seq<Vertex>,
    ids2: Seq<Vertex>,
    ca: int,
    cb: int,
    n: int,
    k: int,
)
    requires
        0 <= n <= 443,
        ca != cb,
        forall|u: int|
            0 <= u < n ==> #[trigger] member(stones, ids2, u, cb) == (member(stones, ids, u, cb)
                || member(stones, ids, u, ca)),
    ensures
        chain_libs(colors, stones, ids2, cb, n, k) == chain_libs(colors, stones, ids, cb, n, k)
            + chain_libs(colors, stones, ids, ca, n, k),
    decreases n,
{
    if n > 0 {
        lemma_libs_join(colors, stones, ids, ids2, ca, cb, n - 1, k);
        assert(member(stones, ids2, n - 1, cb) == (member(stones, ids, n - 1, cb) || member(
            stones,
            ids,
            n - 1,
            ca,
        )));
    }
}

/// Whether two records hold the same moments and size.
pub open spec fn same_moments(a: Chain, b: Chain) -> bool {
    a.lib_cnt == b.lib_cnt && a.lib_sum == b.lib_sum && a.lib_sum2 == b.lib_sum2 && a.size
        == b.size
}

/// One of four steps in which the records follow a change of the vertex
/// `x`: the record `ra` becomes `rb`, which has `x` as a liberty once more
/// (`gain`) or once less if the step `hits` the string, and the same moments
/// if not.
pub open spec fn lib_step(ra: Chain, rb: Chain, x: int, gain: bool, hits: bool) -> bool {
    same_moments(
        rb,
        if hits {
            if gain {
                ra.lib_added(x)
            } else {
                ra.lib_removed(x)
            }
        } else {
            ra
        },
    )
}

/// Four moves of a 32-bit number that end in range add up.
pub proof fn lemma_wrap_chain(
    a1: u32,
    a2: u32,
    a3: u32,
    a4: u32,
    a5: u32,
    d1: int,
    d2: int,
    d3: int,
    d4: int,
)
    requires
        a2 == wrap32(a1 + d1),
        a3 == wrap32(a2 + d2),
        a4 == wrap32(a3 + d3),
        a5 == wrap32(a4 + d4),
        0 <= a1 + d1 + d2 + d3 + d4 < 0x1_0000_0000,
    ensures
        a5 == a1 + d1 + d2 + d3 + d4,
{
    let m = 0x1_0000_0000int;
    let q1 = (a1 + d1) / m;
    let q2 = (a2 + d2) / m;
    let q3 = (a3 + d3) / m;
    let q4 = (a4 + d4) / m;
    assert(a2 == a1 + d1 - q1 * m);
    assert(a3 == a2 + d2 - q2 * m);
    assert(a4 == a3 + d3 - q3 * m);
    assert(a5 == a4 + d4 - q4 * m);
    assert(a5 == a1 + d1 + d2 + d3 + d4 - (q1 + q2 + q3 + q4) * m);
}

/// What a step adds to the `k`-th moment of a record.
pub open spec fn step_term(x: int, gain: bool, hits: bool, k: int) -> int {
    if hits {
        if gain {
            pw(x, k)
        } else {
            -pw(x, k)
        }
    } else {
        0
    }
}

/// What `lib_step` says of each moment.
pub proof fn lemma_lib_step(ra: Chain, rb: Chain, x: int, gain: bool, hits: bool)
    requires
        lib_step(ra, rb, x, gain, hits),
    ensures
        rb.lib_cnt == wrap32(ra.lib_cnt + step_term(x, gain, hits, 0)),
        rb.lib_sum == wrap32(ra.lib_sum + step_term(x, gain, hits, 1)),
        rb.lib_sum2 == wrap32(ra.lib_sum2 + step_term(x, gain, hits, 2)),
        rb.size == ra.size,
{
}

/// The record of a string follows when the vertex `x` becomes empty
/// (`gain`) or stops being empty, in one step for each neighbor of `x`.
pub proof fn lemma_libs_steps(
    colors: Seq<Color>,
    colors2: Seq<Color>,
    stones: Seq<Color>,
    ids: Seq<Vertex>,
    c: int,
    x: int,
    gain: bool,
    r1: Chain,
    r2: Chain,
    r3: Chain,
    r4: Chain,
    r5: Chain,
)
    requires
        colors.len() == 443,
        22 <= x <= 418,
        stones_inside(stones),
        rec_matches(colors, stones, ids, r1, c),
        gain ==> colors[x] != Color::Empty && colors2 == colors.update(x, Color::Empty),
        !gain ==> colors[x] == Color::Empty && colors2.len() == 443 && colors2[x] != Color::Empty
            && colors2 == colors.update(x, colors2[x]),
        lib_step(r1, r2, x, gain, member(stones, ids, x - 21, c)),
        lib_step(r2, r3, x, gain, member(stones, ids, x - 1, c)),
        lib_step(r3, r4, x, gain, member(stones, ids, x + 1, c)),
        lib_step(r4, r5, x, gain, member(stones, ids, x + 21, c)),
    ensures
        rec_matches(colors2, stones, ids, r5, c),
        r5.size == r1.size,
{
    let m1 = member(stones, ids, x - 21, c);
    let m2 = member(stones, ids, x - 1, c);
    let m3 = member(stones, ids, x + 1, c);
    let m4 = member(stones, ids, x + 21, c);
    lemma_lib_step(r1, r2, x, gain, m1);
    lemma_lib_step(r2, r3, x, gain, m2);
    lemma_lib_step(r3, r4, x, gain, m3);
    lemma_lib_step(r4, r5, x, gain, m4);
    lemma_moment_steps(colors, colors2, stones, ids, c, x, gain, 0);
    lemma_moment_steps(colors, colors2, stones, ids, c, x, gain, 1);
    lemma_moment_steps(colors, colors2, stones, ids, c, x, gain, 2);
    lemma_wrap_chain(
        r1.lib_cnt,
        r2.lib_cnt,
        r3.lib_cnt,
        r4.lib_cnt,
        r5.lib_cnt,
        step_term(x, gain, m1, 0),
        step_term(x, gain, m2, 0),
        step_term(x, gain, m3, 0),
        step_term(x, gain, m4, 0),
    );
    lemma_wrap_chain(
        r1.lib_sum,
        r2.lib_sum,
        r3.lib_sum,
        r4.lib_sum,
        r5.lib_sum,
        step_term(x, gain, m1, 1),
        step_term(x, gain, m2, 1),
        step_term(x, gain, m3, 1),
        step_term(x, gain, m4, 1),
    );
    lemma_wrap_chain(
        r1.lib_sum2,
        r2.lib_sum2,
        r3.lib_sum2,
        r4.lib_sum2,
        r5.lib_sum2,
        step_term(x, gain, m1, 2),
        step_term(x, gain, m2, 2),
        step_term(x, gain, m3, 2),
        step_term(x, gain, m4, 2),
    );
}

/// The `k`-th moment of a string after the vertex `x` became empty (`gain`)
/// or stopped being empty is the moment before and the four step terms.
pub proof fn lemma_moment_steps(
    colors: Seq<Color>,
    colors2: Seq<Color>,
    stones: Seq<Color>,
    ids: Seq<Vertex>,
    c: int,
    x: int,
    gain: bool,
    k: int,
)
    requires
        colors.len() == 443,
        22 <= x <= 418,
        0 <= k <= 2,
        stones_inside(stones),
        gain ==> colors[x] != Color::Empty && colors2 == colors.update(x, Color::Empty),
        !gain ==> colors[x] == Color::Empty && colors2.len() == 443 && colors2[x] != Color::Empty
            && colors2 == colors.update(x, colors2[x]),
    ensures
        chain_libs(colors2, stones, ids, c, 443, k) == chain_libs(colors, stones, ids, c, 443, k)
            + step_term(x, gain, member(stones, ids, x - 21, c), k) + step_term(
            x,
            gain,
            member(stones, ids, x - 1, c),
            k,
        ) + step_term(x, gain, member(stones, ids, x + 1, c), k) + step_term(
            x,
            gain,
            member(stones, ids, x + 21, c),
            k,
        ),
        0 <= chain_libs(colors2, stones, ids, c, 443, k) < 0x1_0000_0000,
{
    lemma_libs_range(colors2, stones, ids, c, 443, k);
    lemma_touching_nbrs(stones, ids, c, x, 443, k);
    if gain {
        lemma_libs_free(colors, stones, ids, c, x, 443, k);
    } else {
        lemma_libs_fill(colors, stones, ids, c, x, colors2[x], 443, k);
    }
}

/// One of four steps in which the record of a new stone on `v` takes note of
/// the neighbor `y`: an empty neighbor is a liberty.
pub open spec fn own_step(colors: Seq<Color>, ra: Chain, rb: Chain, y: int) -> bool {
    same_moments(
        rb,
        if colors[y] == Color::Empty {
            ra.lib_added(y)
        } else {
            ra
        },
    )
}

/// What `own_step` says of each moment.
pub proof fn lemma_own_step(colors: Seq<Color>, ra: Chain, rb: Chain, y: int)
    requires
        own_step(colors, ra, rb, y),
    ensures
        rb.lib_cnt == wrap32(ra.lib_cnt + lib_term(colors, y, 0)),
        rb.lib_sum == wrap32(ra.lib_sum + lib_term(colors, y, 1)),
        rb.lib_sum2 == wrap32(ra.lib_sum2 + lib_term(colors, y, 2)),
        rb.size == ra.size,
{
}

/// The record of a new stone holds the moments of its empty neighbors.
pub proof fn lemma_libs_own(
    colors: Seq<Color>,
    ids: Seq<Vertex>,
    v: int,
    r1: Chain,
    r2: Chain,
    r3: Chain,
    r4: Chain,
    r5: Chain,
)
    requires
        22 <= v <= 418,
        r1.lib_cnt == 0,
        r1.lib_sum == 0,
        r1.lib_sum2 == 0,
        forall|u: int| 0 <= u < 443 ==> (#[trigger] member(colors, ids, u, v) <==> u == v),
        own_step(colors, r1, r2, v - 21),
        own_step(colors, r2, r3, v - 1),
        own_step(colors, r3, r4, v + 1),
        own_step(colors, r4, r5, v + 21),
    ensures
        rec_matches(colors, colors, ids, r5, v),
        r5.size == r1.size,
{
    lemma_libs_single(colors, colors, ids, v, 443, 0);
    lemma_libs_single(colors, colors, ids, v, 443, 1);
    lemma_libs_single(colors, colors, ids, v, 443, 2);
    lemma_own_step(colors, r1, r2, v - 21);
    lemma_own_step(colors, r2, r3, v - 1);
    lemma_own_step(colors, r3, r4, v + 1);
    lemma_own_step(colors, r4, r5, v + 21);
    assert forall|k: int| 0 <= k <= 2 implies 0 <= #[trigger] lib_term(colors, v - 21, k) <= 195364
        && 0 <= lib_term(colors, v - 1, k) <= 195364 && 0 <= lib_term(colors, v + 1, k) <= 195364
        && 0 <= lib_term(colors, v + 21, k) <= 195364 by {
        lemma_pw_range(v - 21, k);
        lemma_pw_range(v - 1, k);
        lemma_pw_range(v + 1, k);
        lemma_pw_range(v + 21, k);
    }
    assert(0 <= lib_term(colors, v - 21, 0) <= 195364);
    assert(0 <= lib_term(colors, v - 21, 1) <= 195364);
    assert(0 <= lib_term(colors, v - 21, 2) <= 195364);
    lemma_wrap_chain(
        r1.lib_cnt,
        r2.lib_cnt,
        r3.lib_cnt,
        r4.lib_cnt,
        r5.lib_cnt,
        lib_term(colors, v - 21, 0),
        lib_term(colors, v - 1, 0),
        lib_term(colors, v + 1, 0),
        lib_term(colors, v + 21, 0),
    );
    lemma_wrap_chain(
        r1.lib_sum,
        r2.lib_sum,
        r3.lib_sum,
        r4.lib_sum,
        r5.lib_sum,
        lib_term(colors, v - 21, 1),
        lib_term(colors, v - 1, 1),
        lib_term(colors, v + 1, 1),
        lib_term(colors, v + 21, 1),
    );
    lemma_wrap_chain(
        r1.lib_sum2,
        r2.lib_sum2,
        r3.lib_sum2,
        r4.lib_sum2,
        r5.lib_sum2,
        lib_term(colors, v - 21, 2),
        lib_term(colors, v - 1, 2),
        lib_term(colors, v + 1, 2),
        lib_term(colors, v + 21, 2),
    );
}

/// The record of the string that took the stones of another holds the sums
/// of the moments of the two.
pub proof fn lemma_libs_merged(
    colors: Seq<Color>,
    ids: Seq<Vertex>,
    ids2: Seq<Vertex>,
    ca: int,
    cb: int,
    ra: Chain,
    rb: Chain,
    r2: Chain,
)
    requires
        ca != cb,
        stones_inside(colors),
        rec_matches(colors, colors, ids, ra, ca),
        rec_matches(colors, colors, ids, rb, cb),
        forall|u: int|
            0 <= u < 443 ==> #[trigger] member(colors, ids2, u, cb) == (member(colors, ids, u, cb)
                || member(colors, ids, u, ca)),
        r2.lib_cnt == wrap32(rb.lib_cnt + ra.lib_cnt),
        r2.lib_sum == wrap32(rb.lib_sum + ra.lib_sum),
        r2.lib_sum2 == wrap32(rb.lib_sum2 + ra.lib_sum2),
    ensures
        rec_matches(colors, colors, ids2, r2, cb),
{
    lemma_libs_join(colors, colors, ids, ids2, ca, cb, 443, 0);
    lemma_libs_join(colors, colors, ids, ids2, ca, cb, 443, 1);
    lemma_libs_join(colors, colors, ids, ids2, ca, cb, 443, 2);
    lemma_libs_range(colors, colors, ids2, cb, 443, 0);
    lemma_libs_range(colors, colors, ids2, cb, 443, 1);
    lemma_libs_range(colors, colors, ids2, cb, 443, 2);
}

/// A record matches as long as its string has the same stones and the record
/// the same moments.
pub proof fn lemma_rec_same(
    colors: Seq<Color>,
    stones: Seq<Color>,
    ids: Seq<Vertex>,
    stones2: Seq<Color>,
    ids2: Seq<Vertex>,
    r: Chain,
    r2: Chain,
    c: int,
)
    requires
        rec_matches(colors, stones, ids, r, c),
        same_moments(r, r2),
        forall|u: int|
            0 <= u < 443 ==> member(stones, ids, u, c) == #[trigger] member(stones2, ids2, u, c),
    ensures
        rec_matches(colors, stones2, ids2, r2, c),
{
    lemma_libs_same(colors, stones, ids, stones2, ids2, c, 443, 0);
    lemma_libs_same(colors, stones, ids, stones2, ids2, c, 443, 1);
    lemma_libs_same(colors, stones, ids, stones2, ids2, c, 443, 2);
}

/// The moments of a string change only with the colors around its stones.
pub proof fn lemma_libs_far(
    colors: Seq<Color>,
    colors2: Seq<Color>,
    stones: Seq<Color>,
    ids: Seq<Vertex>,
    c: int,
    n: int,
    k: int,
)
    requires
        0 <= n <= 443,
        stones_inside(stones),
        forall|u: int|
            0 <= u < n && #[trigger] member(stones, ids, u, c) ==> (colors[u - 21] == Color::Empty)
                == (colors2[u - 21] == Color::Empty) && (colors[u - 1] == Color::Empty) == (colors2[u
                - 1] == Color::Empty) && (colors[u + 1] == Color::Empty) == (colors2[u + 1]
                == Color::Empty) && (colors[u + 21] == Color::Empty) == (colors2[u + 21]
                == Color::Empty),
    ensures
        chain_libs(colors, stones, ids, c, n, k) == chain_libs(colors2, stones, ids, c, n, k),
    decreases n,
{
    if n > 0 {
        lemma_libs_far(colors, colors2, stones, ids, c, n - 1, k);
        if member(stones, ids, n - 1, c) {
            assert(22 <= n - 1 <= 418);
        }
    }
}

/// Where the liberty counts of a string differ under two colorings, a stone
/// of the string has a neighbor that is empty under one of them only.
pub proof fn lemma_libs_differ(
    colors: Seq<Color>,
    colors2: Seq<Color>,
    stones: Seq<Color>,
    ids: Seq<Vertex>,
    c: int,
    n: int,
) -> (r: (int, int))
    requires
        0 <= n <= 443,
        chain_libs(colors, stones, ids, c, n, 0) != chain_libs(colors2, stones, ids, c, n, 0),
    ensures
        0 <= r.0 < n,
        member(stones, ids, r.0, c),
        adjacent(r.1, r.0),
        (colors[r.1] == Color::Empty) != (colors2[r.1] == Color::Empty),
    decreases n,
{
    if chain_libs(colors, stones, ids, c, n - 1, 0) != chain_libs(colors2, stones, ids, c, n - 1, 0) {
        lemma_libs_differ(colors, colors2, stones, ids, c, n - 1)
    } else {
        let u = n - 1;
        assert(member(stones, ids, u, c));
        assert(stone_libs(colors, u, 0) != stone_libs(colors2, u, 0));
        if (colors[u - 21] == Color::Empty) != (colors2[u - 21] == Color::Empty) {
            (u, u - 21)
        } else if (colors[u - 1] == Color::Empty) != (colors2[u - 1] == Color::Empty) {
            (u, u - 1)
        } else if (colors[u + 1] == Color::Empty) != (colors2[u + 1] == Color::Empty) {
            (u, u + 1)
        } else {
            (u, u + 21)
        }
    }
}

/// A string that counts no liberty has no sum of liberties.
pub proof fn lemma_libs_zero(
    colors: Seq<Color>,
    stones: Seq<Color>,
    ids: Seq<Vertex>,
    c: int,
    n: int,
    k: int,
)
    requires
        0 <= n <= 443,
        0 <= k <= 2,
        stones_inside(stones),
        chain_libs(colors, stones, ids, c, n, 0) == 0,
    ensures
        chain_libs(colors, stones, ids, c, n, k) == 0,
    decreases n,
{
    if n > 0 {
        lemma_libs_range(colors, stones, ids, c, n - 1, 0);
        lemma_libs_zero(colors, stones, ids, c, n - 1, k);
    }
}

/// A string with a stone that has an empty neighbor has a liberty.
pub proof fn lemma_libs_positive(
    colors: Seq<Color>,
    stones: Seq<Color>,
    ids: Seq<Vertex>,
    c: int,
    u: int,
    e: int,
    n: int,
)
    requires
        0 <= u < n <= 443,
        stones_inside(stones),
        member(stones, ids, u, c),
        adjacent(e, u),
        colors[e] == Color::Empty,
    ensures
        chain_libs(colors, stones, ids, c, n, 0) >= 1,
    decreases n,
{
    lemma_libs_range(colors, stones, ids, c, n - 1, 0);
    if u < n - 1 {
        lemma_libs_positive(colors, stones, ids, c, u, e, n - 1);
        if member(stones, ids, n - 1, c) {
            assert(22 <= n - 1 <= 418);
        }
    }
}

/// A string with a liberty has a stone with an empty neighbor.
pub proof fn lemma_libs_exists(
    colors: Seq<Color>,
    stones: Seq<Color>,
    ids: Seq<Vertex>,
    c: int,
    n: int,
) -> (r: (int, int))
    requires
        0 <= n <= 443,
        chain_libs(colors, stones, ids, c, n, 0) >= 1,
    ensures
        0 <= r.0 < n,
        member(stones, ids, r.0, c),
        adjacent(r.1, r.0),
        colors[r.1] == Color::Empty,
    decreases n,
{
    if chain_libs(colors, stones, ids, c, n - 1, 0) >= 1 {
        lemma_libs_exists(colors, stones, ids, c, n - 1)
    } else {
        let u = n - 1;
        assert(member(stones, ids, u, c));
        assert(stone_libs(colors, u, 0) >= 1);
        if colors[u - 21] == Color::Empty {
            (u, u - 21)
        } else if colors[u - 1] == Color::Empty {
            (u, u - 1)
        } else if colors[u + 1] == Color::Empty {
            (u, u + 1)
        } else {
            (u, u + 21)
        }
    }
}

// ---------------------------------------------------------------------------
// Liberties counted once
// ---------------------------------------------------------------------------
/// The colors with the empty vertices from `m` on taken for off the board.
pub open spec fn masked(colors: Seq<Color>, m: int) -> Seq<Color> {
    Seq::new(
        443,
        |i: int|
            if i >= m && colors[i] == Color::Empty {
                Color::OffBoard
            } else {
                colors[i]
            },
    )
}

/// The `k`-th moment of the empty vertices below `m`, each counted once for
/// every stone of the string with the head `c` that touches it.
pub open spec fn touched_libs(
    colors: Seq<Color>,
    stones: Seq<Color>,
    ids: Seq<Vertex>,
    c: int,
    m: int,
    k: int,
) -> int
    decreases m,
{
    if m <= 0 {
        0
    } else {
        touched_libs(colors, stones, ids, c, m - 1, k) + if colors[m - 1] == Color::Empty {
            touching(stones, ids, c, m - 1, 443, k)
        } else {
            0
        }
    }
}

/// The `k`-th moment of the liberties below `m` of the string with the head
/// `c`: the empty vertices that a stone of the string touches, each counted
/// once.
pub open spec fn distinct_libs(
    colors: Seq<Color>,
    stones: Seq<Color>,
    ids: Seq<Vertex>,
    c: int,
    m: int,
    k: int,
) -> int
    decreases m,
{
    if m <= 0 {
        0
    } else {
        distinct_libs(colors, stones, ids, c, m - 1, k) + if colors[m - 1] == Color::Empty
            && touching(stones, ids, c, m - 1, 443, 0) >= 1 {
            pw(m - 1, k)
        } else {
            0
        }
    }
}

/// Without empty vertices there are no liberties.
pub proof fn lemma_libs_none(
    colors: Seq<Color>,
    stones: Seq<Color>,
    ids: Seq<Vertex>,
    c: int,
    n: int,
    k: int,
)
    requires
        0 <= n <= 443,
        colors.len() == 443,
        stones_inside(stones),
        forall|i: int| 0 <= i < 443 ==> #[trigger] colors[i] != Color::Empty,
    ensures
        chain_libs(colors, stones, ids, c, n, k) == 0,
    decreases n,
{
    if n > 0 {
        lemma_libs_none(colors, stones, ids, c, n - 1, k);
        if member(stones, ids, n - 1, c) {
            let u = n - 1;
            assert(colors[u - 21] != Color::Empty);
            assert(colors[u - 1] != Color::Empty);
            assert(colors[u + 1] != Color::Empty);
            assert(colors[u + 21] != Color::Empty);
        }
    }
}

/// The moments of a string, summed over its stones, are the moments of the
/// empty vertices, each counted once for every stone that touches it.
pub proof fn lemma_libs_by_vertex(
    colors: Seq<Color>,
    stones: Seq<Color>,
    ids: Seq<Vertex>,
    c: int,
    m: int,
    k: int,
)
    requires
        0 <= m <= 443,
        colors.len() == 443,
        stones_inside(stones),
    ensures
        chain_libs(masked(colors, m), stones, ids, c, 443, k) == touched_libs(
            colors,
            stones,
            ids,
            c,
            m,
            k,
        ),
    decreases m,
{
    if m > 0 {
        lemma_libs_by_vertex(colors, stones, ids, c, m - 1, k);
        let before = masked(colors, m - 1);
        let after = masked(colors, m);
        if colors[m - 1] == Color::Empty {
            assert(after =~= before.update(m - 1, Color::Empty));
            lemma_libs_free(before, stones, ids, c, m - 1, 443, k);
        } else {
            assert(after =~= before);
        }
    } else {
        lemma_libs_none(masked(colors, 0), stones, ids, c, 443, k);
    }
}

/// Where no empty vertex touches two stones of the string, counting the
/// liberties once for every stone is counting them once.
pub proof fn lemma_libs_distinct(
    colors: Seq<Color>,
    stones: Seq<Color>,
    ids: Seq<Vertex>,
    c: int,
    m: int,
    k: int,
)
    requires
        0 <= m <= 443,
        0 <= k <= 2,
        forall|e: int|
            0 <= e < 443 && colors[e] == Color::Empty ==> #[trigger] touching(
                stones,
                ids,
                c,
                e,
                443,
                0,
            ) <= 1,
    ensures
        touched_libs(colors, stones, ids, c, m, k) == distinct_libs(colors, stones, ids, c, m, k),
    decreases m,
{
    if m > 0 {
        lemma_libs_distinct(colors, stones, ids, c, m - 1, k);
        if colors[m - 1] == Color::Empty {
            assert(touching(stones, ids, c, m - 1, 443, 0) <= 1);
            lemma_touching_scale(stones, ids, c, m - 1, 443, k);
        }
    }
}

/// A stone that touches `x` adds the `k`-th power of `x` as often to the
/// `k`-th moment as it adds one to the count.
pub proof fn lemma_touching_scale(
    stones: Seq<Color>,
    ids: Seq<Vertex>,
    c: int,
    x: int,
    n: int,
    k: int,
)
    requires
        0 <= n <= 443,
    ensures
        touching(stones, ids, c, x, n, 0) >= 0,
        touching(stones, ids, c, x, n, 0) == 0 ==> touching(stones, ids, c, x, n, k) == 0,
        touching(stones, ids, c, x, n, 0) == 1 ==> touching(stones, ids, c, x, n, k) == pw(x, k),
    decreases n,
{
    if n > 0 {
        lemma_touching_scale(stones, ids, c, x, n - 1, k);
    }
}

// ---------------------------------------------------------------------------
// The liberties as a list
// ---------------------------------------------------------------------------
/// The vertex `e` if it is empty, as a list.
pub open spec fn lib_list(colors: Seq<Color>, e: int) -> Seq<int> {
    if colors[e] == Color::Empty {
        seq![e]
    } else {
        Seq::<int>::empty()
    }
}

/// The empty cardinal neighbors of `u`.
pub open spec fn stone_lib_list(colors: Seq<Color>, u: int) -> Seq<int> {
    lib_list(colors, u - 21) + lib_list(colors, u - 1) + lib_list(colors, u + 1) + lib_list(
        colors,
        u + 21,
    )
}

/// The liberties of the string with the head `c`, once for every stone below
/// `n` that touches them.
pub open spec fn chain_lib_list(
    colors: Seq<Color>,
    stones: Seq<Color>,
    ids: Seq<Vertex>,
    c: int,
    n: int,
) -> Seq<int>
    decreases n,
{
    if n <= 0 {
        Seq::<int>::empty()
    } else {
        chain_lib_list(colors, stones, ids, c, n - 1) + if member(stones, ids, n - 1, c) {
            stone_lib_list(colors, n - 1)
        } else {
            Seq::<int>::empty()
        }
    }
}

/// The moments `cnt`, `sum` and `sum2` are those of the list `s` of vertex
/// ids, which is short enough for its moments to fit 32 bits.
pub open spec fn is_witness(rec: Chain, s: Seq<int>) -> bool {
    &&& s.len() <= 2000
    &&& rec.lib_cnt == moment(s, s.len() as int, 0)
    &&& rec.lib_sum == moment(s, s.len() as int, 1)
    &&& rec.lib_sum2 == moment(s, s.len() as int, 2)
    &&& forall|i: int| 0 <= i < s.len() ==> 0 <= #[trigger] s[i] < 443
}

/// The moments of a list of vertex ids.
pub proof fn lemma_moment_range(s: Seq<int>, n: int, k: int)
    requires
        0 <= n <= s.len(),
        0 <= k <= 2,
        forall|i: int| 0 <= i < s.len() ==> 0 <= #[trigger] s[i] < 443,
    ensures
        0 <= moment(s, n, k) <= n * 195364,
    decreases n,
{
    if n > 0 {
        lemma_moment_range(s, n - 1, k);
        lemma_pw_range(s[n - 1], k);
    }
}

/// The moments of the list of the empty neighbors of a stone.
pub proof fn lemma_stone_lib_list(colors: Seq<Color>, u: int, k: int)
    requires
        22 <= u <= 418,
        0 <= k <= 2,
    ensures
        moment(stone_lib_list(colors, u), stone_lib_list(colors, u).len() as int, k) == stone_libs(
            colors,
            u,
            k,
        ),
        stone_lib_list(colors, u).len() <= 4,
        forall|i: int|
            0 <= i < stone_lib_list(colors, u).len() ==> 0 <= #[trigger] stone_lib_list(colors, u)[i]
                < 443 && colors[stone_lib_list(colors, u)[i]] == Color::Empty && adjacent(
                u,
                stone_lib_list(colors, u)[i],
            ),
{
    let a = lib_list(colors, u - 21);
    let b = lib_list(colors, u - 1);
    let c = lib_list(colors, u + 1);
    let d = lib_list(colors, u + 21);
    assert forall|e: int| #![trigger lib_list(colors, e)] moment(lib_list(colors, e), lib_list(colors, e).len() as int, k) == lib_term(
        colors,
        e,
        k,
    ) by {
        let l = lib_list(colors, e);
        if colors[e] == Color::Empty {
            assert(l.len() == 1);
            assert(l[0] == e);
            assert(moment(l, 0, k) == 0);
            assert(moment(l, 1, k) == moment(l, 0, k) + pw(l[0], k));
        } else {
            assert(l.len() == 0);
        }
    }
    lemma_moment_add(a, b, b.len() as int, k);
    lemma_moment_add(a + b, c, c.len() as int, k);
    lemma_moment_add(a + b + c, d, d.len() as int, k);
}

/// The list of the liberties of a string has the moments of the string, and
/// holds empty vertices.
pub proof fn lemma_chain_lib_list(
    colors: Seq<Color>,
    stones: Seq<Color>,
    ids: Seq<Vertex>,
    c: int,
    n: int,
    k: int,
)
    requires
        0 <= n <= 443,
        0 <= k <= 2,
        stones_inside(stones),
    ensures
        moment(
            chain_lib_list(colors, stones, ids, c, n),
            chain_lib_list(colors, stones, ids, c, n).len() as int,
            k,
        ) == chain_libs(colors, stones, ids, c, n, k),
        chain_lib_list(colors, stones, ids, c, n).len() <= 4 * n,
        forall|i: int|
            0 <= i < chain_lib_list(colors, stones, ids, c, n).len() ==> 0
                <= #[trigger] chain_lib_list(colors, stones, ids, c, n)[i] < 443
                && colors[chain_lib_list(colors, stones, ids, c, n)[i]] == Color::Empty,
    decreases n,
{
    if n > 0 {
        lemma_chain_lib_list(colors, stones, ids, c, n - 1, k);
        let before = chain_lib_list(colors, stones, ids, c, n - 1);
        if member(stones, ids, n - 1, c) {
            let more = stone_lib_list(colors, n - 1);
            lemma_stone_lib_list(colors, n - 1, k);
            lemma_moment_add(before, more, more.len() as int, k);
            let all = before + more;
            assert forall|i: int| 0 <= i < all.len() implies 0 <= #[trigger] all[i] < 443
                && colors[all[i]] == Color::Empty by {
                if i < before.len() {
                    assert(all[i] == before[i]);
                } else {
                    assert(all[i] == more[i - before.len()]);
                }
            }
        } else {
            assert(before + Seq::<int>::empty() =~= before);
        }
    }
}

/// An empty neighbor of a stone of a string is on the list of the liberties
/// of the string.
pub proof fn lemma_lib_listed(
    colors: Seq<Color>,
    stones: Seq<Color>,
    ids: Seq<Vertex>,
    c: int,
    u: int,
    e: int,
    n: int,
)
    requires
        0 <= u < n <= 443,
        member(stones, ids, u, c),
        adjacent(e, u),
        colors[e] == Color::Empty,
    ensures
        chain_lib_list(colors, stones, ids, c, n).contains(e),
    decreases n,
{
    let before = chain_lib_list(colors, stones, ids, c, n - 1);
    let all = chain_lib_list(colors, stones, ids, c, n);
    if u < n - 1 {
        lemma_lib_listed(colors, stones, ids, c, u, e, n - 1);
        let i = choose|i: int| 0 <= i < before.len() && before[i] == e;
        assert(all[i] == e);
    } else {
        let more = stone_lib_list(colors, u);
        let a = lib_list(colors, u - 21);
        let b = lib_list(colors, u - 1);
        let c2 = lib_list(colors, u + 1);
        let d = lib_list(colors, u + 21);
        assert(lib_list(colors, e) == seq![e]);
        assert(seq![e][0] == e);
        let j: int = if e == u - 21 {
            0
        } else if e == u - 1 {
            a.len() as int
        } else if e == u + 1 {
            (a.len() + b.len()) as int
        } else {
            (a.len() + b.len() + c2.len()) as int
        };
        assert(more[j] == e);
        assert(all[before.len() + j] == e);
    }
}

/// The record of a string whose moments match has the list of the
/// liberties of the string as a witness.
pub proof fn lemma_witness(
    colors: Seq<Color>,
    stones: Seq<Color>,
    ids: Seq<Vertex>,
    rec: Chain,
    c: int,
)
    requires
        stones_inside(stones),
        rec_matches(colors, stones, ids, rec, c),
    ensures
        is_witness(rec, chain_lib_list(colors, stones, ids, c, 443)),
{
    lemma_chain_lib_list(colors, stones, ids, c, 443, 0);
    lemma_chain_lib_list(colors, stones, ids, c, 443, 1);
    lemma_chain_lib_list(colors, stones, ids, c, 443, 2);
}

/// A record that counts `x` once more has the list with `x` once more as a
/// witness.
pub proof fn lemma_witness_push(rec: Chain, rec2: Chain, s: Seq<int>, x: int)
    requires
        is_witness(rec, s),
        s.len() < 2000,
        0 <= x < 443,
        same_moments(rec2, rec.lib_added(x)),
    ensures
        is_witness(rec2, s.push(x)),
{
    lemma_moment_push(s, x, 0);
    lemma_moment_push(s, x, 1);
    lemma_moment_push(s, x, 2);
    let t = s.push(x);
    assert(t.len() == s.len() + 1);
    assert forall|i: int| 0 <= i < t.len() implies 0 <= #[trigger] t[i] < 443 by {
        if i < s.len() {
            assert(t[i] == s[i]);
        }
    }
    lemma_moment_range(t, t.len() as int, 0);
    lemma_moment_range(t, t.len() as int, 1);
    lemma_moment_range(t, t.len() as int, 2);
}

/// Records with the same moments have the same witnesses.
pub proof fn lemma_witness_same(rec: Chain, rec2: Chain, s: Seq<int>)
    requires
        is_witness(rec, s),
        same_moments(rec2, rec),
    ensures
        is_witness(rec2, s),
{
}

} // verus!
