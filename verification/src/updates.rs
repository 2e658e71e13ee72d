//! How the invariants of a position survive the elementary updates: one
//! vertex changes its color, and the tables follow.

use crate::board::{player_unit, wrap32, NbrCounter};
use crate::hash::Hash3x3;
use crate::position::{
    changed_ok, counter_matches, counters_ok, empty_ok, geom_ok, nbr_empty_count, nbr_player_count,
    pattern_matches, patterns_ok, within,
};
use crate::types::{Color, Dir, Nat, Player, Vertex};
use vstd::prelude::*;

verus! {

/// Recoloring a vertex of the board keeps the board where it is.
pub proof fn lemma_geom_recolor(colors: Seq<Color>, w: int, h: int, i: int, c: Color)
    requires
        geom_ok(colors, w, h),
        0 <= i < 443,
        colors[i] != Color::OffBoard,
        c != Color::OffBoard,
    ensures
        geom_ok(colors.update(i, c), w, h),
{
    reveal(geom_ok);
}

/// Taking the vertex `i` off the list of empty vertices: the last entry
/// moves to its place.
pub proof fn lemma_empty_take(
    colors: Seq<Color>,
    list: Seq<Vertex>,
    pos: Seq<u32>,
    cnt: int,
    i: int,
    c: Color,
)
    requires
        empty_ok(colors, list, pos, cnt),
        0 <= i < 443,
        colors[i] == Color::Empty,
        c != Color::Empty,
    ensures
        1 <= cnt <= 361,
        0 <= pos[i] < cnt,
        0 <= list[cnt - 1].id() < 443,
        empty_ok(
            colors.update(i, c),
            list.update(pos[i] as int, list[cnt - 1]),
            pos.update(list[cnt - 1].id(), pos[i]),
            cnt - 1,
        ),
{
    reveal(empty_ok);
    let p = pos[i] as int;
    let last = list[cnt - 1];
    let colors2 = colors.update(i, c);
    let list2 = list.update(p, last);
    let pos2 = pos.update(last.id(), pos[i]);
    assert(list[p].id() == i);
    assert forall|k: int| 0 <= k < cnt - 1 implies 0 <= (#[trigger] list2[k]).id() < 443
        && colors2[list2[k].id()] == Color::Empty && pos2[list2[k].id()] == k by {
        if k == p {
            assert(list2[k] == last);
            assert(pos[last.id()] == cnt - 1);
        } else {
            assert(list2[k] == list[k]);
            assert(pos[list[k].id()] == k);
        }
    }
    assert forall|j: int| 0 <= j < 443 && #[trigger] colors2[j] == Color::Empty implies pos2[j]
        < cnt - 1 && list2[pos2[j] as int].id() == j by {
        assert(colors[j] == Color::Empty);
        assert(j != i);
        if j == last.id() {
        } else {
            assert(list[pos[j] as int].id() == j);
        }
    }
}

/// Putting the vertex `i` at the end of the list of empty vertices.
pub proof fn lemma_empty_put(
    colors: Seq<Color>,
    list: Seq<Vertex>,
    pos: Seq<u32>,
    cnt: int,
    v: Vertex,
)
    requires
        empty_ok(colors, list, pos, cnt),
        0 <= v.id() < 443,
        colors[v.id()] != Color::Empty,
        cnt < 361,
    ensures
        empty_ok(
            colors.update(v.id(), Color::Empty),
            list.update(cnt, v),
            pos.update(v.id(), cnt as u32),
            cnt + 1,
        ),
{
    reveal(empty_ok);
    let i = v.id();
    let colors2 = colors.update(i, Color::Empty);
    let list2 = list.update(cnt, v);
    let pos2 = pos.update(i, cnt as u32);
    assert forall|k: int| 0 <= k < cnt + 1 implies 0 <= (#[trigger] list2[k]).id() < 443
        && colors2[list2[k].id()] == Color::Empty && pos2[list2[k].id()] == k by {
        if k < cnt {
            assert(list2[k] == list[k]);
            assert(colors[list[k].id()] == Color::Empty);
        }
    }
    assert forall|j: int| 0 <= j < 443 && #[trigger] colors2[j] == Color::Empty implies pos2[j]
        < cnt + 1 && list2[pos2[j] as int].id() == j by {
        if j != i {
            assert(colors[j] == Color::Empty);
        }
    }
}

/// The fingerprints follow when the vertex `v` takes the color `c` and every
/// fingerprint that looks at `v` records `c` there.
pub proof fn lemma_patterns_recolor(
    colors: Seq<Color>,
    patterns: Seq<Hash3x3>,
    patterns2: Seq<Hash3x3>,
    w: int,
    h: int,
    v: int,
    c: Color,
)
    requires
        patterns_ok(colors, patterns, w, h),
        1 <= w <= 19,
        1 <= h <= 19,
        colors.len() == 443,
        0 <= v < 443,
        patterns2.len() == 443,
        forall|i: int, d: Dir|
            0 <= i < 443 && within(i, w, h) ==> #[trigger] patterns2[i].spec_color_at(d) == if i
                + d.offset() == v {
                c
            } else {
                patterns[i].spec_color_at(d)
            },
    ensures
        patterns_ok(colors.update(v, c), patterns2, w, h),
{
    reveal(patterns_ok);
    let colors2 = colors.update(v, c);
    assert forall|i: int| 0 <= i < 443 && within(i, w, h) implies #[trigger] pattern_matches(
        colors2,
        i,
        patterns2[i],
    ) by {
        assert(pattern_matches(colors, i, patterns[i]));
        assert forall|d: Dir| #[trigger] patterns2[i].spec_color_at(d) == colors2[i + d.offset()] by {
            assert(patterns[i].spec_color_at(d) == colors[i + d.offset()]);
            assert(0 <= i + d.offset() < 443);
        }
    }
}

/// Fingerprints that keep their colors keep matching.
pub proof fn lemma_patterns_flags(
    colors: Seq<Color>,
    patterns: Seq<Hash3x3>,
    patterns2: Seq<Hash3x3>,
    w: int,
    h: int,
)
    requires
        patterns_ok(colors, patterns, w, h),
        patterns2.len() == 443,
        forall|i: int, d: Dir|
            0 <= i < 443 ==> #[trigger] patterns2[i].spec_color_at(d) == patterns[i].spec_color_at(
                d,
            ),
    ensures
        patterns_ok(colors, patterns2, w, h),
{
    reveal(patterns_ok);
    assert forall|i: int| 0 <= i < 443 && within(i, w, h) implies #[trigger] pattern_matches(
        colors,
        i,
        patterns2[i],
    ) by {
        assert(pattern_matches(colors, i, patterns[i]));
        assert forall|d: Dir| #[trigger] patterns2[i].spec_color_at(d) == colors[i + d.offset()] by {
            assert(patterns[i].spec_color_at(d) == colors[i + d.offset()]);
        }
    }
}

/// Whether `i` is a cardinal neighbor of `v`.
pub open spec fn adjacent(i: int, v: int) -> bool {
    i == v - 21 || i == v - 1 || i == v + 1 || i == v + 21
}

/// The counters follow when a stone of `pl` is put on the empty vertex `v`
/// and every cardinal neighbor counts it.
pub proof fn lemma_counters_place(
    colors: Seq<Color>,
    counters: Seq<NbrCounter>,
    counters2: Seq<NbrCounter>,
    w: int,
    h: int,
    v: int,
    pl: Player,
)
    requires
        counters_ok(colors, counters, w, h),
        1 <= w <= 19,
        1 <= h <= 19,
        colors.len() == 443,
        22 <= v <= 418,
        colors[v] == Color::Empty,
        counters2.len() == 443,
        forall|i: int|
            0 <= i < 443 && within(i, w, h) ==> (#[trigger] counters2[i]).bits() == if adjacent(i, v) {
                wrap32(counters[i].bits() + player_unit(pl) - 256)
            } else {
                counters[i].bits()
            },
    ensures
        counters_ok(colors.update(v, Color::of_player(pl)), counters2, w, h),
{
    reveal(counters_ok);
    let colors2 = colors.update(v, Color::of_player(pl));
    assert forall|i: int| 0 <= i < 443 && within(i, w, h) implies #[trigger] counter_matches(
        colors2,
        i,
        counters2[i],
    ) by {
        assert(counter_matches(colors, i, counters[i]));
        assert(22 <= i <= 418);
        let b = nbr_player_count(colors, i, Player::Black);
        let wh = nbr_player_count(colors, i, Player::White);
        let e = nbr_empty_count(colors, i);
        let bits = counters[i].bits() as int;
        assert(bits == b + 16 * wh + 256 * e);
        assert(0 <= b <= 4 && 0 <= wh <= 4 && 0 <= e <= 4);
        if adjacent(i, v) {
            assert(e >= 1);
            let x = bits + player_unit(pl) - 256;
            assert(0 <= x < 0x1_0000_0000);
            assert(wrap32(x) == x);
            assert(counters2[i].bits() == x);
            assert(nbr_empty_count(colors2, i) == e - 1);
            assert(nbr_player_count(colors2, i, Player::Black) == b + if pl == Player::Black {
                1int
            } else {
                0int
            });
            assert(nbr_player_count(colors2, i, Player::White) == wh + if pl == Player::White {
                1int
            } else {
                0int
            });
        } else {
            assert(counters2[i].bits() == bits);
            assert(nbr_empty_count(colors2, i) == e);
            assert(nbr_player_count(colors2, i, Player::Black) == b);
            assert(nbr_player_count(colors2, i, Player::White) == wh);
        }
    }
}

/// The counters follow when the stone of `pl` on `v` is taken off and every
/// cardinal neighbor counts that.
pub proof fn lemma_counters_remove(
    colors: Seq<Color>,
    counters: Seq<NbrCounter>,
    counters2: Seq<NbrCounter>,
    w: int,
    h: int,
    v: int,
    pl: Player,
)
    requires
        counters_ok(colors, counters, w, h),
        1 <= w <= 19,
        1 <= h <= 19,
        colors.len() == 443,
        22 <= v <= 418,
        colors[v] == Color::of_player(pl),
        counters2.len() == 443,
        forall|i: int|
            0 <= i < 443 && within(i, w, h) ==> (#[trigger] counters2[i]).bits() == if adjacent(i, v) {
                wrap32(counters[i].bits() - player_unit(pl) + 256)
            } else {
                counters[i].bits()
            },
    ensures
        counters_ok(colors.update(v, Color::Empty), counters2, w, h),
{
    reveal(counters_ok);
    let colors2 = colors.update(v, Color::Empty);
    assert forall|i: int| 0 <= i < 443 && within(i, w, h) implies #[trigger] counter_matches(
        colors2,
        i,
        counters2[i],
    ) by {
        assert(counter_matches(colors, i, counters[i]));
        assert(22 <= i <= 418);
        let b = nbr_player_count(colors, i, Player::Black);
        let wh = nbr_player_count(colors, i, Player::White);
        let e = nbr_empty_count(colors, i);
        let bits = counters[i].bits() as int;
        assert(bits == b + 16 * wh + 256 * e);
        assert(0 <= b <= 4 && 0 <= wh <= 4 && 0 <= e <= 4);
        if adjacent(i, v) {
            assert(pl == Player::Black ==> b >= 1);
            assert(pl == Player::White ==> wh >= 1);
            let x = bits - player_unit(pl) + 256;
            assert(0 <= x < 0x1_0000_0000);
            assert(wrap32(x) == x);
            assert(counters2[i].bits() == x);
            assert(nbr_empty_count(colors2, i) == e + 1);
            assert(nbr_player_count(colors2, i, Player::Black) == b - if pl == Player::Black {
                1int
            } else {
                0int
            });
            assert(nbr_player_count(colors2, i, Player::White) == wh - if pl == Player::White {
                1int
            } else {
                0int
            });
        } else {
            assert(counters2[i].bits() == bits);
            assert(nbr_empty_count(colors2, i) == e);
            assert(nbr_player_count(colors2, i, Player::Black) == b);
            assert(nbr_player_count(colors2, i, Player::White) == wh);
        }
    }
}

// ---------------------------------------------------------------------------
// The list of changed vertices
// ---------------------------------------------------------------------------
/// The marks are the vertices on the list.
pub open spec fn marks_ok(marks: Set<int>, changed: Seq<u32>) -> bool {
    forall|i: int| 0 <= i < 443 ==> (marks.contains(i) <==> #[trigger] in_list(changed, i))
}

/// Whether the list holds the id `i`.
pub open spec fn in_list(changed: Seq<u32>, i: int) -> bool {
    exists|k: int| 0 <= k < changed.len() && #[trigger] changed[k] == i
}

/// A sequence of different numbers below `n` has at most `n` entries.
pub proof fn lemma_pigeonhole(s: Seq<int>, n: int)
    requires
        0 <= n,
        s.no_duplicates(),
        forall|k: int| 0 <= k < s.len() ==> 0 <= #[trigger] s[k] < n,
    ensures
        s.len() <= n,
{
    s.unique_seq_to_set();
    vstd::set_lib::lemma_int_range(0, n);
    assert(s.to_set().subset_of(vstd::set_lib::set_int_range(0, n))) by {
        assert forall|a: int| s.to_set().contains(a) implies vstd::set_lib::set_int_range(
            0,
            n,
        ).contains(a) by {
            let k = choose|k: int| 0 <= k < s.len() && s[k] == a;
            assert(0 <= s[k] < n);
        }
    }
    vstd::set_lib::lemma_len_subset(s.to_set(), vstd::set_lib::set_int_range(0, n));
}

/// An empty vertex that is not on the list of changed vertices finds room
/// there: the list is shorter than the list of empty vertices.
pub proof fn lemma_changed_room(
    colors: Seq<Color>,
    list: Seq<Vertex>,
    pos: Seq<u32>,
    cnt: int,
    changed: Seq<u32>,
    x: int,
)
    requires
        empty_ok(colors, list, pos, cnt),
        changed_ok(colors, changed),
        0 <= x < 443,
        colors[x] == Color::Empty,
        !in_list(changed, x),
    ensures
        changed.len() < cnt <= 361,
{
    reveal(empty_ok);
    reveal(changed_ok);
    let n = changed.len() as int;
    let s = Seq::new(
        (n + 1) as nat,
        |k: int|
            if k < n {
                pos[changed[k] as int] as int
            } else {
                pos[x] as int
            },
    );
    assert forall|k: int| 0 <= k < s.len() implies 0 <= #[trigger] s[k] < cnt by {
        if k < n {
            assert(colors[changed[k] as int] == Color::Empty);
        }
    }
    assert forall|j: int, k: int| 0 <= j < s.len() && 0 <= k < s.len() && j != k implies s[j]
        != s[k] by {
        let a = if j < n {
            changed[j] as int
        } else {
            x
        };
        let b = if k < n {
            changed[k] as int
        } else {
            x
        };
        if j < n {
            assert(colors[changed[j] as int] == Color::Empty);
        }
        if k < n {
            assert(colors[changed[k] as int] == Color::Empty);
        }
        assert(list[pos[a] as int].id() == a);
        assert(list[pos[b] as int].id() == b);
        if j < n && k < n {
            if j < k {
                assert(changed[j] != changed[k]);
            } else {
                assert(changed[k] != changed[j]);
            }
        } else if j < n {
            assert(changed[j] == a);
            assert(a != x);
        } else {
            assert(changed[k] == b);
            assert(b != x);
        }
    }
    lemma_pigeonhole(s, cnt);
}

/// Putting an empty vertex that is not marked on the list, and marking it.
pub proof fn lemma_changed_push(colors: Seq<Color>, changed: Seq<u32>, marks: Set<int>, x: u32)
    requires
        changed_ok(colors, changed),
        marks_ok(marks, changed),
        0 <= x < 443,
        colors[x as int] == Color::Empty,
        !marks.contains(x as int),
    ensures
        changed_ok(colors, changed.push(x)),
        marks_ok(marks.insert(x as int), changed.push(x)),
        !in_list(changed, x as int),
{
    reveal(changed_ok);
    let changed2 = changed.push(x);
    assert(!in_list(changed, x as int));
    assert forall|j: int, k: int| 0 <= j < k < changed2.len() implies #[trigger] changed2[j]
        != #[trigger] changed2[k] by {
        if k == changed.len() {
            assert(changed[j] == changed2[j]);
        } else {
            assert(changed[j] != changed[k]);
        }
    }
    assert forall|i: int| 0 <= i < 443 implies (marks.insert(x as int).contains(i)
        <==> #[trigger] in_list(changed2, i)) by {
        if in_list(changed2, i) {
            let k = choose|k: int| 0 <= k < changed2.len() && changed2[k] == i;
            if k < changed.len() {
                assert(changed[k] == i);
                assert(in_list(changed, i));
            }
        }
        if in_list(changed, i) {
            let k = choose|k: int| 0 <= k < changed.len() && changed[k] == i;
            assert(changed2[k] == i);
        }
        if i == x {
            assert(changed2[changed.len() as int] == i);
        }
    }
}

/// The list of changed vertices stands when a vertex that is not on it
/// changes its color, or when a vertex becomes empty.
pub proof fn lemma_changed_recolor(colors: Seq<Color>, changed: Seq<u32>, i: int, c: Color)
    requires
        changed_ok(colors, changed),
        0 <= i < 443,
        colors.len() == 443,
        c == Color::Empty || !in_list(changed, i),
    ensures
        changed_ok(colors.update(i, c), changed),
{
    reveal(changed_ok);
    assert forall|k: int| 0 <= k < changed.len() implies (#[trigger] changed[k]) < 443
        && colors.update(i, c)[changed[k] as int] == Color::Empty by {
        if changed[k] == i {
            assert(in_list(changed, i));
        }
    }
}

/// An empty list of changed vertices, with no marks.
pub proof fn lemma_changed_empty(colors: Seq<Color>)
    ensures
        changed_ok(colors, Seq::<u32>::empty()),
        marks_ok(Set::<int>::empty(), Seq::<u32>::empty()),
        forall|i: int| !in_list(Seq::<u32>::empty(), i),
{
    reveal(changed_ok);
}

// ---------------------------------------------------------------------------
// Repainting the fingerprints around a vertex
// ---------------------------------------------------------------------------
/// `patterns2` is `patterns` after the color `c` of `v` was written into the
/// fingerprints of the neighbors of `v` in the first `k` directions; the
/// atari flags are as they were.
pub open spec fn repainted(
    patterns: Seq<Hash3x3>,
    patterns2: Seq<Hash3x3>,
    v: int,
    c: Color,
    k: int,
) -> bool {
    &&& patterns2.len() == 443
    &&& forall|j: int, d: Dir|
        0 <= j < 443 ==> #[trigger] patterns2[j].spec_color_at(d) == if j + d.offset() == v
            && d.spec_opposite().raw_spec() < k {
            c
        } else {
            patterns[j].spec_color_at(d)
        }
    &&& forall|j: int, d: Dir|
        0 <= j < 443 ==> #[trigger] patterns2[j].spec_is_in_atari(d) == patterns[j].spec_is_in_atari(
            d,
        )
}

/// One step of repainting: the neighbor of `v` in direction `dir` records
/// `c` in the opposite direction.
pub proof fn lemma_repaint_step(
    patterns: Seq<Hash3x3>,
    cur: Seq<Hash3x3>,
    v: int,
    c: Color,
    dir: Dir,
    h2: Hash3x3,
)
    requires
        patterns.len() == 443,
        repainted(patterns, cur, v, c, dir.raw_spec() as int),
        0 <= v + dir.offset() < 443,
        forall|d: Dir| #[trigger]
            h2.spec_color_at(d) == if d == dir.spec_opposite() {
                c
            } else {
                cur[v + dir.offset()].spec_color_at(d)
            },
        forall|d: Dir| #[trigger]
            h2.spec_is_in_atari(d) == cur[v + dir.offset()].spec_is_in_atari(d),
    ensures
        repainted(patterns, cur.update(v + dir.offset(), h2), v, c, dir.raw_spec() as int + 1),
{
    let nbr = v + dir.offset();
    let next = cur.update(nbr, h2);
    let k = dir.raw_spec() as int;
    assert forall|j: int, d: Dir| 0 <= j < 443 implies #[trigger] next[j].spec_color_at(d) == if j
        + d.offset() == v && d.spec_opposite().raw_spec() < k + 1 {
        c
    } else {
        patterns[j].spec_color_at(d)
    } by {
        assert(cur[j].spec_color_at(d) == if j + d.offset() == v && d.spec_opposite().raw_spec()
            < k {
            c
        } else {
            patterns[j].spec_color_at(d)
        });
        if j == nbr {
            assert(next[j] == h2);
        } else {
            assert(next[j] == cur[j]);
        }
    }
    assert forall|j: int, d: Dir| 0 <= j < 443 implies #[trigger] next[j].spec_is_in_atari(d)
        == patterns[j].spec_is_in_atari(d) by {
        assert(cur[j].spec_is_in_atari(d) == patterns[j].spec_is_in_atari(d));
        if j == nbr {
            assert(next[j] == h2);
        } else {
            assert(next[j] == cur[j]);
        }
    }
}

/// Nothing is repainted before the first step.
pub proof fn lemma_repaint_start(patterns: Seq<Hash3x3>, v: int, c: Color)
    requires
        patterns.len() == 443,
    ensures
        repainted(patterns, patterns, v, c, 0),
{
}

/// After all eight steps the fingerprints match the new color of `v`.
pub proof fn lemma_repaint_done(
    colors: Seq<Color>,
    patterns: Seq<Hash3x3>,
    patterns2: Seq<Hash3x3>,
    w: int,
    h: int,
    v: int,
    c: Color,
)
    requires
        patterns_ok(colors, patterns, w, h),
        1 <= w <= 19,
        1 <= h <= 19,
        colors.len() == 443,
        0 <= v < 443,
        repainted(patterns, patterns2, v, c, 8),
    ensures
        patterns_ok(colors.update(v, c), patterns2, w, h),
{
    assert forall|j: int, d: Dir| 0 <= j < 443 && within(j, w, h) implies #[trigger] patterns2[j].spec_color_at(
        d,
    ) == if j + d.offset() == v {
        c
    } else {
        patterns[j].spec_color_at(d)
    } by {
        assert(d.spec_opposite().raw_spec() < 8);
    }
    lemma_patterns_recolor(colors, patterns, patterns2, w, h, v, c);
}

/// Every vertex that is empty now, and was not before or has another
/// fingerprint than before, is on the list of changed vertices; and what was
/// on the list before is still there.
pub open spec fn noted(
    colors: Seq<Color>,
    patterns: Seq<Hash3x3>,
    changed: Seq<u32>,
    colors2: Seq<Color>,
    patterns2: Seq<Hash3x3>,
    changed2: Seq<u32>,
) -> bool {
    &&& forall|i: int| 0 <= i < 443 && in_list(changed, i) ==> #[trigger] in_list(changed2, i)
    &&& forall|i: int|
        0 <= i < 443 && colors2[i] == Color::Empty && (patterns2[i] != patterns[i] || colors[i]
            != Color::Empty) ==> #[trigger] in_list(changed2, i)
}

/// `noted` composes.
pub proof fn lemma_noted_trans(
    colors: Seq<Color>,
    patterns: Seq<Hash3x3>,
    changed: Seq<u32>,
    colors2: Seq<Color>,
    patterns2: Seq<Hash3x3>,
    changed2: Seq<u32>,
    colors3: Seq<Color>,
    patterns3: Seq<Hash3x3>,
    changed3: Seq<u32>,
)
    requires
        noted(colors, patterns, changed, colors2, patterns2, changed2),
        noted(colors2, patterns2, changed2, colors3, patterns3, changed3),
    ensures
        noted(colors, patterns, changed, colors3, patterns3, changed3),
{
    assert forall|i: int| 0 <= i < 443 && in_list(changed, i) implies #[trigger] in_list(
        changed3,
        i,
    ) by {
        assert(in_list(changed2, i));
    }
    assert forall|i: int|
        0 <= i < 443 && colors3[i] == Color::Empty && (patterns3[i] != patterns[i] || colors[i]
            != Color::Empty) implies #[trigger] in_list(changed3, i) by {
        if patterns3[i] != patterns2[i] || colors2[i] != Color::Empty {
        } else {
            assert(in_list(changed2, i));
        }
    }
}

/// Pushing keeps what was on the list.
pub proof fn lemma_in_list_push(changed: Seq<u32>, x: u32, i: int)
    ensures
        in_list(changed, i) ==> in_list(changed.push(x), i),
        in_list(changed.push(x), x as int),
{
    let changed2 = changed.push(x);
    if in_list(changed, i) {
        let k = choose|k: int| 0 <= k < changed.len() && changed[k] == i;
        assert(changed2[k] == i);
    }
    assert(changed2[changed.len() as int] == x);
}

} // verus!
