//! Strings are whole: stones of one color that touch belong to one string.

use crate::types::{Color, Vertex};
use vstd::prelude::*;

verus! {

/// Whether `ids` gives `u` and `w` the same head.
pub open spec fn same_head(ids: Seq<Vertex>, u: int, w: int) -> bool {
    ids[u].id() == ids[w].id()
}

/// If `u` and `w` are stones of one color, they have the same head.
pub open spec fn pair_ok(colors: Seq<Color>, ids: Seq<Vertex>, u: int, w: int) -> bool {
    colors[u].is_player() && colors[w] == colors[u] ==> same_head(ids, u, w)
}

/// The stone on `u` is linked with its cardinal neighbors of the same color;
/// pairs with the vertex `skip` are left out.
pub open spec fn links_ok(colors: Seq<Color>, ids: Seq<Vertex>, u: int, skip: int) -> bool {
    u != skip ==> {
        &&& (u - 21 != skip ==> pair_ok(colors, ids, u, u - 21))
        &&& (u - 1 != skip ==> pair_ok(colors, ids, u, u - 1))
        &&& (u + 1 != skip ==> pair_ok(colors, ids, u, u + 1))
        &&& (u + 21 != skip ==> pair_ok(colors, ids, u, u + 21))
    }
}

/// Stones of one color that touch have the same head, but for the pairs
/// with the vertex `skip`; no pair is left out when `skip` is no vertex.
#[verifier::opaque]
pub open spec fn joined_ok(colors: Seq<Color>, ids: Seq<Vertex>, skip: int) -> bool {
    forall|u: int| 22 <= u <= 418 ==> #[trigger] links_ok(colors, ids, u, skip)
}

/// The strings of `ids2` are unions of strings of `ids`, over the stones of
/// `colors2`, which are stones of `colors`.
#[verifier::opaque]
pub open spec fn coarser(
    colors: Seq<Color>,
    ids: Seq<Vertex>,
    colors2: Seq<Color>,
    ids2: Seq<Vertex>,
) -> bool {
    &&& forall|u: int| 0 <= u < 443 && (#[trigger] colors2[u]).is_player() ==> colors[u] == colors2[u]
    &&& forall|u: int, w: int|
        0 <= u < 443 && 0 <= w < 443 && colors2[u].is_player() && colors2[w].is_player()
            && #[trigger] same_head(ids, u, w) ==> same_head(ids2, u, w)
}

pub proof fn lemma_coarser_refl(colors: Seq<Color>, ids: Seq<Vertex>)
    ensures
        coarser(colors, ids, colors, ids),
{
    reveal(coarser);
}

pub proof fn lemma_coarser_trans(
    colors: Seq<Color>,
    ids: Seq<Vertex>,
    colors2: Seq<Color>,
    ids2: Seq<Vertex>,
    colors3: Seq<Color>,
    ids3: Seq<Vertex>,
)
    requires
        coarser(colors, ids, colors2, ids2),
        coarser(colors2, ids2, colors3, ids3),
    ensures
        coarser(colors, ids, colors3, ids3),
{
    reveal(coarser);
    assert forall|u: int, w: int|
        0 <= u < 443 && 0 <= w < 443 && colors3[u].is_player() && colors3[w].is_player()
            && #[trigger] same_head(ids, u, w) implies same_head(ids3, u, w) by {
        assert(colors2[u] == colors3[u]);
        assert(colors2[w] == colors3[w]);
        assert(same_head(ids2, u, w));
    }
}

/// What `coarser` says of two stones.
pub proof fn lemma_coarser(
    colors: Seq<Color>,
    ids: Seq<Vertex>,
    colors2: Seq<Color>,
    ids2: Seq<Vertex>,
    u: int,
    w: int,
)
    requires
        coarser(colors, ids, colors2, ids2),
        0 <= u < 443,
        0 <= w < 443,
        colors2[u].is_player(),
        colors2[w].is_player(),
    ensures
        colors[u] == colors2[u],
        colors[w] == colors2[w],
        same_head(ids, u, w) ==> same_head(ids2, u, w),
{
    reveal(coarser);
}

/// Strings stay whole when strings are joined and stones taken off.
pub proof fn lemma_joined_coarser(
    colors: Seq<Color>,
    ids: Seq<Vertex>,
    colors2: Seq<Color>,
    ids2: Seq<Vertex>,
    skip: int,
)
    requires
        joined_ok(colors, ids, skip),
        coarser(colors, ids, colors2, ids2),
    ensures
        joined_ok(colors2, ids2, skip),
{
    reveal(joined_ok);
    reveal(coarser);
    assert forall|u: int| 22 <= u <= 418 implies #[trigger] links_ok(colors2, ids2, u, skip) by {
        assert(links_ok(colors, ids, u, skip));
        if colors2[u].is_player() {
            assert(colors[u] == colors2[u]);
            if colors2[u - 21] == colors2[u] {
                assert(same_head(ids, u, u - 21) ==> same_head(ids2, u, u - 21));
            }
            if colors2[u - 1] == colors2[u] {
                assert(same_head(ids, u, u - 1) ==> same_head(ids2, u, u - 1));
            }
            if colors2[u + 1] == colors2[u] {
                assert(same_head(ids, u, u + 1) ==> same_head(ids2, u, u + 1));
            }
            if colors2[u + 21] == colors2[u] {
                assert(same_head(ids, u, u + 21) ==> same_head(ids2, u, u + 21));
            }
        }
    }
}

/// A new stone on `v` leaves the other stones linked as they were.
pub proof fn lemma_joined_place(colors: Seq<Color>, ids: Seq<Vertex>, v: Vertex, to: Color)
    requires
        joined_ok(colors, ids, -1),
        22 <= v.id() <= 418,
        colors.len() == 443,
        ids.len() == 443,
    ensures
        joined_ok(colors.update(v.id(), to), ids.update(v.id(), v), v.id()),
{
    reveal(joined_ok);
    let colors2 = colors.update(v.id(), to);
    let ids2 = ids.update(v.id(), v);
    assert forall|u: int| 22 <= u <= 418 implies #[trigger] links_ok(colors2, ids2, u, v.id()) by {
        assert(links_ok(colors, ids, u, -1));
    }
}

/// When the stone on `v` has the head of each of its neighbors of its
/// color, no pair is left out.
pub proof fn lemma_joined_done(colors: Seq<Color>, ids: Seq<Vertex>, v: int)
    requires
        joined_ok(colors, ids, v),
        22 <= v <= 418,
        colors[v].is_player(),
        pair_ok(colors, ids, v, v - 21),
        pair_ok(colors, ids, v, v - 1),
        pair_ok(colors, ids, v, v + 1),
        pair_ok(colors, ids, v, v + 21),
    ensures
        joined_ok(colors, ids, -1),
{
    reveal(joined_ok);
    assert forall|u: int| 22 <= u <= 418 implies #[trigger] links_ok(colors, ids, u, -1) by {
        assert(links_ok(colors, ids, u, v));
    }
}

/// What `joined_ok` says of a stone and a neighbor.
pub proof fn lemma_joined(colors: Seq<Color>, ids: Seq<Vertex>, skip: int, u: int, w: int)
    requires
        joined_ok(colors, ids, skip),
        22 <= u <= 418,
        w == u - 21 || w == u - 1 || w == u + 1 || w == u + 21,
        u != skip,
        w != skip,
        colors[u].is_player(),
        colors[w] == colors[u],
    ensures
        same_head(ids, u, w),
{
    reveal(joined_ok);
    assert(links_ok(colors, ids, u, skip));
}

} // verus!
