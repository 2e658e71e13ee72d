//! Atari flags: what the four flags of a fingerprint say of the strings
//! around an empty vertex.

use crate::board::Chain;
use crate::hash::Hash3x3;
use crate::position::is_head;
use crate::types::{Color, Dir, Vertex};
use vstd::prelude::*;

verus! {

/// Whether a record is that of a string in atari: it counts a liberty, and
/// its moments are those of one vertex.
pub open spec fn rec_in_atari(rec: Chain) -> bool {
    rec.spec_is_in_atari() && rec.lib_cnt != 0
}

/// Whether a stone stands on `n` whose string is in atari.
pub open spec fn stone_in_atari(colors: Seq<Color>, ids: Seq<Vertex>, recs: Seq<Chain>, n: int) -> bool {
    colors[n].is_player() && rec_in_atari(recs[ids[n].id()])
}

/// Whether a stone stands on `n` whose string is one of `dirty`.
pub open spec fn stone_dirty(colors: Seq<Color>, ids: Seq<Vertex>, dirty: Set<int>, n: int) -> bool {
    colors[n].is_player() && dirty.contains(ids[n].id())
}

/// The flag of the fingerprint `h` of the vertex `e` for the direction `d`.
pub open spec fn flag_of(patterns: Seq<Hash3x3>, e: int, d: Dir) -> bool {
    patterns[e].spec_is_in_atari(d)
}

/// The flag that the vertex `e` holds for its neighbor in the direction `d`
/// is raised exactly if a stone stands there whose string is in atari; for a
/// stone of a string of `dirty`, whose flags a move has yet to set, it is
/// down.
pub open spec fn flag_ok(
    colors: Seq<Color>,
    ids: Seq<Vertex>,
    recs: Seq<Chain>,
    patterns: Seq<Hash3x3>,
    dirty: Set<int>,
    e: int,
    d: Dir,
) -> bool {
    flag_of(patterns, e, d) == (stone_in_atari(colors, ids, recs, e + d.offset()) && !stone_dirty(
        colors,
        ids,
        dirty,
        e + d.offset(),
    ))
}

/// The flags of every empty vertex are as `flag_ok` says.
#[verifier::opaque]
pub open spec fn atari_ok(
    colors: Seq<Color>,
    ids: Seq<Vertex>,
    recs: Seq<Chain>,
    patterns: Seq<Hash3x3>,
    dirty: Set<int>,
) -> bool {
    forall|e: int, d: Dir|
        0 <= e < 443 && colors[e] == Color::Empty && d.spec_is_simple4() ==> #[trigger] flag_ok(
            colors,
            ids,
            recs,
            patterns,
            dirty,
            e,
            d,
        )
}

/// Every string that is not one of `dirty` has a liberty.
#[verifier::opaque]
pub open spec fn alive_but(
    colors: Seq<Color>,
    ids: Seq<Vertex>,
    recs: Seq<Chain>,
    dirty: Set<int>,
) -> bool {
    forall|c: int|
        0 <= c < 443 && is_head(colors, ids, c) && !dirty.contains(c) ==> (#[trigger] recs[c]).lib_cnt
            != 0
}

/// What `atari_ok` says of one flag.
pub proof fn lemma_flag(
    colors: Seq<Color>,
    ids: Seq<Vertex>,
    recs: Seq<Chain>,
    patterns: Seq<Hash3x3>,
    dirty: Set<int>,
    e: int,
    d: Dir,
)
    requires
        atari_ok(colors, ids, recs, patterns, dirty),
        0 <= e < 443,
        colors[e] == Color::Empty,
        d.spec_is_simple4(),
    ensures
        flag_ok(colors, ids, recs, patterns, dirty, e, d),
{
    reveal(atari_ok);
}

} // verus!
