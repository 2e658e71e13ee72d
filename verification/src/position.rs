//! The mathematical model of a position: what the tables of a board mean,
//! stated over plain sequences indexed by vertex id, and the facts about
//! these statements that the board's operations rest on.

use crate::board::{Chain, NbrCounter};
use crate::hash::{b2i, zobrist_word, Hash3x3};
use crate::types::{Color, Dir, Player, Vertex};
use vstd::prelude::*;

verus! {

// ---------------------------------------------------------------------------
// Geometry
// ---------------------------------------------------------------------------
/// Whether the vertex `id` lies on a board of `w` columns and `h` rows.
pub open spec fn within(id: int, w: int, h: int) -> bool {
    1 <= id / 21 <= h && 1 <= id % 21 <= w
}

/// Number of vertices below `n` that lie on the board.
pub open spec fn within_before(n: int, w: int, h: int) -> int {
    let r = n / 21;
    let c = n % 21;
    let rows = if r < 1 {
        0
    } else if r - 1 < h {
        r - 1
    } else {
        h
    };
    let part = if 1 <= r <= h {
        if c < 1 {
            0
        } else if c - 1 < w {
            c - 1
        } else {
            w
        }
    } else {
        0
    };
    rows * w + part
}

/// `within_before` counts one more for every vertex on the board.
pub proof fn lemma_within_step(n: int, w: int, h: int)
    requires
        0 <= n < 443,
        1 <= w <= 19,
        1 <= h <= 19,
    ensures
        within_before(n + 1, w, h) == within_before(n, w, h) + b2i(within(n, w, h)),
        within_before(0, w, h) == 0,
        within_before(443, w, h) == w * h,
        0 <= within_before(n, w, h) <= w * h,
        within_before(n + 1, w, h) <= w * h,
        w * h <= 361,
{
    assert(w * h <= 361) by (nonlinear_arith)
        requires
            1 <= w <= 19,
            1 <= h <= 19,
    ;
    let r = n / 21;
    let c = n % 21;
    assert((r - 1) * w + w == r * w) by (nonlinear_arith);
    assert(0 * w == 0) by (nonlinear_arith);
    assert(h * w == w * h) by (nonlinear_arith);
    if c == 20 {
        assert((n + 1) / 21 == r + 1 && (n + 1) % 21 == 0);
    } else {
        assert((n + 1) / 21 == r && (n + 1) % 21 == c + 1);
    }
    if 1 <= r && r - 1 < h {
        assert(0 <= (r - 1) * w <= (h - 1) * w) by (nonlinear_arith)
            requires
                1 <= r,
                r - 1 <= h - 1,
                1 <= w,
        ;
        assert((h - 1) * w + w == h * w) by (nonlinear_arith);
    }
    assert(0 <= w * h) by (nonlinear_arith)
        requires
            1 <= w,
            1 <= h,
    ;
}

/// A vertex on the board comes after `within_before` of it others, and
/// later vertices come after more.
pub proof fn lemma_within_mono(j: int, n: int, w: int, h: int)
    requires
        0 <= j < n <= 443,
        1 <= w <= 19,
        1 <= h <= 19,
        within(j, w, h),
    ensures
        within_before(j, w, h) < within_before(n, w, h),
    decreases n - j,
{
    lemma_within_step(n - 1, w, h);
    if j < n - 1 {
        lemma_within_mono(j, n - 1, w, h);
    }
}

/// The board covers the vertices that are not `OffBoard`.
#[verifier::opaque]
pub open spec fn geom_ok(colors: Seq<Color>, w: int, h: int) -> bool {
    &&& 1 <= w <= 19
    &&& 1 <= h <= 19
    &&& colors.len() == 443
    &&& forall|i: int| 0 <= i < 443 ==> ((#[trigger] colors[i] == Color::OffBoard) <==> !within(i, w, h))
}

/// A vertex that is not off the board lies on the board.
pub proof fn lemma_on_board(colors: Seq<Color>, w: int, h: int, i: int)
    requires
        geom_ok(colors, w, h),
        0 <= i < 443,
    ensures
        1 <= w <= 19,
        1 <= h <= 19,
        colors.len() == 443,
        (colors[i] != Color::OffBoard) == within(i, w, h),
        within(i, w, h) ==> 22 <= i <= 418,
{
    reveal(geom_ok);
}

/// A vertex on the board is surrounded by grid points.
pub proof fn lemma_within_range(id: int, w: int, h: int)
    requires
        within(id, w, h),
        1 <= w <= 19,
        1 <= h <= 19,
    ensures
        22 <= id <= 418,
        forall|d: Dir| 0 <= id + #[trigger] d.offset() < 441,
        forall|d: Dir| crate::types::has_nbr(id, d),
{
}

// ---------------------------------------------------------------------------
// Counting colors
// ---------------------------------------------------------------------------
/// Number of vertices below `n` of color `c`.
pub open spec fn count_color(colors: Seq<Color>, c: Color, n: int) -> int
    decreases n,
{
    if n <= 0 {
        0
    } else {
        count_color(colors, c, n - 1) + b2i(colors[n - 1] == c)
    }
}

pub proof fn lemma_count_range(colors: Seq<Color>, c: Color, n: int)
    requires
        0 <= n,
    ensures
        0 <= count_color(colors, c, n) <= n,
    decreases n,
{
    if n > 0 {
        lemma_count_range(colors, c, n - 1);
    }
}

/// Recoloring one vertex moves one unit from the count of its old color to
/// the count of its new color.
pub proof fn lemma_count_update(colors: Seq<Color>, i: int, to: Color, c: Color, n: int)
    requires
        0 <= i < colors.len(),
        0 <= n <= colors.len(),
    ensures
        count_color(colors.update(i, to), c, n) == count_color(colors, c, n) - b2i(
            i < n && colors[i] == c,
        ) + b2i(i < n && to == c),
    decreases n,
{
    if n > 0 {
        lemma_count_update(colors, i, to, c, n - 1);
    }
}

/// A color that occurs is counted.
pub proof fn lemma_count_positive(colors: Seq<Color>, i: int, c: Color, n: int)
    requires
        0 <= i < n,
        colors[i] == c,
    ensures
        count_color(colors, c, n) >= 1,
    decreases n,
{
    if i < n - 1 {
        lemma_count_positive(colors, i, c, n - 1);
    } else {
        lemma_count_range(colors, c, n - 1);
    }
}

/// On a board without stones the empty vertices are those on the board.
pub proof fn lemma_count_cleared(colors: Seq<Color>, w: int, h: int, n: int)
    requires
        0 <= n <= 443,
        1 <= w <= 19,
        1 <= h <= 19,
        colors.len() == 443,
        forall|j: int|
            0 <= j < 443 ==> #[trigger] colors[j] == if within(j, w, h) {
                Color::Empty
            } else {
                Color::OffBoard
            },
    ensures
        count_color(colors, Color::Empty, n) == within_before(n, w, h),
        count_color(colors, Color::Black, n) == 0,
        count_color(colors, Color::White, n) == 0,
    decreases n,
{
    if n > 0 {
        lemma_count_cleared(colors, w, h, n - 1);
        lemma_within_step(n - 1, w, h);
    } else {
        lemma_within_step(0, w, h);
    }
}

// ---------------------------------------------------------------------------
// Zobrist hash of a position
// ---------------------------------------------------------------------------
/// What the vertex `id` of color `c` adds to the hash of the position.
pub open spec fn zobrist_part(c: Color, id: int) -> u64 {
    if c.is_player() {
        zobrist_word(c.to_player(), id)
    } else {
        0
    }
}

/// XOR of the Zobrist words of all stones on the vertices below `n`.
pub open spec fn position_hash(colors: Seq<Color>, n: int) -> u64
    decreases n,
{
    if n <= 0 {
        0
    } else {
        position_hash(colors, n - 1) ^ zobrist_part(colors[n - 1], n - 1)
    }
}

pub proof fn lemma_xor_swap(a: u64, b: u64, c: u64)
    ensures
        (a ^ b) ^ c == (a ^ c) ^ b,
        a ^ 0 == a,
        (a ^ b) ^ b == a,
{
    assert((a ^ b) ^ c == (a ^ c) ^ b && a ^ 0 == a && (a ^ b) ^ b == a) by (bit_vector);
}

/// Recoloring one vertex XORs its old and its new word into the hash.
pub proof fn lemma_hash_update(colors: Seq<Color>, i: int, to: Color, n: int)
    requires
        0 <= i < colors.len(),
        0 <= n <= colors.len(),
    ensures
        position_hash(colors.update(i, to), n) == if i < n {
            (position_hash(colors, n) ^ zobrist_part(colors[i], i)) ^ zobrist_part(to, i)
        } else {
            position_hash(colors, n)
        },
    decreases n,
{
    if n > 0 {
        lemma_hash_update(colors, i, to, n - 1);
        let a = position_hash(colors, n - 1);
        let last = zobrist_part(colors[n - 1], n - 1);
        let x = zobrist_part(colors[i], i);
        let y = zobrist_part(to, i);
        if i < n - 1 {
            lemma_xor_swap(a ^ x, y, last);
            lemma_xor_swap(a, x, last);
        } else if i == n - 1 {
            lemma_xor_swap(a, x, y);
        }
    }
}

/// A position without stones hashes to zero.
pub proof fn lemma_hash_no_stones(colors: Seq<Color>, n: int)
    requires
        0 <= n <= colors.len(),
        forall|i: int| 0 <= i < n ==> !(#[trigger] colors[i]).is_player(),
    ensures
        position_hash(colors, n) == 0,
    decreases n,
{
    if n > 0 {
        lemma_hash_no_stones(colors, n - 1);
        lemma_xor_swap(0, 0, 0);
    }
}

// ---------------------------------------------------------------------------
// The list of empty vertices
// ---------------------------------------------------------------------------
/// The first `cnt` entries of `list` are the empty vertices, each once, and
/// `pos` maps each of them to its place in the list.
#[verifier::opaque]
pub open spec fn empty_ok(colors: Seq<Color>, list: Seq<Vertex>, pos: Seq<u32>, cnt: int) -> bool {
    &&& colors.len() == 443
    &&& list.len() == 361
    &&& pos.len() == 443
    &&& 0 <= cnt <= 361
    &&& forall|k: int|
        0 <= k < cnt ==> 0 <= (#[trigger] list[k]).id() < 443 && colors[list[k].id()]
            == Color::Empty && pos[list[k].id()] == k
    &&& forall|i: int|
        0 <= i < 443 && #[trigger] colors[i] == Color::Empty ==> pos[i] < cnt && list[pos[i] as int].id()
            == i
}

/// What `empty_ok` says of one entry of the list.
pub proof fn lemma_empty_entry(
    colors: Seq<Color>,
    list: Seq<Vertex>,
    pos: Seq<u32>,
    cnt: int,
    k: int,
)
    requires
        empty_ok(colors, list, pos, cnt),
        0 <= k < cnt,
    ensures
        0 <= cnt <= 361,
        0 <= list[k].id() < 443,
        colors[list[k].id()] == Color::Empty,
        pos[list[k].id()] == k,
{
    reveal(empty_ok);
}

/// What `empty_ok` says of one empty vertex.
pub proof fn lemma_empty_vertex(
    colors: Seq<Color>,
    list: Seq<Vertex>,
    pos: Seq<u32>,
    cnt: int,
    i: int,
)
    requires
        empty_ok(colors, list, pos, cnt),
        0 <= i < 443,
        colors[i] == Color::Empty,
    ensures
        0 <= pos[i] < cnt <= 361,
        list[pos[i] as int].id() == i,
{
    reveal(empty_ok);
}

// ---------------------------------------------------------------------------
// Neighbor counters and fingerprints
// ---------------------------------------------------------------------------
/// Number of cardinal neighbors of `id` that are of `pl` or off the board.
pub open spec fn nbr_player_count(colors: Seq<Color>, id: int, pl: Player) -> int {
    let c = Color::of_player(pl);
    b2i(colors[id - 21] == c || colors[id - 21] == Color::OffBoard) + b2i(
        colors[id + 1] == c || colors[id + 1] == Color::OffBoard,
    ) + b2i(colors[id + 21] == c || colors[id + 21] == Color::OffBoard) + b2i(
        colors[id - 1] == c || colors[id - 1] == Color::OffBoard,
    )
}

/// Number of empty cardinal neighbors of `id`.
pub open spec fn nbr_empty_count(colors: Seq<Color>, id: int) -> int {
    b2i(colors[id - 21] == Color::Empty) + b2i(colors[id + 1] == Color::Empty) + b2i(
        colors[id + 21] == Color::Empty,
    ) + b2i(colors[id - 1] == Color::Empty)
}

/// The score of an empty vertex: 1 if every cardinal neighbor is black or off
/// the board, -1 if every one is white or off the board, else 0.
pub open spec fn eye_value(colors: Seq<Color>, id: int) -> int {
    b2i(nbr_player_count(colors, id, Player::Black) == 4) - b2i(
        nbr_player_count(colors, id, Player::White) == 4,
    )
}

/// The fingerprint `h` records the colors around `id`.
pub open spec fn pattern_matches(colors: Seq<Color>, id: int, h: Hash3x3) -> bool {
    forall|d: Dir| #[trigger] h.spec_color_at(d) == colors[id + d.offset()]
}

/// The counter `n` holds the neighbor counts of `id`.
pub open spec fn counter_matches(colors: Seq<Color>, id: int, n: NbrCounter) -> bool {
    n.holds(
        nbr_player_count(colors, id, Player::Black),
        nbr_player_count(colors, id, Player::White),
        nbr_empty_count(colors, id),
    )
}

/// Every vertex on the board has the counter of its surroundings.
#[verifier::opaque]
pub open spec fn counters_ok(colors: Seq<Color>, counters: Seq<NbrCounter>, w: int, h: int) -> bool {
    &&& counters.len() == 443
    &&& forall|i: int|
        0 <= i < 443 && within(i, w, h) ==> #[trigger] counter_matches(colors, i, counters[i])
}

/// Every vertex on the board has the fingerprint of its surroundings.
#[verifier::opaque]
pub open spec fn patterns_ok(colors: Seq<Color>, patterns: Seq<Hash3x3>, w: int, h: int) -> bool {
    &&& patterns.len() == 443
    &&& forall|i: int|
        0 <= i < 443 && within(i, w, h) ==> #[trigger] pattern_matches(colors, i, patterns[i])
}

/// What `counters_ok` says of one vertex.
pub proof fn lemma_counter(colors: Seq<Color>, counters: Seq<NbrCounter>, w: int, h: int, i: int)
    requires
        counters_ok(colors, counters, w, h),
        0 <= i < 443,
        within(i, w, h),
    ensures
        counter_matches(colors, i, counters[i]),
        counters[i].spec_player_cnt(Player::Black) == nbr_player_count(colors, i, Player::Black),
        counters[i].spec_player_cnt(Player::White) == nbr_player_count(colors, i, Player::White),
        counters[i].spec_empty_cnt() == nbr_empty_count(colors, i),
        counters.len() == 443,
{
    reveal(counters_ok);
    assert(counter_matches(colors, i, counters[i]));
    counters[i].lemma_holds(
        nbr_player_count(colors, i, Player::Black),
        nbr_player_count(colors, i, Player::White),
        nbr_empty_count(colors, i),
    );
}

/// What `patterns_ok` says of one vertex.
pub proof fn lemma_pattern(colors: Seq<Color>, patterns: Seq<Hash3x3>, w: int, h: int, i: int)
    requires
        patterns_ok(colors, patterns, w, h),
        0 <= i < 443,
        within(i, w, h),
    ensures
        pattern_matches(colors, i, patterns[i]),
        patterns.len() == 443,
{
    reveal(patterns_ok);
}

// ---------------------------------------------------------------------------
// Strings
// ---------------------------------------------------------------------------
/// The place after `r` on a cycle of `len` places.
pub open spec fn succ_in(r: int, len: int) -> int {
    if r + 1 >= len {
        0
    } else {
        r + 1
    }
}

/// The stone `u` belongs to a string whose head has the same color, and has
/// its place on the cycle of that string.
pub open spec fn member_ok(
    colors: Seq<Color>,
    ids: Seq<Vertex>,
    order: Seq<Seq<int>>,
    place: Seq<int>,
    u: int,
) -> bool {
    let c = ids[u].id();
    &&& 0 <= c < 443
    &&& colors[c] == colors[u]
    &&& ids[c].id() == c
    &&& 0 <= place[u] < order[c].len()
    &&& order[c][place[u]] == u
}

/// `cycle` lists the stones of the string with head `c`, each once, in the
/// order in which `nexts` links them, and `size` is their number.
pub open spec fn cycle_ok(
    colors: Seq<Color>,
    ids: Seq<Vertex>,
    nexts: Seq<Vertex>,
    place: Seq<int>,
    c: int,
    cycle: Seq<int>,
    size: int,
) -> bool {
    &&& cycle.len() == size
    &&& forall|r: int|
        0 <= r < cycle.len() ==> {
            let u = #[trigger] cycle[r];
            &&& 0 <= u < 443
            &&& colors[u] == colors[c]
            &&& ids[u].id() == c
            &&& place[u] == r
            &&& nexts[u].id() == cycle[succ_in(r, cycle.len() as int)]
        }
}

/// A vertex without a stone is its own string.
pub open spec fn idle_ok(ids: Seq<Vertex>, nexts: Seq<Vertex>, u: int) -> bool {
    ids[u].id() == u && nexts[u].id() == u
}

/// Whether `c` is the head of a string of stones.
pub open spec fn is_head(colors: Seq<Color>, ids: Seq<Vertex>, c: int) -> bool {
    colors[c].is_player() && ids[c].id() == c
}

/// The strings partition the stones: every stone has a head of its color,
/// and the stones of a head form one cycle of `nexts` whose length is the
/// recorded size.
#[verifier::opaque]
pub open spec fn chains_ok(
    colors: Seq<Color>,
    ids: Seq<Vertex>,
    nexts: Seq<Vertex>,
    recs: Seq<Chain>,
    order: Seq<Seq<int>>,
    place: Seq<int>,
) -> bool {
    &&& colors.len() == 443
    &&& ids.len() == 443
    &&& nexts.len() == 443
    &&& recs.len() == 443
    &&& order.len() == 443
    &&& place.len() == 443
    &&& forall|u: int|
        0 <= u < 443 && colors[u].is_player() ==> #[trigger] member_ok(colors, ids, order, place, u)
    &&& forall|c: int|
        0 <= c < 443 && is_head(colors, ids, c) ==> #[trigger] cycle_ok(
            colors,
            ids,
            nexts,
            place,
            c,
            order[c],
            recs[c].size as int,
        )
    &&& forall|u: int| 0 <= u < 443 && !colors[u].is_player() ==> #[trigger] idle_ok(ids, nexts, u)
}

/// The changed list holds empty vertices, each once.
#[verifier::opaque]
pub open spec fn changed_ok(colors: Seq<Color>, changed: Seq<u32>) -> bool {
    &&& forall|k: int|
        0 <= k < changed.len() ==> (#[trigger] changed[k]) < 443 && colors[changed[k] as int]
            == Color::Empty
    &&& forall|j: int, k: int|
        0 <= j < k < changed.len() ==> #[trigger] changed[j] != #[trigger] changed[k]
}

} // verus!
