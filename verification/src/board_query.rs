//! Reading the board: accessors, legality and scoring.

use crate::board::{Board, Chain, NbrCounter, KOMI_INVERSE};
use crate::hash::{b2i, Hash3x3};
use crate::nat_set::NatSet;
use crate::position::{
    changed_ok, eye_value, lemma_count_range, lemma_counter, lemma_empty_entry, lemma_on_board,
    lemma_within_step, nbr_empty_count,
};
use crate::types::{color_is_player, color_to_player, Color, Nat, Player, Vertex};
use crate::vertex_list::{list_clone, list_get, list_len, listed};
use vstd::prelude::*;

verus! {

/// Sum of the eye values of the first `n` vertices of `list`.
pub open spec fn eye_sum(colors: Seq<Color>, list: Seq<Vertex>, n: int) -> int
    decreases n,
{
    if n <= 0 {
        0
    } else {
        eye_sum(colors, list, n - 1) + eye_value(colors, list[n - 1].id())
    }
}

pub proof fn lemma_eye_sum_range(colors: Seq<Color>, list: Seq<Vertex>, n: int)
    requires
        0 <= n,
    ensures
        -n <= eye_sum(colors, list, n) <= n,
    decreases n,
{
    if n > 0 {
        lemma_eye_sum_range(colors, list, n - 1);
    }
}

/// What the vertex `id` adds to the area score: a stone counts for its
/// color, and an empty vertex for the one color among its cardinal neighbors,
/// if there is exactly one.
pub open spec fn area_value(colors: Seq<Color>, id: int) -> int {
    let black = colors[id - 21] == Color::Black || colors[id - 1] == Color::Black || colors[id + 1]
        == Color::Black || colors[id + 21] == Color::Black;
    let white = colors[id - 21] == Color::White || colors[id - 1] == Color::White || colors[id + 1]
        == Color::White || colors[id + 21] == Color::White;
    match colors[id] {
        Color::Black => 1,
        Color::White => -1,
        Color::Empty => if black && !white {
            1
        } else if white && !black {
            -1
        } else {
            0
        },
        Color::OffBoard => 0,
    }
}

/// Sum of the area values of the vertices below `n` that are on the board.
pub open spec fn area_sum(colors: Seq<Color>, n: int) -> int
    decreases n,
{
    if n <= 0 {
        0
    } else {
        area_sum(colors, n - 1) + if colors[n - 1] != Color::OffBoard {
            area_value(colors, n - 1)
        } else {
            0
        }
    }
}

impl Board {
    /// The area score of the position without komi: the stones and the
    /// territory of Black minus those of White.
    pub fn tromp_taylor_area(&self) -> (r: i32)
        requires
            self.wf(),
        ensures
            r == area_sum(self.colors(), 443),
    {
        let mut score: i32 = 0;
        let mut i: usize = 0;
        while i < 443
            invariant
                self.wf(),
                0 <= i <= 443,
                score == area_sum(self.colors(), i as int),
                -i <= score <= i,
            decreases 443 - i,
        {
            let v = Vertex::from_index(i);
            proof {
                reveal(Board::wf_geo);
                reveal(Board::wf_flat);
                reveal(Board::wf_stones);
                self.lemma_lens();
                lemma_on_board(self.colors(), self.width(), self.height(), i as int);
            }
            if self.is_within_board(v) {
                let color = self.color_at.get(v);
                if color == Color::Black {
                    score += 1;
                } else if color == Color::White {
                    score -= 1;
                } else if color == Color::Empty {
                    let up = self.color_at.get(v.up());
                    let left = self.color_at.get(v.left());
                    let right = self.color_at.get(v.right());
                    let down = self.color_at.get(v.down());
                    let black_neighbors = up == Color::Black || left == Color::Black || right
                        == Color::Black || down == Color::Black;
                    let white_neighbors = up == Color::White || left == Color::White || right
                        == Color::White || down == Color::White;
                    if black_neighbors && !white_neighbors {
                        score += 1;
                    } else if white_neighbors && !black_neighbors {
                        score -= 1;
                    }
                }
            }
            i += 1;
        }
        score
    }

    /// The head of the string of `v`; `v` itself where no stone stands.
    pub fn chain_id_at(&self, v: Vertex) -> (r: Vertex)
        ensures
            r == self.chain_ids()[v.id()],
    {
        proof {
            use_type_invariant(v);
        }
        self.chain_id.get(v)
    }

    /// The stone after `v` on the cycle of its string.
    pub fn chain_next_at(&self, v: Vertex) -> (r: Vertex)
        ensures
            r == self.chain_nexts()[v.id()],
    {
        proof {
            use_type_invariant(v);
        }
        self.chain_next_v.get(v)
    }

    /// The string record kept at `v`.
    pub fn chain_at(&self, v: Vertex) -> (r: Chain)
        ensures
            r == self.chain_records()[v.id()],
    {
        proof {
            use_type_invariant(v);
        }
        self.chain.get(v)
    }

    /// The neighbor counter of `v`.
    pub fn nbr_counter_at(&self, v: Vertex) -> (r: NbrCounter)
        ensures
            r == self.counters()[v.id()],
    {
        proof {
            use_type_invariant(v);
        }
        self.nbr_cnt.get(v)
    }

    /// The place recorded for `v` in the list of empty vertices.
    pub fn empty_pos_at(&self, v: Vertex) -> (r: u32)
        ensures
            r == self.empty_places()[v.id()],
    {
        proof {
            use_type_invariant(v);
        }
        self.empty_pos.get(v)
    }

    /// How often `v` was played since the board was cleared.
    pub fn play_count_at(&self, v: Vertex) -> (r: u32)
        ensures
            r == self.spec_play_count(v.id()),
    {
        proof {
            use_type_invariant(v);
        }
        self.play_count.get(v)
    }

    pub open(crate) spec fn spec_play_count(&self, id: int) -> u32 {
        self.play_count@[id]
    }

    /// Sizes and counts of a well-formed board are in range.
    pub proof fn lemma_wf_basics(&self)
        requires
            self.wf_stones(),
        ensures
            self.dims_ok(),
            self.lens_ok(),
            1 <= self.width() <= 19,
            1 <= self.height() <= 19,
            self.width() * self.height() <= 361,
            0 <= self.spec_empty_count() <= 361,
            0 <= self.spec_stone_count(Player::Black) <= 361,
            0 <= self.spec_stone_count(Player::White) <= 361,
            self.spec_empty_count() + self.spec_stone_count(Player::Black)
                + self.spec_stone_count(Player::White) == self.width() * self.height(),
    {
        reveal(Board::wf_geo);
        reveal(Board::wf_flat);
        reveal(Board::wf_stones);
        reveal(Board::counts_ok);
        self.lemma_lens();
        lemma_on_board(self.colors(), self.width(), self.height(), 0);
        lemma_within_step(0, self.width(), self.height());
        lemma_count_range(self.colors(), Color::Empty, 443);
        lemma_count_range(self.colors(), Color::Black, 443);
        lemma_count_range(self.colors(), Color::White, 443);
    }

    /// The player to move: the opponent of the last mover.
    pub fn act_player(&self) -> (r: Player)
        ensures
            r == self.spec_last_player().spec_opponent(),
    {
        self.last_player.opponent()
    }

    pub fn color_at(&self, v: Vertex) -> (r: Color)
        ensures
            r == self.colors()[v.id()],
    {
        proof {
            use_type_invariant(v);
        }
        self.color_at.get(v)
    }

    pub fn empty_vertex_count(&self) -> (r: usize)
        ensures
            r == self.spec_empty_count(),
    {
        self.empty_v_cnt as usize
    }

    pub fn move_no(&self) -> (r: usize)
        ensures
            r == self.spec_move_count(),
    {
        self.move_no
    }

    pub fn move_count(&self) -> (r: usize)
        ensures
            r == self.spec_move_count(),
    {
        self.move_no
    }

    /// Entry `idx` of the list of empty vertices.
    pub fn empty_vertex(&self, idx: usize) -> (r: Vertex)
        requires
            idx < 361,
        ensures
            r == self.empties()[idx as int],
    {
        self.empty_v[idx]
    }

    pub fn hash3x3_at(&self, v: Vertex) -> (r: Hash3x3)
        ensures
            r == self.patterns()[v.id()],
    {
        proof {
            use_type_invariant(v);
        }
        self.hash3x3.get(v)
    }

    pub fn hash3x3_changed_count(&self) -> (r: usize)
        ensures
            r == self.changed().len(),
    {
        list_len(&self.hash3x3_changed)
    }

    /// Entry `ii` of the list of vertices whose fingerprint the last move
    /// changed.
    pub fn hash3x3_changed(&self, ii: usize) -> (r: Vertex)
        requires
            self.wf(),
            ii < self.changed().len(),
        ensures
            r.id() == self.changed()[ii as int],
    {
        proof {
            reveal(Board::wf_geo);
            reveal(Board::wf_flat);
            reveal(Board::wf_stones);
            reveal(Board::counts_ok);
        }
        proof {
            reveal(changed_ok);
        }
        let raw: u32 = list_get(&self.hash3x3_changed, ii);
        Vertex::from_index(raw as usize)
    }

    pub fn ko_vertex(&self) -> (r: Vertex)
        ensures
            r == self.spec_ko_vertex(),
    {
        self.ko_v
    }

    pub fn positional_hash(&self) -> (r: crate::hash::Hash)
        ensures
            r@ == self.spec_positional_hash(),
    {
        self.hash
    }

    pub fn last_player(&self) -> (r: Player)
        ensures
            r == self.spec_last_player(),
    {
        self.last_player
    }

    /// The vertex of the last move, `none` before the first.
    pub fn last_vertex(&self) -> (r: Vertex)
        ensures
            r.id() == self.spec_last_vertex(),
    {
        if self.move_no == 0 {
            Vertex::none()
        } else {
            self.last_play.get(self.last_player)
        }
    }

    /// The id of the vertex of the last move, that of `none` before the
    /// first.
    pub open(crate) spec fn spec_last_vertex(&self) -> int {
        if self.move_no == 0 {
            442
        } else {
            self.last_play@[self.last_player.raw_spec() as int].id()
        }
    }

    /// Whether the last move of each player was a pass.
    pub fn both_player_pass(&self) -> (r: bool)
        ensures
            r == (self.spec_last_play(Player::Black).id() == 441 && self.spec_last_play(
                Player::White,
            ).id() == 441),
    {
        let pass = Vertex::pass();
        let black = self.last_play.get(Player::Black);
        let white = self.last_play.get(Player::White);
        proof {
            Vertex::lemma_id_eq(black, pass);
            Vertex::lemma_id_eq(white, pass);
        }
        black == pass && white == pass
    }

    // -- legality -------------------------------------------------------------
    /// The liberties of the string of `n` that would be left if a stone were
    /// put on `id`, counting `id` once for every cardinal neighbor of `id`
    /// that belongs to that string.
    pub open(crate) spec fn tally(&self, id: int, n: int) -> int {
        let c = self.chain_id@[n];
        self.chain@[c.id()].lib_cnt as int - b2i(self.chain_id@[id - 21] == c) - b2i(
            self.chain_id@[id - 1] == c,
        ) - b2i(self.chain_id@[id + 1] == c) - b2i(self.chain_id@[id + 21] == c)
    }

    /// A stone of `pl` on `id` would capture the string of its neighbor `n`,
    /// or join it and keep a liberty.
    pub open(crate) spec fn rescued_by(&self, pl: Player, id: int, n: int) -> bool {
        self.colors()[n].is_player() && ((self.tally(id, n) == 0) != (self.colors()[n]
            == Color::of_player(pl)))
    }

    /// Whether `pl` may play on `v`: a pass always; else on an empty vertex
    /// other than the ko vertex, unless the stone would have no liberty,
    /// capture nothing, and join no string that keeps a liberty.
    pub open(crate) spec fn spec_is_legal(&self, pl: Player, v: Vertex) -> bool {
        let id = v.id();
        if id == 441 {
            true
        } else if self.colors()[id] != Color::Empty || v == self.ko_v {
            false
        } else if nbr_empty_count(self.colors(), id) > 0 {
            true
        } else {
            self.rescued_by(pl, id, id - 21) || self.rescued_by(pl, id, id - 1) || self.rescued_by(
                pl,
                id,
                id + 1,
            ) || self.rescued_by(pl, id, id + 21)
        }
    }

    /// What would be left of the liberties of the strings around `v`, one
    /// tally for each of the neighbors above, left, right and below.
    fn neighbor_tallies(&self, v: Vertex) -> (t: (i64, i64, i64, i64))
        requires
            22 <= v.id() <= 418,
        ensures
            t.0 == self.tally(v.id(), v.id() - 21),
            t.1 == self.tally(v.id(), v.id() - 1),
            t.2 == self.tally(v.id(), v.id() + 1),
            t.3 == self.tally(v.id(), v.id() + 21),
    {
        proof {
            self.lemma_lens();
        }
        let c1 = self.chain_id.get(v.up());
        let c2 = self.chain_id.get(v.left());
        let c3 = self.chain_id.get(v.right());
        let c4 = self.chain_id.get(v.down());
        proof {
            use_type_invariant(c1);
            use_type_invariant(c2);
            use_type_invariant(c3);
            use_type_invariant(c4);
            Vertex::lemma_id_eq(c1, c2);
            Vertex::lemma_id_eq(c1, c3);
            Vertex::lemma_id_eq(c1, c4);
            Vertex::lemma_id_eq(c2, c3);
            Vertex::lemma_id_eq(c2, c4);
            Vertex::lemma_id_eq(c3, c4);
        }
        let mut temp_libs: [i64; 443] = [0i64;443];
        // Start from the liberty counts of the neighboring strings.
        if temp_libs[c1.index()] == 0 {
            temp_libs[c1.index()] = self.chain.get(c1).lib_cnt as i64;
        }
        if temp_libs[c2.index()] == 0 {
            temp_libs[c2.index()] = self.chain.get(c2).lib_cnt as i64;
        }
        if temp_libs[c3.index()] == 0 {
            temp_libs[c3.index()] = self.chain.get(c3).lib_cnt as i64;
        }
        if temp_libs[c4.index()] == 0 {
            temp_libs[c4.index()] = self.chain.get(c4).lib_cnt as i64;
        }
        let ghost l1 = self.chain@[c1.id()].lib_cnt as int;
        let ghost l2 = self.chain@[c2.id()].lib_cnt as int;
        let ghost l3 = self.chain@[c3.id()].lib_cnt as int;
        let ghost l4 = self.chain@[c4.id()].lib_cnt as int;
        assert(temp_libs@[c1.id()] == l1 && temp_libs@[c2.id()] == l2 && temp_libs@[c3.id()] == l3
            && temp_libs@[c4.id()] == l4);
        // Take one away for every neighbor, not for every string.
        temp_libs[c1.index()] = temp_libs[c1.index()] - 1;
        assert(temp_libs@[c1.id()] == l1 - 1 && temp_libs@[c2.id()] == l2 - b2i(c1 == c2)
            && temp_libs@[c3.id()] == l3 - b2i(c1 == c3) && temp_libs@[c4.id()] == l4 - b2i(
            c1 == c4,
        ));
        temp_libs[c2.index()] = temp_libs[c2.index()] - 1;
        assert(temp_libs@[c1.id()] == l1 - 1 - b2i(c2 == c1) && temp_libs@[c2.id()] == l2 - b2i(
            c1 == c2,
        ) - 1 && temp_libs@[c3.id()] == l3 - b2i(c1 == c3) - b2i(c2 == c3) && temp_libs@[c4.id()]
            == l4 - b2i(c1 == c4) - b2i(c2 == c4));
        temp_libs[c3.index()] = temp_libs[c3.index()] - 1;
        assert(temp_libs@[c1.id()] == l1 - 1 - b2i(c2 == c1) - b2i(c3 == c1) && temp_libs@[c2.id()]
            == l2 - b2i(c1 == c2) - 1 - b2i(c3 == c2) && temp_libs@[c3.id()] == l3 - b2i(c1 == c3)
            - b2i(c2 == c3) - 1 && temp_libs@[c4.id()] == l4 - b2i(c1 == c4) - b2i(c2 == c4) - b2i(
            c3 == c4,
        ));
        temp_libs[c4.index()] = temp_libs[c4.index()] - 1;
        assert(temp_libs@[c1.id()] == l1 - 1 - b2i(c2 == c1) - b2i(c3 == c1) - b2i(c4 == c1)
            && temp_libs@[c2.id()] == l2 - b2i(c1 == c2) - 1 - b2i(c3 == c2) - b2i(c4 == c2)
            && temp_libs@[c3.id()] == l3 - b2i(c1 == c3) - b2i(c2 == c3) - 1 - b2i(c4 == c3)
            && temp_libs@[c4.id()] == l4 - b2i(c1 == c4) - b2i(c2 == c4) - b2i(c3 == c4) - 1);
        (
            temp_libs[c1.index()],
            temp_libs[c2.index()],
            temp_libs[c3.index()],
            temp_libs[c4.index()],
        )
    }

    /// Whether `player` may play on `v`.
    pub fn is_legal(&self, player: Player, v: Vertex) -> (r: bool)
        requires
            self.wf(),
        ensures
            r == self.spec_is_legal(player, v),
    {
        proof {
            reveal(Board::wf_geo);
            reveal(Board::wf_flat);
            reveal(Board::wf_stones);
            reveal(Board::counts_ok);
        }
        let pass = Vertex::pass();
        proof {
            use_type_invariant(v);
            self.lemma_lens();
            Vertex::lemma_id_eq(v, pass);
        }
        if v == pass {
            return true;
        }
        if self.color_at.get(v) != Color::Empty || v == self.ko_v {
            return false;
        }
        let ghost id = v.id();
        proof {
            lemma_on_board(self.colors(), self.width(), self.height(), id);
            lemma_counter(self.colors(), self.counters(), self.width(), self.height(), id);
        }
        if self.nbr_cnt.get(v).empty_cnt() > 0 {
            return true;
        }
        let t = self.neighbor_tallies(v);
        let mut not_suicide = false;
        let col1 = self.color_at.get(v.up());
        if color_is_player(col1) {
            let atari = t.0 == 0;
            let is_same_color = color_to_player(col1) == player;
            if atari != is_same_color {
                not_suicide = true;
            }
        }
        let col2 = self.color_at.get(v.left());
        if color_is_player(col2) {
            let atari = t.1 == 0;
            let is_same_color = color_to_player(col2) == player;
            if atari != is_same_color {
                not_suicide = true;
            }
        }
        let col3 = self.color_at.get(v.right());
        if color_is_player(col3) {
            let atari = t.2 == 0;
            let is_same_color = color_to_player(col3) == player;
            if atari != is_same_color {
                not_suicide = true;
            }
        }
        let col4 = self.color_at.get(v.down());
        if color_is_player(col4) {
            let atari = t.3 == 0;
            let is_same_color = color_to_player(col4) == player;
            if atari != is_same_color {
                not_suicide = true;
            }
        }
        not_suicide
    }

    // -- scoring --------------------------------------------------------------
    /// The score of the final position of a playout: `ceil(-komi)`, plus the
    /// black stones and eyes, minus the white stones and eyes.
    pub open(crate) spec fn spec_playout_score(&self) -> int {
        KOMI_INVERSE + self.spec_stone_count(Player::Black) - self.spec_stone_count(Player::White)
            + eye_sum(self.colors(), self.empties(), self.spec_empty_count())
    }

    /// The winner of the final position of a playout: Black with a positive
    /// score, else White.
    pub fn playout_winner(&self) -> (r: Player)
        requires
            self.wf(),
        ensures
            r == if self.spec_playout_score() > 0 {
                Player::Black
            } else {
                Player::White
            },
    {
        proof {
            reveal(Board::wf_geo);
            reveal(Board::wf_flat);
            reveal(Board::wf_stones);
            reveal(Board::counts_ok);
        }
        let score: i32 = self.playout_score();
        if score <= 0 {
            Player::White
        } else {
            Player::Black
        }
    }

    pub fn playout_score(&self) -> (r: i32)
        requires
            self.wf(),
        ensures
            r == self.spec_playout_score(),
    {
        proof {
            reveal(Board::wf_geo);
            reveal(Board::wf_flat);
            reveal(Board::wf_stones);
            reveal(Board::counts_ok);
        }
        let stone_score: i32 = self.stone_score();
        let eye_score: i32 = self.calculate_eye_score();
        stone_score + eye_score
    }

    fn stone_score(&self) -> (r: i32)
        requires
            self.wf(),
        ensures
            r == KOMI_INVERSE + self.spec_stone_count(Player::Black) - self.spec_stone_count(
                Player::White,
            ),
            -400 <= r <= 400,
    {
        proof {
            reveal(Board::wf_geo);
            reveal(Board::wf_flat);
            reveal(Board::wf_stones);
            reveal(Board::counts_ok);
        }
        proof {
            self.lemma_wf_basics();
        }
        let komi_inverse: i32 = KOMI_INVERSE;
        komi_inverse + self.player_v_cnt.get(Player::Black) as i32 - self.player_v_cnt.get(
            Player::White,
        ) as i32
    }

    fn calculate_eye_score(&self) -> (r: i32)
        requires
            self.wf(),
        ensures
            r == eye_sum(self.colors(), self.empties(), self.spec_empty_count()),
            -361 <= r <= 361,
    {
        proof {
            reveal(Board::wf_geo);
            reveal(Board::wf_flat);
            reveal(Board::wf_stones);
            reveal(Board::counts_ok);
        }
        let mut eye_score: i32 = 0;
        let mut i: u32 = 0;
        proof {
            self.lemma_wf_basics();
        }
        while i < self.empty_v_cnt
            invariant
                self.wf(),
                0 <= i <= self.empty_v_cnt <= 361,
                eye_score == eye_sum(self.colors(), self.empties(), i as int),
                -i <= eye_score <= i,
            decreases self.empty_v_cnt - i,
        {
            let v = self.empty_v[i as usize];
            proof {
                reveal(Board::wf_geo);
                reveal(Board::wf_flat);
                reveal(Board::wf_stones);
                lemma_empty_entry(
                    self.colors(),
                    self.empties(),
                    self.empty_places(),
                    self.spec_empty_count(),
                    i as int,
                );
            }
            eye_score += self.eye_score(v);
            i += 1;
        }
        eye_score
    }

    fn eye_score(&self, v: Vertex) -> (r: i32)
        requires
            self.wf(),
            self.colors()[v.id()] == Color::Empty,
        ensures
            r == eye_value(self.colors(), v.id()),
    {
        proof {
            reveal(Board::wf_geo);
            reveal(Board::wf_flat);
            reveal(Board::wf_stones);
            reveal(Board::counts_ok);
        }
        let ghost id = v.id();
        proof {
            use_type_invariant(v);
            lemma_on_board(self.colors(), self.width(), self.height(), id);
            lemma_counter(self.colors(), self.counters(), self.width(), self.height(), id);
        }
        let black_eye = self.nbr_cnt.get(v).player_cnt_is_max(Player::Black);
        let white_eye = self.nbr_cnt.get(v).player_cnt_is_max(Player::White);
        let b: i32 = if black_eye {
            1
        } else {
            0
        };
        let w: i32 = if white_eye {
            1
        } else {
            0
        };
        b - w
    }

    // -- snapshots --------------------------------------------------------------
    /// Whether both boards hold the same position and tables; the set of
    /// marks that a move uses as scratch space is left out.
    pub open(crate) spec fn same_position(&self, other: &Board) -> bool {
        &&& self.move_no == other.move_no
        &&& self.color_at@ == other.color_at@
        &&& self.ko_v == other.ko_v
        &&& self.last_player == other.last_player
        &&& self.last_play@ == other.last_play@
        &&& self.board_width == other.board_width
        &&& self.board_height == other.board_height
        &&& self.hash == other.hash
        &&& self.player_v_cnt@ == other.player_v_cnt@
        &&& self.chain_next_v@ == other.chain_next_v@
        &&& self.chain_id@ == other.chain_id@
        &&& self.chain@ == other.chain@
        &&& self.nbr_cnt@ == other.nbr_cnt@
        &&& self.empty_v_cnt == other.empty_v_cnt
        &&& self.empty_v@ == other.empty_v@
        &&& self.empty_pos@ == other.empty_pos@
        &&& self.play_count@ == other.play_count@
        &&& self.hash3x3@ == other.hash3x3@
        &&& listed(self.hash3x3_changed) == listed(other.hash3x3_changed)
        &&& self.order@ == other.order@
        &&& self.place@ == other.place@
    }

    /// Boards that hold the same position are well-formed together.
    pub proof fn lemma_same_position(&self, other: &Board)
        requires
            self.same_position(other),
        ensures
            self.wf() == other.wf(),
            self.colors() == other.colors(),
            self.spec_move_count() == other.spec_move_count(),
            self.spec_positional_hash() == other.spec_positional_hash(),
            self.spec_ko_vertex() == other.spec_ko_vertex(),
            self.spec_last_player() == other.spec_last_player(),
            self.changed() == other.changed(),
            self.patterns() == other.patterns(),
            self.empties() == other.empties(),
            self.spec_empty_count() == other.spec_empty_count(),
    {
        reveal(Board::wf_geo);
        reveal(Board::wf_flat);
        reveal(Board::wf_stones);
        reveal(Board::counts_ok);
        reveal(Board::plays_ok);
    }

    /// Copies the position of `source`.
    pub fn load(&mut self, source: &Board)
        ensures
            final(self).same_position(source),
    {
        *self = source.clone();
    }
}

impl Clone for Board {
    fn clone(&self) -> (r: Self)
        ensures
            r.same_position(self),
    {
        proof {
            reveal(Board::wf_geo);
            reveal(Board::wf_flat);
            reveal(Board::wf_stones);
            reveal(Board::counts_ok);
        }
        Board {
            move_no: self.move_no,
            color_at: self.color_at.clone(),
            ko_v: self.ko_v,
            last_player: self.last_player,
            last_play: self.last_play.clone(),
            board_width: self.board_width,
            board_height: self.board_height,
            hash: self.hash,
            zobrist: self.zobrist.duplicate(),
            player_v_cnt: self.player_v_cnt.clone(),
            chain_next_v: self.chain_next_v.clone(),
            chain_id: self.chain_id.clone(),
            chain: self.chain.clone(),
            nbr_cnt: self.nbr_cnt.clone(),
            empty_v_cnt: self.empty_v_cnt,
            empty_v: self.empty_v,
            empty_pos: self.empty_pos.clone(),
            play_count: self.play_count.clone(),
            hash3x3: self.hash3x3.clone(),
            hash3x3_changed: list_clone(&self.hash3x3_changed),
            tmp_vertex_set: NatSet::new(),
            order: self.order,
            place: self.place,
        }
    }
}

} // verus!
