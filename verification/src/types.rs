//! Primitive game types: players, colors, intersections, directions, moves.
//!
//! Every type here is a small value that doubles as a dense natural-number
//! key (see [`Nat`]), so that board-sized tables can be indexed by it.

use crate::nat_map::NatMap;
use vstd::prelude::*;
use vstd::std_specs::convert::FromSpecImpl;

verus! {

/// Largest supported board edge.
pub const MAX_BOARD_SIZE: usize = 19;

/// Width of one row of the padded grid: the board plus one sentinel column on
/// each side.
pub const ROW_SIZE: usize = 21;

/// Number of intersections of the padded grid.
pub const GRID_COUNT: usize = 441;

/// Number of vertex ids: the padded grid plus the two sentinels `pass` and
/// `none`.
pub const VERTEX_COUNT: usize = 443;

pub const PLAYER_COUNT: usize = 2;

pub const COLOR_COUNT: usize = 4;

pub const DIR_COUNT: usize = 8;

/// Number of move ids: `player | vertex << 1`.
pub const MOVE_COUNT: usize = 886;

/// A type whose values are the naturals below `count()`.
pub trait Nat: Copy {
    /// Size of the key domain.
    spec fn count() -> nat;

    /// The natural number a value stands for.
    spec fn raw_spec(self) -> nat;

    /// Dense index of the value.
    fn raw(self) -> (r: usize)
        ensures
            r == self.raw_spec(),
            r < Self::count(),
    ;

    /// The value with the given index.
    fn of_raw(raw: usize) -> (r: Self)
        requires
            raw < Self::count(),
        ensures
            r.raw_spec() == raw,
    ;

    /// Two values with the same index are the same value.
    proof fn lemma_raw_injective(a: Self, b: Self)
        requires
            a.raw_spec() == b.raw_spec(),
        ensures
            a == b,
    ;
}

// ---------------------------------------------------------------------------
// Player
// ---------------------------------------------------------------------------
#[derive(Copy, Clone, Debug, PartialEq, Eq, Structural)]
pub enum Player {
    Black,
    White,
}

impl Player {
    pub const COUNT: usize = 2;

    /// The other player.
    pub fn opponent(self) -> (r: Player)
        ensures
            r == self.spec_opponent(),
    {
        match self {
            Player::Black => Player::White,
            Player::White => Player::Black,
        }
    }

    pub open spec fn spec_opponent(self) -> Player {
        match self {
            Player::Black => Player::White,
            Player::White => Player::Black,
        }
    }

    /// `opponent` is an involution without fixed points.
    pub proof fn lemma_opponent_involution(self)
        ensures
            self.spec_opponent().spec_opponent() == self,
            self.spec_opponent() != self,
    {
    }
}

impl Nat for Player {
    open spec fn count() -> nat {
        2
    }

    open spec fn raw_spec(self) -> nat {
        match self {
            Player::Black => 0,
            Player::White => 1,
        }
    }

    fn raw(self) -> (r: usize) {
        match self {
            Player::Black => 0,
            Player::White => 1,
        }
    }

    fn of_raw(raw: usize) -> (r: Self) {
        if raw == 0 {
            Player::Black
        } else {
            Player::White
        }
    }

    proof fn lemma_raw_injective(a: Self, b: Self) {
    }
}

// ---------------------------------------------------------------------------
// Color
// ---------------------------------------------------------------------------
#[derive(Copy, Clone, Debug, PartialEq, Eq, Structural)]
pub enum Color {
    Black,
    White,
    Empty,
    OffBoard,
}

impl Color {
    pub const COUNT: usize = 4;

    /// Whether the color is a stone color.
    pub open spec fn is_player(self) -> bool {
        self == Color::Black || self == Color::White
    }

    /// The stone color of a player.
    pub open spec fn of_player(pl: Player) -> Color {
        match pl {
            Player::Black => Color::Black,
            Player::White => Color::White,
        }
    }

    /// The player whose stones have this color (Black for non-stone colors).
    pub open spec fn to_player(self) -> Player {
        match self {
            Color::White => Player::White,
            _ => Player::Black,
        }
    }
}

impl Nat for Color {
    open spec fn count() -> nat {
        4
    }

    open spec fn raw_spec(self) -> nat {
        match self {
            Color::Black => 0,
            Color::White => 1,
            Color::Empty => 2,
            Color::OffBoard => 3,
        }
    }

    fn raw(self) -> (r: usize) {
        match self {
            Color::Black => 0,
            Color::White => 1,
            Color::Empty => 2,
            Color::OffBoard => 3,
        }
    }

    fn of_raw(raw: usize) -> (r: Self) {
        if raw == 0 {
            Color::Black
        } else if raw == 1 {
            Color::White
        } else if raw == 2 {
            Color::Empty
        } else {
            Color::OffBoard
        }
    }

    proof fn lemma_raw_injective(a: Self, b: Self) {
    }
}

impl From<Player> for Color {
    fn from(player: Player) -> (r: Color) {
        match player {
            Player::Black => Color::Black,
            Player::White => Color::White,
        }
    }
}

impl FromSpecImpl<Player> for Color {
    open spec fn obeys_from_spec() -> bool {
        true
    }

    open spec fn from_spec(player: Player) -> Color {
        Color::of_player(player)
    }
}

/// Whether `color` is Black or White.
pub fn color_is_player(color: Color) -> (r: bool)
    ensures
        r == color.is_player(),
{
    match color {
        Color::Black => true,
        Color::White => true,
        Color::Empty => false,
        Color::OffBoard => false,
    }
}

/// The player of a stone color.
pub fn color_to_player(color: Color) -> (r: Player)
    requires
        color.is_player(),
    ensures
        Color::of_player(r) == color,
        r == color.to_player(),
{
    match color {
        Color::White => Player::White,
        _ => Player::Black,
    }
}

/// The character that stands for `color` in a board diagram.
pub fn color_to_showboard_char(color: Color) -> (r: char)
    ensures
        r == match color {
            Color::Black => '#',
            Color::White => 'O',
            Color::Empty => '.',
            Color::OffBoard => '$',
        },
{
    match color {
        Color::Black => '#',
        Color::White => 'O',
        Color::Empty => '.',
        Color::OffBoard => '$',
    }
}

// ---------------------------------------------------------------------------
// Vertex
// ---------------------------------------------------------------------------
/// An intersection of the padded 21x21 grid, or one of the sentinels `pass`
/// and `none`.  The id of the grid point in padded row `r` and padded column
/// `c` is `21 * r + c`.
#[derive(Copy, Clone, Debug, PartialEq, Eq, Structural)]
pub struct Vertex {
    pub(crate) raw: u32,
}

impl Vertex {
    pub const ROW_SIZE: usize = 21;

    pub const COUNT_ON_BOARD: usize = 441;

    pub const COUNT: usize = 443;

    /// Every vertex that executable code holds has an id below 443.
    #[verifier::type_invariant]
    pub open spec fn inv(self) -> bool {
        0 <= self.id() < 443
    }

    /// The id of the vertex.
    pub closed spec fn id(self) -> int {
        self.raw as int
    }

    /// Vertices are equal exactly when their ids are.
    pub broadcast proof fn lemma_id_eq(a: Vertex, b: Vertex)
        ensures
            (#[trigger] a.id() == #[trigger] b.id()) <==> a == b,
    {
    }

    /// The vertex at board coordinates (`row`, `column`), both counted from 0;
    /// -1 and 19 address the sentinel ring.
    pub fn from_coords(row: isize, column: isize) -> (r: Vertex)
        requires
            0 <= (row + 1) * 21 + (column + 1) < 441,
        ensures
            r.id() == (row + 1) * 21 + (column + 1),
    {
        let padded_row: i128 = row as i128 + 1;
        let padded_column: i128 = column as i128 + 1;
        let index: i128 = padded_row * 21 + padded_column;
        Vertex { raw: index as u32 }
    }

    /// Board row of a grid vertex, counted from 0 (-1 on the top sentinel row).
    pub fn row(self) -> (r: isize)
        ensures
            r == self.id() / 21 - 1,
    {
        proof {
            use_type_invariant(self);
        }
        (self.raw / 21) as isize - 1
    }

    /// Board column of a grid vertex, counted from 0 (-1 on the left sentinel
    /// column).
    pub fn column(self) -> (r: isize)
        ensures
            r == self.id() % 21 - 1,
    {
        proof {
            use_type_invariant(self);
        }
        (self.raw % 21) as isize - 1
    }

    /// The sentinel that stands for a pass move.
    pub fn pass() -> (r: Vertex)
        ensures
            r.id() == 441,
    {
        Vertex { raw: 441 }
    }

    /// The sentinel that stands for "no vertex".
    pub fn none() -> (r: Vertex)
        ensures
            r.id() == 442,
    {
        Vertex { raw: 442 }
    }

    pub fn up(self) -> (r: Vertex)
        requires
            self.id() >= 21,
        ensures
            r.id() == self.id() - 21,
    {
        proof {
            use_type_invariant(self);
        }
        Vertex { raw: self.raw - 21 }
    }

    pub fn down(self) -> (r: Vertex)
        requires
            self.id() + 21 < 443,
        ensures
            r.id() == self.id() + 21,
    {
        Vertex { raw: self.raw + 21 }
    }

    pub fn left(self) -> (r: Vertex)
        requires
            self.id() >= 1,
        ensures
            r.id() == self.id() - 1,
    {
        proof {
            use_type_invariant(self);
        }
        Vertex { raw: self.raw - 1 }
    }

    pub fn right(self) -> (r: Vertex)
        requires
            self.id() + 1 < 443,
        ensures
            r.id() == self.id() + 1,
    {
        Vertex { raw: self.raw + 1 }
    }

    /// The id as an array index.
    pub fn index(self) -> (r: usize)
        ensures
            r == self.id(),
            r < 443,
    {
        proof {
            use_type_invariant(self);
        }
        self.raw as usize
    }

    /// The vertex with the given id.
    pub fn from_index(index: usize) -> (r: Vertex)
        requires
            index < 443,
        ensures
            r.id() == index,
    {
        Vertex { raw: index as u32 }
    }
}

/// Whether `id` is a point of the 19x19 area inside the sentinel ring.
pub open spec fn id_on_grid(id: int) -> bool {
    1 <= id / 21 <= 19 && 1 <= id % 21 <= 19
}

impl Nat for Vertex {
    open spec fn count() -> nat {
        443
    }

    open spec fn raw_spec(self) -> nat {
        self.id() as nat
    }

    fn raw(self) -> (r: usize) {
        self.index()
    }

    fn of_raw(raw: usize) -> (r: Self) {
        Vertex::from_index(raw)
    }

    proof fn lemma_raw_injective(a: Self, b: Self) {
    }
}

// ---------------------------------------------------------------------------
// Dir
// ---------------------------------------------------------------------------
/// The eight directions; the first four are the cardinal ones.
#[derive(Copy, Clone, Debug, PartialEq, Eq, Structural)]
pub enum Dir {
    N,
    E,
    S,
    W,
    NW,
    NE,
    SE,
    SW,
}

impl Default for Dir {
    fn default() -> (r: Dir)
        ensures
            r == Dir::N,
    {
        Dir::N
    }
}

impl Dir {
    pub fn n() -> (r: Dir)
        ensures
            r == Dir::N,
    {
        Dir::N
    }

    pub fn e() -> (r: Dir)
        ensures
            r == Dir::E,
    {
        Dir::E
    }

    pub fn s() -> (r: Dir)
        ensures
            r == Dir::S,
    {
        Dir::S
    }

    pub fn w() -> (r: Dir)
        ensures
            r == Dir::W,
    {
        Dir::W
    }

    /// Whether the direction is one of N, E, S, W.
    pub fn is_simple4(&self) -> (r: bool)
        ensures
            r == self.spec_is_simple4(),
    {
        match self {
            Dir::N => true,
            Dir::E => true,
            Dir::S => true,
            Dir::W => true,
            _ => false,
        }
    }

    pub open spec fn spec_is_simple4(&self) -> bool {
        self.raw_spec() < 4
    }

    /// The direction that points the other way.
    pub fn opposite(&self) -> (r: Dir)
        ensures
            r == self.spec_opposite(),
    {
        match self {
            Dir::N => Dir::S,
            Dir::E => Dir::W,
            Dir::S => Dir::N,
            Dir::W => Dir::E,
            Dir::NW => Dir::SE,
            Dir::NE => Dir::SW,
            Dir::SE => Dir::NW,
            Dir::SW => Dir::NE,
        }
    }

    pub open spec fn spec_opposite(&self) -> Dir {
        match self {
            Dir::N => Dir::S,
            Dir::E => Dir::W,
            Dir::S => Dir::N,
            Dir::W => Dir::E,
            Dir::NW => Dir::SE,
            Dir::NE => Dir::SW,
            Dir::SE => Dir::NW,
            Dir::SW => Dir::NE,
        }
    }

    /// 0 for the cardinal directions, 1 for the diagonal ones.
    pub fn proximity(&self) -> (r: usize)
        ensures
            r == if self.spec_is_simple4() { 0usize } else { 1usize },
    {
        if self.is_simple4() {
            0
        } else {
            1
        }
    }

    /// What a step in this direction adds to a vertex id.
    pub open spec fn offset(self) -> int {
        match self {
            Dir::N => -21,
            Dir::E => 1,
            Dir::S => 21,
            Dir::W => -1,
            Dir::NW => -22,
            Dir::NE => -20,
            Dir::SE => 22,
            Dir::SW => 20,
        }
    }

    /// Stepping back undoes a step: `opposite` is an involution that keeps the
    /// kind of the direction and negates its offset.
    pub proof fn lemma_opposite(self)
        ensures
            self.spec_opposite().spec_opposite() == self,
            self.spec_opposite().offset() == -self.offset(),
            self.spec_opposite().spec_is_simple4() == self.spec_is_simple4(),
    {
    }
}

impl Nat for Dir {
    open spec fn count() -> nat {
        8
    }

    open spec fn raw_spec(self) -> nat {
        match self {
            Dir::N => 0,
            Dir::E => 1,
            Dir::S => 2,
            Dir::W => 3,
            Dir::NW => 4,
            Dir::NE => 5,
            Dir::SE => 6,
            Dir::SW => 7,
        }
    }

    fn raw(self) -> (r: usize) {
        match self {
            Dir::N => 0,
            Dir::E => 1,
            Dir::S => 2,
            Dir::W => 3,
            Dir::NW => 4,
            Dir::NE => 5,
            Dir::SE => 6,
            Dir::SW => 7,
        }
    }

    fn of_raw(raw: usize) -> (r: Self) {
        if raw == 0 {
            Dir::N
        } else if raw == 1 {
            Dir::E
        } else if raw == 2 {
            Dir::S
        } else if raw == 3 {
            Dir::W
        } else if raw == 4 {
            Dir::NW
        } else if raw == 5 {
            Dir::NE
        } else if raw == 6 {
            Dir::SE
        } else {
            Dir::SW
        }
    }

    proof fn lemma_raw_injective(a: Self, b: Self) {
    }
}

// ---------------------------------------------------------------------------
// Move
// ---------------------------------------------------------------------------
/// 0 for Black, 1 for White.
pub open spec fn player_index(pl: Player) -> int {
    match pl {
        Player::Black => 0,
        Player::White => 1,
    }
}

/// A player together with the vertex played.
#[derive(Copy, Clone, Debug, PartialEq, Eq, Structural)]
pub struct Move {
    pub player: Player,
    pub vertex: Vertex,
}

impl Move {
    pub fn of_player_vertex(player: Player, vertex: Vertex) -> (r: Move)
        ensures
            r.player == player,
            r.vertex == vertex,
    {
        Move { player, vertex }
    }
}

impl Nat for Move {
    open spec fn count() -> nat {
        886
    }

    /// `player | vertex << 1`.
    open spec fn raw_spec(self) -> nat {
        (player_index(self.player) + 2 * self.vertex.id()) as nat
    }

    fn raw(self) -> (r: usize) {
        let player_raw: usize = match self.player {
            Player::Black => 0,
            Player::White => 1,
        };
        let vertex_raw: usize = self.vertex.index();
        assert(player_raw | (vertex_raw << 1) == player_raw + 2 * vertex_raw) by (bit_vector)
            requires
                player_raw < 2,
                vertex_raw < 443,
        ;
        player_raw | (vertex_raw << 1)
    }

    fn of_raw(raw: usize) -> (r: Self) {
        assert(raw & 1 < 2 && raw >> 1 < 443 && (raw & 1) + 2 * (raw >> 1) == raw) by (bit_vector)
            requires
                raw < 886,
        ;
        let player = if raw & 1 == 0 {
            Player::Black
        } else {
            Player::White
        };
        Move { player, vertex: Vertex::from_index(raw >> 1) }
    }

    proof fn lemma_raw_injective(a: Self, b: Self) {
        Vertex::lemma_id_eq(a.vertex, b.vertex);
    }
}

// ---------------------------------------------------------------------------
// Navigation
// ---------------------------------------------------------------------------
/// Whether a step from `id` in direction `dir` stays among the vertex ids,
/// every intermediate step included.
pub open spec fn has_nbr(id: int, dir: Dir) -> bool {
    match dir {
        Dir::N => id >= 21,
        Dir::E => id + 1 < 443,
        Dir::S => id + 21 < 443,
        Dir::W => id >= 1,
        Dir::NW => id >= 22,
        Dir::NE => id >= 21,
        Dir::SE => id + 22 < 443,
        Dir::SW => id + 21 < 443,
    }
}

/// The vertex with padded coordinates (`row`, `column`), both in 0..21.
pub fn vertex_of_coords_full(row: i32, column: i32) -> (r: Vertex)
    requires
        0 <= row < 21,
        0 <= column < 21,
    ensures
        r.id() == row * 21 + column,
{
    Vertex::from_coords(row as isize - 1, column as isize - 1)
}

/// The neighbor of `v` in direction `dir`.
pub fn vertex_nbr(v: Vertex, dir: Dir) -> (r: Vertex)
    requires
        has_nbr(v.id(), dir),
    ensures
        r.id() == v.id() + dir.offset(),
{
    proof {
        use_type_invariant(v);
    }
    match dir {
        Dir::N => v.up(),
        Dir::E => v.right(),
        Dir::S => v.down(),
        Dir::W => v.left(),
        Dir::NW => v.up().left(),
        Dir::NE => v.up().right(),
        Dir::SE => v.down().right(),
        Dir::SW => v.down().left(),
    }
}

/// A point of the 19x19 area has all eight neighbors on the padded grid.
pub proof fn lemma_grid_nbrs(id: int, dir: Dir)
    requires
        id_on_grid(id),
    ensures
        has_nbr(id, dir),
        0 <= id + dir.offset() < 441,
        22 <= id < 419,
{
}

pub type PlayerMap<T> = NatMap<PLAYER_COUNT, Player, T>;

pub type VertexMap<T> = NatMap<VERTEX_COUNT, Vertex, T>;

pub type ColorMap<T> = NatMap<COLOR_COUNT, Color, T>;

pub type MoveMap<T> = NatMap<MOVE_COUNT, Move, T>;

} // verus!
