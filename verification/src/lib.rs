//! Incremental Go board state for Monte Carlo playouts: strings, liberties,
//! ko, atari and 3x3 pattern fingerprints, all kept in step with every stone.

pub mod atari;
pub mod board;
pub mod board_atari;
pub mod board_play;
pub mod board_query;
pub mod board_setup;
pub mod fast_random;
pub mod hash;
pub mod joined;
pub mod laws;
pub mod liberties;
pub mod moments;
pub mod nat_map;
pub mod nat_set;
pub mod position;
pub mod strings;
pub mod types;
pub mod updates;
pub mod vertex_list;

pub use types::{
    color_is_player, color_to_player, color_to_showboard_char, vertex_nbr, vertex_of_coords_full,
    Color, ColorMap, Dir, Move, MoveMap, Nat, Player, PlayerMap, Vertex, VertexMap, MAX_BOARD_SIZE,
};
