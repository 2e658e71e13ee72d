use go_game_board::board::Board;
use go_game_board::fast_random::FastRandom;
use go_game_board::hash::{Hash3x3, Hash3x3Map, Zobrist};
use go_game_board::types::{Color, Dir, Nat, Player, Vertex};

#[test]
fn park_miller_matches_the_product() {
    let mut rng = FastRandom::new(123);
    let mut seed: u64 = 123;
    for _ in 0..1000 {
        seed = seed * 16807 % 0x7fff_ffff;
        assert_eq!(rng.get_next_uint() as u64, seed);
    }
}

#[test]
fn park_miller_edge_seeds() {
    assert_eq!(FastRandom::new(0).get_next_uint(), 0);
    assert_eq!(FastRandom::new(0x7fff_ffff).get_next_uint(), 0x7fff_ffff);
    assert_eq!(FastRandom::new(0xffff_ffff).get_next_uint(), 16807);
    assert_eq!(FastRandom::new(0x7fff_fffe).get_next_uint(), 0x7fff_ffff - 16807);
}

#[test]
fn hash_mixes_four_outputs() {
    let mut rng = FastRandom::new(123);
    let mut expected = FastRandom::new(123);
    let a = expected.get_next_uint() as u64;
    let b = expected.get_next_uint() as u64;
    let c = expected.get_next_uint() as u64;
    let d = expected.get_next_uint() as u64;
    let mut h = go_game_board::hash::Hash::new();
    h.randomize(&mut rng);
    let mut first = go_game_board::hash::Hash::new();
    let mut again = FastRandom::new(123);
    first.randomize(&mut again);
    assert!(h == first);
    assert!(h != go_game_board::hash::Hash::new());
    assert!(h.xor(h) == go_game_board::hash::Hash::new());
    // The zobrist word of a black stone on vertex 0 is the first word drawn.
    let table = Zobrist::new();
    assert!(table.of_player_vertex(Player::Black, Vertex::from_index(0)) == h);
    let mut second = go_game_board::hash::Hash::new();
    second.randomize(&mut rng);
    assert!(table.of_player_vertex(Player::Black, Vertex::from_index(1)) == second);
    assert!(a ^ (b << 16) ^ (c << 32) ^ (d << 48) != 0);
    let mut z = go_game_board::hash::Hash::new();
    z.randomize(&mut rng);
    z.set_zero();
    assert!(z == go_game_board::hash::Hash::default());
}

#[test]
fn zobrist_order_is_black_then_white() {
    let table = Zobrist::new();
    let mut rng = FastRandom::new(123);
    let mut h = go_game_board::hash::Hash::new();
    for _ in 0..443 {
        h.randomize(&mut rng);
    }
    assert!(table.of_player_vertex(Player::Black, Vertex::none()) == h);
    h.randomize(&mut rng);
    assert!(table.of_player_vertex(Player::White, Vertex::from_index(0)) == h);
    let copy = table.duplicate();
    assert!(copy.of_player_vertex(Player::White, Vertex::from_index(0)) == h);
}

#[test]
fn positional_hash_is_the_xor_of_the_stones() {
    let table = Zobrist::new();
    let mut board = Board::new();
    let a = Vertex::from_coords(2, 2);
    let b = Vertex::from_coords(6, 6);
    assert!(board.is_legal(Player::Black, a));
    board.play_legal(Player::Black, a);
    assert!(board.positional_hash() == table.of_player_vertex(Player::Black, a));
    assert!(board.is_legal(Player::White, b));
    board.play_legal(Player::White, b);
    let both = table
        .of_player_vertex(Player::Black, a)
        .xor(table.of_player_vertex(Player::White, b));
    assert!(board.positional_hash() == both);
    assert!(board.recalc_hash() == both);
}

#[test]
fn pattern_slots() {
    let mut hash = Hash3x3::default();
    assert_eq!(hash.raw(), 0);
    hash.set_color_at(Dir::E, Color::OffBoard);
    assert_eq!(hash.raw(), 3 << 2);
    hash.set_color_at(Dir::SW, Color::Empty);
    assert_eq!(hash.raw(), (3 << 2) | (2 << 14));
    hash.set_color_at(Dir::E, Color::White);
    assert_eq!(hash.raw(), (1 << 2) | (2 << 14));
    hash.set_atari_bits(true, false, false, true);
    assert_eq!(hash.raw(), (1 << 2) | (2 << 14) | (1 << 16) | (1 << 19));
    hash.unset_atari_bits(true, true, false, false);
    assert_eq!(hash.raw(), (1 << 2) | (2 << 14) | (1 << 19));
    hash.reset_atari_bits();
    assert_eq!(hash.raw(), (1 << 2) | (2 << 14));
    assert_eq!(Hash3x3::of_raw(0xfffff).raw(), 0xfffff);
    assert_eq!(Hash3x3::COUNT, 1 << 20);
}

#[test]
fn pattern_map() {
    let mut map: Hash3x3Map<u32> = Hash3x3Map::new();
    let h = Hash3x3::of_raw(77);
    assert_eq!(map.get(h), 0);
    map.set(h, 5);
    assert_eq!(map.get(h), 5);
    assert_eq!(map.get(Hash3x3::of_raw(78)), 0);
    let filled: Hash3x3Map<u8> = Hash3x3Map::new_with(3);
    assert_eq!(filled.get(Hash3x3::of_raw(0xfffff)), 3);
}

#[test]
fn fingerprints_of_an_empty_board() {
    let board = Board::with_size(3, 3);
    let corner = board.hash3x3_at(Vertex::from_coords(0, 0));
    assert_eq!(corner.color_at(Dir::N), Color::OffBoard);
    assert_eq!(corner.color_at(Dir::W), Color::OffBoard);
    assert_eq!(corner.color_at(Dir::E), Color::Empty);
    assert_eq!(corner.color_at(Dir::S), Color::Empty);
    assert_eq!(corner.color_at(Dir::SE), Color::Empty);
    assert_eq!(corner.color_at(Dir::NW), Color::OffBoard);
    let center = board.hash3x3_at(Vertex::from_coords(1, 1));
    for d in 0..8 {
        assert_eq!(center.color_at(Dir::of_raw(d)), Color::Empty);
    }
    assert_eq!(board.hash3x3_at(Vertex::from_coords(3, 3)).raw(), 0);
    assert_eq!(board.empty_vertex_count(), 9);
}
