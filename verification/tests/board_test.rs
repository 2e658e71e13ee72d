use go_game_board::board::{Board, Chain, NbrCounter};
use go_game_board::fast_random::FastRandom;
use go_game_board::hash::Hash3x3;
use go_game_board::nat_map::NatMap;
use go_game_board::nat_set::NatSet;
use go_game_board::types::{
    color_is_player, color_to_player, color_to_showboard_char, vertex_nbr, vertex_of_coords_full,
    Color, Dir, Move, Nat, Player, Vertex,
};

fn at(row: isize, column: isize) -> Vertex {
    Vertex::from_coords(row, column)
}

fn play(board: &mut Board, player: Player, v: Vertex) {
    assert!(board.is_legal(player, v));
    board.play_legal(player, v);
}

fn count_color(board: &Board, color: Color) -> usize {
    let mut n = 0;
    for i in 0..Vertex::COUNT {
        if board.color_at(Vertex::from_index(i)) == color {
            n += 1;
        }
    }
    n
}

/// The fingerprint that `of_board` computes for every vertex that is not off
/// the board, next to the one that the board keeps, without atari flags.
fn check_patterns(board: &Board) {
    let mut colors: NatMap<443, Vertex, Color> = NatMap::new_with(Color::OffBoard);
    for i in 0..Vertex::COUNT {
        let v = Vertex::from_index(i);
        colors.set(v, board.color_at(v));
    }
    for i in 0..Vertex::COUNT {
        let v = Vertex::from_index(i);
        if board.color_at(v) == Color::Empty {
            let mut kept = board.hash3x3_at(v);
            kept.reset_atari_bits();
            assert_eq!(Hash3x3::of_board(&colors, v), kept);
        }
    }
}

/// The atari flags of every empty vertex next to the records of the strings
/// around it, and the legality that its fingerprint shows next to that of
/// the board.
fn check_flags(board: &Board) {
    for i in 0..Vertex::COUNT {
        let v = Vertex::from_index(i);
        if board.color_at(v) == Color::Empty {
            for d in [Dir::N, Dir::E, Dir::S, Dir::W] {
                let n = vertex_nbr(v, d);
                let stone_in_atari = color_is_player(board.color_at(n))
                    && board.chain_at(board.chain_id_at(n)).is_in_atari();
                assert_eq!(board.hash3x3_at(v).is_in_atari(d), stone_in_atari);
            }
            if v != board.ko_vertex() {
                for pl in [Player::Black, Player::White] {
                    assert_eq!(board.is_legal(pl, v), board.hash3x3_at(v).is_legal(pl));
                }
            }
        } else if color_is_player(board.color_at(v)) {
            assert!(board.chain_at(board.chain_id_at(v)).lib_cnt > 0);
            for d in [Dir::N, Dir::E, Dir::S, Dir::W] {
                let n = vertex_nbr(v, d);
                if board.color_at(n) == board.color_at(v) {
                    assert_eq!(board.chain_id_at(n), board.chain_id_at(v));
                }
            }
        }
    }
}

fn check_tables(board: &Board) {
    check_flags(board);
    assert!(board.positional_hash() == board.recalc_hash());
    assert_eq!(board.empty_vertex_count(), count_color(board, Color::Empty));
    let mut seen = vec![false; Vertex::COUNT];
    for i in 0..board.empty_vertex_count() {
        let v = board.empty_vertex(i);
        assert_eq!(board.color_at(v), Color::Empty);
        assert!(!seen[v.index()]);
        seen[v.index()] = true;
    }
    check_patterns(board);
}

#[test]
fn single_stone_capture() {
    let mut board = Board::new();
    play(&mut board, Player::Black, at(0, 0));
    play(&mut board, Player::White, at(0, 1));
    play(&mut board, Player::Black, at(1, 1));
    play(&mut board, Player::White, at(5, 5));
    assert_eq!(count_color(&board, Color::White), 2);
    play(&mut board, Player::Black, at(0, 2));
    assert_eq!(board.color_at(at(0, 1)), Color::Empty);
    assert_eq!(count_color(&board, Color::White), 1);
    assert_eq!(count_color(&board, Color::Black), 3);
    assert_eq!(board.ko_vertex(), Vertex::none());
    assert_eq!(board.move_count(), 5);
    check_tables(&board);
}

#[test]
fn ko_is_set_and_lifted() {
    let mut board = Board::new();
    // Black d4, c3, e3, d2; White c4, e4, d5; then White d3 captures d4.
    let d4 = at(3, 3);
    let d3 = at(2, 3);
    play(&mut board, Player::Black, d4);
    play(&mut board, Player::White, at(3, 2));
    play(&mut board, Player::Black, at(2, 2));
    play(&mut board, Player::White, at(3, 4));
    play(&mut board, Player::Black, at(2, 4));
    play(&mut board, Player::White, at(4, 3));
    play(&mut board, Player::Black, at(1, 3));
    assert_eq!(board.ko_vertex(), Vertex::none());
    play(&mut board, Player::White, d3);
    assert_eq!(board.color_at(d4), Color::Empty);
    assert_eq!(board.color_at(d3), Color::White);
    assert_eq!(board.ko_vertex(), d4);
    assert!(!board.is_legal(Player::Black, d4));
    check_tables(&board);
    play(&mut board, Player::Black, at(7, 7));
    assert_eq!(board.ko_vertex(), Vertex::none());
    play(&mut board, Player::White, at(7, 1));
    assert!(board.is_legal(Player::Black, d4));
    play(&mut board, Player::Black, d4);
    assert_eq!(board.color_at(d3), Color::Empty);
    assert_eq!(board.ko_vertex(), d3);
    check_tables(&board);
}

#[test]
fn suicide_is_rejected() {
    let mut board = Board::new();
    play(&mut board, Player::White, at(0, 1));
    play(&mut board, Player::White, at(1, 0));
    assert!(!board.is_legal(Player::Black, at(0, 0)));
    assert!(board.is_legal(Player::White, at(0, 0)));
    assert!(board.is_legal(Player::Black, Vertex::pass()));
    assert!(!board.is_legal(Player::Black, at(0, 1)));
    assert!(!board.is_legal(Player::Black, Vertex::none()));
}

#[test]
fn suicide_check_counts_a_string_once_for_every_touching_stone() {
    // The white string c1-c2-b2... touches a1's neighbors twice only through
    // different stones: a2 and b1 belong to one white string with liberties
    // elsewhere, so a1 is suicide for Black and fine for White.
    let mut board = Board::new();
    play(&mut board, Player::White, at(0, 1));
    play(&mut board, Player::White, at(1, 1));
    play(&mut board, Player::White, at(1, 0));
    assert!(!board.is_legal(Player::Black, at(0, 0)));
    assert!(board.is_legal(Player::White, at(0, 0)));
    // Take the outside liberties away: now the string has a1 as its only
    // liberty, counted twice, and Black captures by playing there.
    play(&mut board, Player::Black, at(0, 2));
    play(&mut board, Player::Black, at(1, 2));
    play(&mut board, Player::Black, at(2, 1));
    play(&mut board, Player::Black, at(2, 0));
    assert!(board.is_legal(Player::Black, at(0, 0)));
    assert!(!board.is_legal(Player::White, at(0, 0)));
    play(&mut board, Player::Black, at(0, 0));
    assert_eq!(count_color(&board, Color::White), 0);
    assert_eq!(board.color_at(at(1, 1)), Color::Empty);
    assert_eq!(board.ko_vertex(), Vertex::none());
    check_tables(&board);
}

#[test]
fn eyelike_pattern_has_no_weight() {
    let mut hash = Hash3x3::default();
    for d in 0..4 {
        hash.set_color_at(Dir::of_raw(d), Color::Black);
    }
    for d in 4..8 {
        hash.set_color_at(Dir::of_raw(d), Color::Empty);
    }
    assert!(hash.is_eyelike(Player::Black));
    assert!(!hash.is_eyelike(Player::White));
    assert!(hash.is_legal(Player::Black));
    assert!(!(hash.is_legal(Player::Black) && !hash.is_eyelike(Player::Black)));
    hash.set_color_at(Dir::NW, Color::White);
    assert!(hash.is_eyelike(Player::Black));
    hash.set_color_at(Dir::SE, Color::White);
    assert!(!hash.is_eyelike(Player::Black));
    hash.set_color_at(Dir::SE, Color::OffBoard);
    assert!(!hash.is_eyelike(Player::Black));
    hash.set_color_at(Dir::NW, Color::OffBoard);
    assert!(hash.is_eyelike(Player::Black));
}

#[test]
fn pattern_legality() {
    let mut hash = Hash3x3::default();
    for d in 0..4 {
        hash.set_color_at(Dir::of_raw(d), Color::White);
    }
    // Surrounded by the opponent: illegal unless one of them is in atari.
    assert!(!hash.is_legal(Player::Black));
    assert!(hash.is_legal(Player::White));
    hash.set_atari_bits(false, true, false, false);
    assert!(hash.is_in_atari(Dir::E));
    assert!(!hash.is_in_atari(Dir::N));
    assert!(hash.is_legal(Player::Black));
    hash.unset_atari_bits(false, true, false, false);
    assert!(!hash.is_legal(Player::Black));
    hash.set_atari_bits(true, true, true, true);
    // All friends in atari: no liberty is left for White.
    assert!(!hash.is_legal(Player::White));
    hash.reset_atari_bits();
    assert!(hash.is_legal(Player::White));
    hash.set_color_at(Dir::S, Color::Empty);
    assert!(hash.is_legal(Player::Black));
    assert_eq!(hash.color_at(Dir::S), Color::Empty);
    assert_eq!(hash.color_at(Dir::N), Color::White);
}

#[test]
fn scoring_counts_stones_and_eyes() {
    let mut board = Board::new();
    assert_eq!(board.playout_score(), -6);
    assert_eq!(board.playout_winner(), Player::White);
    play(&mut board, Player::Black, at(0, 1));
    assert_eq!(board.playout_score(), -5);
    play(&mut board, Player::Black, at(1, 0));
    // Two stones and the eye in the corner.
    assert_eq!(board.playout_score(), -3);
    play(&mut board, Player::White, at(8, 7));
    play(&mut board, Player::White, at(7, 8));
    assert_eq!(board.playout_score(), -6);
    for c in 0..9 {
        if board.color_at(at(4, c)) == Color::Empty {
            play(&mut board, Player::Black, at(4, c));
        }
    }
    assert_eq!(board.playout_score(), 3);
    assert_eq!(board.playout_winner(), Player::Black);
}

#[test]
fn two_passes_end_the_playout() {
    let mut board = Board::new();
    assert!(!board.both_player_pass());
    play(&mut board, Player::Black, Vertex::pass());
    assert!(!board.both_player_pass());
    assert_eq!(board.last_vertex(), Vertex::pass());
    play(&mut board, Player::White, Vertex::pass());
    assert!(board.both_player_pass());
    assert_eq!(board.move_count(), 2);
    assert_eq!(board.hash3x3_changed_count(), 0);
    play(&mut board, Player::Black, at(2, 2));
    assert!(!board.both_player_pass());
    assert_eq!(board.last_player(), Player::Black);
    assert_eq!(board.act_player(), Player::White);
}

#[test]
fn clear_is_idempotent() {
    let mut board = Board::with_size(5, 7);
    play(&mut board, Player::Black, at(2, 2));
    play(&mut board, Player::White, at(3, 2));
    board.clear();
    let once = board.clone();
    board.clear();
    assert_eq!(board.move_count(), 0);
    assert!(board.positional_hash() == go_game_board::hash::Hash::new());
    assert_eq!(board.empty_vertex_count(), 35);
    assert_eq!(board.hash3x3_changed_count(), 0);
    assert_eq!(board.last_vertex(), Vertex::none());
    assert_eq!(board.ko_vertex(), Vertex::none());
    for i in 0..Vertex::COUNT {
        let v = Vertex::from_index(i);
        assert_eq!(board.color_at(v), once.color_at(v));
        assert_eq!(board.hash3x3_at(v), once.hash3x3_at(v));
    }
    for i in 0..35 {
        assert_eq!(board.empty_vertex(i), once.empty_vertex(i));
    }
    assert_eq!(board.color_at(at(6, 4)), Color::Empty);
    assert_eq!(board.color_at(at(6, 5)), Color::OffBoard);
    assert_eq!(board.color_at(at(7, 4)), Color::OffBoard);
    assert_eq!(board.empty_vertex(0), at(0, 0));
    assert_eq!(board.empty_vertex(5), at(1, 0));
    check_tables(&board);
}

#[test]
fn changed_list_follows_the_move() {
    let mut board = Board::new();
    assert_eq!(board.hash3x3_changed_count(), 0);
    let v = at(4, 4);
    play(&mut board, Player::Black, v);
    assert_eq!(board.hash3x3_changed_count(), 8);
    for d in 0..8 {
        assert_eq!(board.hash3x3_changed(d), vertex_nbr(v, Dir::of_raw(d)));
    }
    let copy = board.clone();
    assert_eq!(copy.hash3x3_changed_count(), 8);
    assert_eq!(copy.hash3x3_changed(3), vertex_nbr(v, Dir::W));
    play(&mut board, Player::White, at(0, 0));
    assert_eq!(board.hash3x3_changed_count(), 3);
    assert_eq!(board.hash3x3_changed(0), at(0, 1));
    assert_eq!(board.hash3x3_changed(1), at(1, 0));
    assert_eq!(board.hash3x3_changed(2), at(1, 1));
    assert_eq!(copy.hash3x3_changed_count(), 8);
}

#[test]
fn atari_flags_are_raised_and_lowered() {
    let mut board = Board::new();
    play(&mut board, Player::Black, at(0, 0));
    // The corner stone has two liberties.
    assert!(!board.hash3x3_at(at(0, 1)).is_in_atari(Dir::W));
    play(&mut board, Player::White, at(0, 1));
    // Now it has one, the vertex below it.
    assert!(board.hash3x3_at(at(1, 0)).is_in_atari(Dir::N));
    assert!(board.hash3x3_at(at(1, 0)).is_legal(Player::White));
    play(&mut board, Player::Black, at(1, 1));
    play(&mut board, Player::Black, at(0, 2));
    // White was captured: the corner stone is out of atari again.
    assert_eq!(board.color_at(at(0, 1)), Color::Empty);
    assert!(!board.hash3x3_at(at(1, 0)).is_in_atari(Dir::N));
    check_tables(&board);
}

#[test]
fn load_copies_the_position() {
    let mut board = Board::new();
    play(&mut board, Player::Black, at(3, 3));
    play(&mut board, Player::White, at(3, 4));
    let mut other = Board::with_size(9, 9);
    other.load(&board);
    assert_eq!(other.move_count(), 2);
    assert!(other.positional_hash() == board.positional_hash());
    assert_eq!(other.color_at(at(3, 3)), Color::Black);
    assert_eq!(other.empty_vertex_count(), 79);
    assert_eq!(other.last_player(), Player::White);
    play(&mut other, Player::Black, at(5, 5));
    assert_eq!(board.color_at(at(5, 5)), Color::Empty);
    check_tables(&other);
}

#[test]
fn merged_strings_are_captured_together() {
    let mut board = Board::new();
    play(&mut board, Player::Black, at(0, 0));
    play(&mut board, Player::Black, at(0, 2));
    play(&mut board, Player::Black, at(0, 1));
    play(&mut board, Player::White, at(1, 0));
    play(&mut board, Player::White, at(1, 1));
    play(&mut board, Player::White, at(1, 2));
    assert_eq!(count_color(&board, Color::Black), 3);
    play(&mut board, Player::White, at(0, 3));
    assert_eq!(count_color(&board, Color::Black), 0);
    assert_eq!(board.empty_vertex_count(), 81 - 4);
    assert_eq!(board.ko_vertex(), Vertex::none());
    assert_eq!(board.hash3x3_changed_count() >= 3, true);
    check_tables(&board);
}

#[test]
fn vertex_coordinates() {
    let v = at(2, 5);
    assert_eq!(v.index(), 3 * 21 + 6);
    assert_eq!(v.row(), 2);
    assert_eq!(v.column(), 5);
    assert_eq!(v.up(), at(1, 5));
    assert_eq!(v.down(), at(3, 5));
    assert_eq!(v.left(), at(2, 4));
    assert_eq!(v.right(), at(2, 6));
    assert_eq!(vertex_nbr(v, Dir::NW), at(1, 4));
    assert_eq!(vertex_nbr(v, Dir::NE), at(1, 6));
    assert_eq!(vertex_nbr(v, Dir::SE), at(3, 6));
    assert_eq!(vertex_nbr(v, Dir::SW), at(3, 4));
    assert_eq!(vertex_of_coords_full(3, 6), v);
    assert_eq!(Vertex::pass().index(), 441);
    assert_eq!(Vertex::none().index(), 442);
    assert_eq!(Vertex::of_raw(77).raw(), 77);
    assert_eq!(Vertex::COUNT, 443);
}

#[test]
fn directions_players_and_colors() {
    for d in 0..8 {
        let dir = Dir::of_raw(d);
        assert_eq!(dir.raw(), d);
        assert_eq!(dir.opposite().opposite(), dir);
        assert_eq!(dir.is_simple4(), d < 4);
        assert_eq!(dir.proximity(), if d < 4 { 0 } else { 1 });
    }
    assert_eq!(Dir::N.opposite(), Dir::S);
    assert_eq!(Dir::NE.opposite(), Dir::SW);
    assert_eq!(Dir::n(), Dir::N);
    assert_eq!(Dir::e(), Dir::E);
    assert_eq!(Dir::s(), Dir::S);
    assert_eq!(Dir::w(), Dir::W);
    assert_eq!(Dir::default(), Dir::N);
    assert_eq!(Player::Black.opponent(), Player::White);
    assert_eq!(Player::White.opponent(), Player::Black);
    assert_eq!(Color::from(Player::White), Color::White);
    assert!(color_is_player(Color::Black));
    assert!(!color_is_player(Color::Empty));
    assert!(!color_is_player(Color::OffBoard));
    assert_eq!(color_to_player(Color::White), Player::White);
    assert_eq!(color_to_showboard_char(Color::Black), '#');
    assert_eq!(color_to_showboard_char(Color::White), 'O');
    assert_eq!(color_to_showboard_char(Color::Empty), '.');
    assert_eq!(color_to_showboard_char(Color::OffBoard), '$');
    assert_eq!(Color::of_raw(2), Color::Empty);
    assert_eq!(Color::OffBoard.raw(), 3);
    let m = Move::of_player_vertex(Player::White, at(0, 0));
    assert_eq!(m.raw(), 1 + 2 * 22);
    assert_eq!(Move::of_raw(45), m);
}

#[test]
fn chain_moments() {
    let mut chain = Chain::default();
    assert!(chain.is_captured());
    chain.add_lib(at(0, 0));
    assert_eq!((chain.lib_cnt, chain.lib_sum, chain.lib_sum2), (1, 22, 484));
    assert!(chain.is_in_atari());
    chain.add_lib(at(0, 0));
    assert!(chain.is_in_atari());
    chain.add_lib(at(0, 1));
    assert_eq!((chain.lib_cnt, chain.lib_sum, chain.lib_sum2), (3, 67, 484 + 484 + 529));
    assert!(!chain.is_in_atari());
    chain.sub_lib(at(0, 1));
    assert!(chain.is_in_atari());
    chain.sub_lib(at(0, 0));
    chain.sub_lib(at(0, 0));
    assert!(chain.is_captured());
    // Below zero and back.
    chain.sub_lib(at(8, 8));
    assert_eq!(chain.lib_cnt, u32::MAX);
    chain.add_lib(at(8, 8));
    assert_eq!((chain.lib_cnt, chain.lib_sum, chain.lib_sum2), (0, 0, 0));
    let mut other = Chain::default();
    other.reset_off_board();
    assert_eq!((other.lib_cnt, other.lib_sum, other.lib_sum2, other.size), (2, 1, 1, 100));
    assert!(!other.is_captured());
    assert!(!other.is_in_atari());
    chain.size = 3;
    chain.merge(&other);
    assert_eq!((chain.lib_cnt, chain.lib_sum, chain.lib_sum2, chain.size), (2, 1, 1, 103));
    chain.reset();
    assert_eq!(chain.size, 0);
    assert_eq!(chain.atari_vertex(), Vertex::none());
}

#[test]
fn neighbor_counter() {
    let mut n = NbrCounter::empty();
    assert_eq!(n.empty_cnt(), 4);
    assert_eq!(n.player_cnt(Player::Black), 0);
    n.player_inc(Player::Black);
    n.player_inc(Player::White);
    n.off_board_inc();
    assert_eq!(n.empty_cnt(), 1);
    assert_eq!(n.player_cnt(Player::Black), 2);
    assert_eq!(n.player_cnt(Player::White), 2);
    assert!(!n.player_cnt_is_max(Player::Black));
    n.player_dec(Player::White);
    n.player_inc(Player::Black);
    n.player_inc(Player::Black);
    assert_eq!(n.player_cnt(Player::Black), 4);
    assert_eq!(n.player_cnt(Player::White), 1);
    assert_eq!(n.empty_cnt(), 0);
    assert!(n.player_cnt_is_max(Player::Black));
    assert!(!n.player_cnt_is_max(Player::White));
    let m = NbrCounter::of_counts(1, 2, 1);
    assert_eq!(m.player_cnt(Player::Black), 1);
    assert_eq!(m.player_cnt(Player::White), 2);
    assert_eq!(m.empty_cnt(), 1);
}

#[test]
fn maps_and_sets() {
    let mut map: NatMap<2, Player, u32> = NatMap::new();
    assert_eq!(map.get(Player::Black), 0);
    map.set(Player::White, 7);
    assert_eq!(map.get(Player::White), 7);
    assert_eq!(*map.get_ref(Player::White), 7);
    assert_eq!(map.get(Player::Black), 0);
    let copy = map.clone();
    map.set(Player::Black, 1);
    assert_eq!(copy.get(Player::Black), 0);
    let filled: NatMap<8, Dir, u8> = NatMap::new_with(9);
    assert_eq!(filled.get(Dir::SW), 9);
    let mut set: NatSet<443, Vertex> = NatSet::new();
    assert!(!set.is_marked(at(1, 1)));
    set.mark(at(1, 1));
    assert!(set.is_marked(at(1, 1)));
    assert!(!set.is_marked(at(1, 2)));
    set.clear();
    assert!(!set.is_marked(at(1, 1)));
}

#[test]
fn tables_agree_along_random_games() {
    let mut random = FastRandom::new(2024);
    let mut board = Board::new();
    for _ in 0..12 {
        board.clear();
        let mut passes = 0;
        while passes < 2 && board.move_count() < 400 {
            let pl = board.act_player();
            let mut moves: Vec<Vertex> = Vec::new();
            for i in 0..board.empty_vertex_count() {
                let v = board.empty_vertex(i);
                if board.is_legal(pl, v) && !board.hash3x3_at(v).is_eyelike(pl) {
                    moves.push(v);
                }
            }
            let v = if moves.is_empty() {
                Vertex::pass()
            } else {
                moves[(random.get_next_uint() as usize) % moves.len()]
            };
            passes = if v == Vertex::pass() { passes + 1 } else { 0 };
            let before: Vec<Hash3x3> =
                (0..Vertex::COUNT).map(|i| board.hash3x3_at(Vertex::from_index(i))).collect();
            let empty_before: Vec<bool> = (0..Vertex::COUNT)
                .map(|i| board.color_at(Vertex::from_index(i)) == Color::Empty)
                .collect();
            play(&mut board, pl, v);
            check_tables(&board);
            // Every empty vertex with another fingerprint is on the list.
            let mut listed = vec![false; Vertex::COUNT];
            for i in 0..board.hash3x3_changed_count() {
                let c = board.hash3x3_changed(i);
                assert_eq!(board.color_at(c), Color::Empty);
                assert!(!listed[c.index()]);
                listed[c.index()] = true;
            }
            for i in 0..Vertex::COUNT {
                let u = Vertex::from_index(i);
                if board.color_at(u) == Color::Empty
                    && (!empty_before[i] || board.hash3x3_at(u) != before[i])
                {
                    assert!(listed[i]);
                }
            }
        }
        assert!(board.move_count() > 50);
    }
}

#[test]
fn changed_list_holds_the_liberty_of_a_string_checked_during_a_capture() {
    let mut board = Board::new();
    for row in 0..4 {
        play(&mut board, Player::Black, at(row, 1));
        play(&mut board, Player::White, at(row, 2));
    }
    play(&mut board, Player::White, at(2, 0));
    play(&mut board, Player::White, at(3, 0));
    play(&mut board, Player::White, at(0, 0));
    // The black string has two liberties, (1, 0) and (4, 1).
    let liberty = at(4, 1);
    let before = board.hash3x3_at(liberty);
    play(&mut board, Player::Black, at(1, 0));
    assert_eq!(board.color_at(at(0, 0)), Color::Empty);
    // While the corner stone is taken off, the black string counts (4, 1)
    // alone: the vertex is listed, with the fingerprint that it had.
    assert_eq!(board.hash3x3_at(liberty), before);
    let mut listed = false;
    for i in 0..board.hash3x3_changed_count() {
        listed = listed || board.hash3x3_changed(i) == liberty;
    }
    assert!(listed);
    check_tables(&board);
}

#[test]
fn liberty_that_touches_two_stones_is_counted_twice() {
    let mut board = Board::new();
    play(&mut board, Player::Black, at(0, 0));
    play(&mut board, Player::Black, at(0, 1));
    play(&mut board, Player::Black, at(1, 1));
    // The liberties are (0, 2), (1, 0), (1, 2) and (2, 1); (1, 0) touches the
    // stones on (0, 0) and on (1, 1).
    let record = board.chain_at(board.chain_id_at(at(0, 0)));
    let ids: Vec<u32> = [at(0, 2), at(1, 0), at(1, 0), at(1, 2), at(2, 1)]
        .iter()
        .map(|v| v.index() as u32)
        .collect();
    assert_eq!(record.size, 3);
    assert_eq!(record.lib_cnt, 5);
    assert_eq!(record.lib_sum, ids.iter().sum::<u32>());
    assert_eq!(record.lib_sum2, ids.iter().map(|i| i * i).sum::<u32>());
    assert!(!record.is_in_atari());
    check_tables(&board);
}
