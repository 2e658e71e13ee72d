use go_game_board::types::{
    color_is_player, color_to_player, Color, Nat, Player, Vertex, MAX_BOARD_SIZE,
};
use std::convert::TryFrom;

// The library's players, colors and vertices are those of `go_game_types`,
// number for number: every function is held against the shared crate on
// every value.

#[test]
fn vertices_agree_with_the_shared_types() {
    assert_eq!(Vertex::COUNT, go_game_types::Vertex::COUNT);
    assert_eq!(Vertex::COUNT_ON_BOARD, go_game_types::Vertex::COUNT_ON_BOARD);
    assert_eq!(Vertex::ROW_SIZE, go_game_types::Vertex::ROW_SIZE);
    assert_eq!(MAX_BOARD_SIZE, go_game_types::MAX_GOBAN_SIZE);
    assert_eq!(Vertex::pass().index(), usize::from(go_game_types::Vertex::pass()));
    assert_eq!(Vertex::none().index(), usize::from(go_game_types::Vertex::none()));
    for raw in 0..Vertex::COUNT {
        let v = Vertex::from_index(raw);
        let shared = go_game_types::Vertex::from(raw);
        assert_eq!(v.index(), usize::from(shared));
        assert_eq!(v.row(), shared.row());
        assert_eq!(v.column(), shared.column());
        if raw >= 21 {
            assert_eq!(v.up().index(), usize::from(shared.up()));
        }
        if raw + 21 < Vertex::COUNT {
            assert_eq!(v.down().index(), usize::from(shared.down()));
        }
        if raw >= 1 {
            assert_eq!(v.left().index(), usize::from(shared.left()));
        }
        if raw + 1 < Vertex::COUNT {
            assert_eq!(v.right().index(), usize::from(shared.right()));
        }
    }
    for row in -1..20 {
        for column in -1..20 {
            let v = Vertex::from_coords(row, column);
            let shared = go_game_types::Vertex::from_coords(row, column);
            assert_eq!(v.index(), usize::from(shared));
        }
    }
}

#[test]
fn players_and_colors_agree_with_the_shared_types() {
    assert_eq!(Player::COUNT, go_game_types::Player::COUNT);
    assert_eq!(Color::COUNT, go_game_types::Color::COUNT);
    for raw in 0..Player::COUNT {
        let p = Player::of_raw(raw);
        let shared = go_game_types::Player::from(raw);
        assert_eq!(p.raw(), usize::from(shared));
        assert_eq!(p.opponent().raw(), usize::from(shared.opponent()));
        assert_eq!(Color::from(p).raw(), usize::from(go_game_types::Color::from(shared)));
    }
    for raw in 0..Color::COUNT {
        let c = Color::of_raw(raw);
        let shared = go_game_types::Color::from(raw);
        assert_eq!(c.raw(), usize::from(shared));
        let as_player = go_game_types::Player::try_from(shared);
        assert_eq!(color_is_player(c), as_player.is_ok());
        if let Ok(p) = as_player {
            assert_eq!(color_to_player(c).raw(), usize::from(p));
        }
    }
}
