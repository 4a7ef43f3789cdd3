use neural::ttt::board::Board;
use neural::ttt::game::Game;
use neural::ttt::state::State;
use neural::ttt::tile::Tile;

#[test]
fn tile_to_string_shows_its_symbol() {
    assert_eq!(Tile::Cross.to_string(), "X");
    assert_eq!(Tile::Naught.to_string(), "O");
    assert_eq!(Tile::Empty.to_string(), " ");
}

#[test]
fn default_board_is_clear() {
    let board = Board::default();
    assert_eq!(board.tiles, [Tile::Empty; 9]);
}

#[test]
fn initialize_clears_board_and_restarts() {
    let mut tiles = [Tile::Empty; 9];
    tiles[4] = Tile::Cross;
    tiles[0] = Tile::Naught;
    let game = Game { board: Board { tiles }, state: State::Won };
    let game = game.initialize();
    assert_eq!(game.board, Board::default());
    assert_eq!(game.state, State::InProgress);
}
