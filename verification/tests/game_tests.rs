use ai_2048::game::Game;
use ai_2048::game::Move;

#[test]
fn set_state_and_tile() {
    let mut game = Game::empty();
    assert_eq!(game.get_tile(0, 0), 0);

    game.set_state([
        0x12, 0x34, 0x56, 0x78, 0x9a, 0xbc, 0xde, 0xf0, 0x12, 0x34, 0x56, 0x78, 0x9a, 0xbc, 0xde,
        0xf0,
    ]);

    assert_eq!(game.get_tile(0, 0), 0x12);
    assert_eq!(game.get_tile(1, 0), 0x34);
    assert_eq!(game.get_tile(2, 0), 0x56);
    assert_eq!(game.get_tile(3, 0), 0x78);
    assert_eq!(game.get_tile(0, 1), 0x9a);

    game.set_tile(0, 1, 0x00);
    assert_eq!(game.get_tile(0, 1), 0x00);
}

#[test]
fn test_shift() {
    let mut game = Game::empty();

    game.set_tile(0, 0, 1);
    game.set_tile(1, 0, 1);

    game.shift(Move::Right);

    assert_eq!(game.get_tile(0, 0), 0);
    assert_eq!(game.get_tile(1, 0), 0);
    assert_eq!(game.get_tile(2, 0), 0);
    assert_eq!(game.get_tile(3, 0), 2);

    game.shift(Move::Left);

    assert_eq!(game.get_tile(0, 0), 2);

    game.shift(Move::Down);

    assert_eq!(game.get_tile(0, 3), 2);
}

#[test]
fn test_merge_duplicates() {
    let mut game = Game::default();
    let v = [1, 1, 2, 2];
    assert_eq!(game.merge_duplicates(&v, true), [2, 3, 0, 0]);
    assert_eq!(game.get_score(), &12);
    let v = [1, 2, 2, 2];
    assert_eq!(game.merge_duplicates(&v, true), [1, 3, 2, 0]);
    assert_eq!(game.get_score(), &(12 + 8));
    let v = [1, 1, 1, 1];
    assert_eq!(game.merge_duplicates(&v, true), [2, 2, 0, 0]);
    assert_eq!(game.get_score(), &(12 + 8 + 8));
    let v = [1, 2, 2, 6];
    assert_eq!(game.merge_duplicates(&v, true), [1, 3, 6, 0]);
}

#[test]
fn test_condensed_getters() {
    let mut game = Game::empty();

    game.set_tile(0, 0, 1);
    game.set_tile(1, 0, 1);
    game.set_tile(0, 3, 2);

    let condensed_rows = game.get_condensed_rows();
    let condensed_cols = game.get_condensed_cols();

    assert_eq!(condensed_rows[0], [1, 1, 0, 0]);
    assert_eq!(condensed_rows[3], [2, 0, 0, 0]);
    assert_eq!(condensed_cols[0], [1, 2, 0, 0]);
    assert_eq!(condensed_cols[1], [1, 0, 0, 0]);
}
