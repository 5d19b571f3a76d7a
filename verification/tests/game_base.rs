use acquire_rs::game::base::{Board, Card, Piece};

#[test]
fn test_board_new() {
    let board = Board::new((2, 4)).unwrap();
    assert_eq!(board.pieces[0][0], Piece { placed: false, chain: None });
    assert_eq!(board.pieces[1][0], Piece { placed: false, chain: None });
    assert_eq!(board.pieces[2][0], Piece { placed: false, chain: None });
    assert_eq!(board.pieces[3][0], Piece { placed: false, chain: None });
    assert_eq!(board.pieces[0][1], Piece { placed: false, chain: None });
    assert_eq!(board.pieces[1][1], Piece { placed: false, chain: None });
    assert_eq!(board.pieces[2][1], Piece { placed: false, chain: None });
    assert_eq!(board.pieces[3][1], Piece { placed: false, chain: None });
    assert_eq!(board.pieces.get(4), None);
    assert_eq!(board.pieces[0].get(2), None);
}

#[test]
fn test_board_default() {
    let board = Board::default();
    assert_eq!(board.pieces[0][0], Piece { placed: false, chain: None });
    assert_eq!(board.pieces[11][8], Piece { placed: false, chain: None });
    assert_eq!(board.pieces.get(12), None);
    assert_eq!(board.pieces[11].get(9), None);
}

#[test]
fn test_card_to_vec_coordinates() {
    assert_eq!(Card { num: 1, letter: 'A' }.to_vec_coordinates(), (0, 0));
    assert_eq!(Card { num: 5, letter: 'B' }.to_vec_coordinates(), (4, 1));
    assert_eq!(Card { num: 20, letter: 'Z' }.to_vec_coordinates(), (19, 25));
}
