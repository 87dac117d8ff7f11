use sudoku::{board_from_string, Board, Field};

fn to_num_vec(board: &Board) -> Vec<u8> {
    board.fields().iter().map(|x| match x {
        Field::Options(_) => 0,
        Field::Value(v) => *v,
    }).collect::<Vec<_>>()
}

fn to_string(board: &Board) -> String {
    board.fields().iter().map(|x| match x {
        Field::Options(_) => '_',
        Field::Value(v) => (v + 0x30).into(),
    }).collect::<String>()
}

const TEST_BOARD: &str =
    "92_______\
     5__87____\
     _38_91___\
     _5293_16_\
     _9_____3_\
     _73_6498_\
     ___41_25_\
     ____53__1\
     _______73";

#[test]
fn fill_board_simple() {
    let board = board_from_string(TEST_BOARD);

    assert_eq!(to_string(&board), TEST_BOARD);
}

#[test]
fn fill_board_placeholder_x() {
    let board = board_from_string(
        "92xxxxxxx\
         5xx87xxxx\
         x38x91xxx\
         x5293x16x\
         x9xxxxx3x\
         x73x6498x\
         xxx41x25x\
         xxxx53xx1\
         xxxxxxx73"
    );

    assert_eq!(to_string(&board), TEST_BOARD);
}

#[test]
fn fill_board_newline() {
    let board = board_from_string(
        "92_______\n\
         5__87____\n\
         _38_91___\n\
         _5293_16_\n\
         _9_____3_\n\
         _73_6498_\n\
         ___41_25_\n\
         ____53__1\n\
         _______73\n"
    );

    assert_eq!(to_string(&board), TEST_BOARD);
}

#[test]
fn fill_board_spaces() {
    let board = board_from_string(
        "92_ ___\t___
         5__ 87_\t___
         _38 _91\t___
         _52 93_\t16_
         _9_ ___\t_3_
         _73 _64\t98_
         ___ 41_\t25_
         ___ _53\t__1
         ___ ___\t_73"
    );

    assert_eq!(to_string(&board), TEST_BOARD);
}

#[test]
fn fill_board_spaces_newline() {
    let board = board_from_string(
        "92_ ___\t___\n
         5__ 87_\t___\n
         _38 _91\t___\n
         \n
         _52 93_\t16_\n
         _9_ ___\t_3_\n
         _73 _64\t98_\n
         \n
         ___ 41_\t25_\n
         ___ _53\t__1\n
         ___ ___\t_73\n"
    );

    assert_eq!(to_string(&board), TEST_BOARD);
}

#[test]
fn neighbours_0_0() {
    assert_eq!(
        Board::neighbours((0, 0)),
        vec![
            (0, 1), (0, 2), (0, 3), (0, 4), (0, 5), (0, 6), (0, 7), (0, 8),
            (1, 0), (2, 0), (3, 0), (4, 0), (5, 0), (6, 0), (7, 0), (8, 0),
            (1, 1), (1, 2), (2, 1), (2, 2),
        ]
    );
}

#[test]
fn neighbours_1_1() {
    assert_eq!(
        Board::neighbours((1, 1)),
        vec![
            (1, 0), (1, 2), (1, 3), (1, 4), (1, 5), (1, 6), (1, 7), (1, 8),
            (0, 1), (2, 1), (3, 1), (4, 1), (5, 1), (6, 1), (7, 1), (8, 1),
            (0, 0), (0, 2), (2, 0), (2, 2),
        ]
    );
}

#[test]
fn neighbours_5_5() {
    assert_eq!(
        Board::neighbours((5, 5)),
        vec![
            (5, 0), (5, 1), (5, 2), (5, 3), (5, 4), (5, 6), (5, 7), (5, 8),
            (0, 5), (1, 5), (2, 5), (3, 5), (4, 5), (6, 5), (7, 5), (8, 5),
            (3, 3), (3, 4), (4, 3), (4, 4),
        ]
    );
}

#[test]
fn neighbours_6_2() {
    assert_eq!(
        Board::neighbours((6, 2)),
        vec![
            (6, 0), (6, 1), (6, 3), (6, 4), (6, 5), (6, 6), (6, 7), (6, 8),
            (0, 2), (1, 2), (2, 2), (3, 2), (4, 2), (5, 2), (7, 2), (8, 2),
            (7, 0), (7, 1), (8, 0), (8, 1),
        ]
    );
}

#[test]
fn solve_hard() {
    // https://sudoku.tagesspiegel.de/sudoku-sehr-schwer/
    let mut board = board_from_string(
        "92.   ...   ...\
         5..   87.   ...\
         .38   .91   ...\

         .52   93.   16.\
         .9.   ...   .3.\
         .73   .64   98.\

         ...   41.   25.\
         ...   .53   ..1\
         ...   ...   .73"
    );
    board.solve();

    assert_eq!(
        to_num_vec(&board),
        vec![
            9, 2, 6,    3, 4, 5,    7, 1, 8,
            5, 4, 1,    8, 7, 2,    3, 9, 6,
            7, 3, 8,    6, 9, 1,    4, 2, 5,

            8, 5, 2,    9, 3, 7,    1, 6, 4,
            6, 9, 4,    1, 2, 8,    5, 3, 7,
            1, 7, 3,    5, 6, 4,    9, 8, 2,

            3, 8, 7,    4, 1, 6,    2, 5, 9,
            2, 6, 9,    7, 5, 3,    8, 4, 1,
            4, 1, 5,    2, 8, 9,    6, 7, 3,
        ]
    );
}

#[test]
fn solve_normal() {
    // https://sudoku.tagesspiegel.de/
    let mut board = board_from_string(
        "..4   ..5  .2.\
         .52   .36  84.\
         .16   .82  ...\

         2..   .5.  4..\
         ...   .1.  73.\
         641   ...  ..8\

         ...   8..  ..7\
         12.   ...  ..4\
         7..   ...  1.9"
    );
    board.solve();

    assert_eq!(
        to_num_vec(&board),
        vec![
            8, 7, 4,    1, 9, 5,    6, 2, 3,
            9, 5, 2,    7, 3, 6,    8, 4, 1,
            3, 1, 6,    4, 8, 2,    9, 7, 5,

            2, 3, 7,    9, 5, 8,    4, 1, 6,
            5, 8, 9,    6, 1, 4,    7, 3, 2,
            6, 4, 1,    3, 2, 7,    5, 9, 8,

            4, 9, 3,    8, 6, 1,    2, 5, 7,
            1, 2, 8,    5, 7, 9,    3, 6, 4,
            7, 6, 5,    2, 4, 3,    1, 8, 9,
        ]
    );
}

#[test]
fn solve_by_neighbourhood() {
    let mut board = board_from_string(
        "..8   ...   ...\
         914   536   ...\
         657   ..8   ...\

         ...   2..   ...\
         ...   ...   ...\
         ...   ...   ..."
    );
    board.solve();

    // because you know 2 must be on L1C1 or L1C2 it can not be on L1C4
    // and hence, must be on L3C4

    assert_eq!(
        to_num_vec(&board),
        vec![
            0, 0, 8,   0, 0, 0,   0, 0, 0,
            9, 1, 4,   5, 3, 6,   0, 0, 0,
            6, 5, 7,   0, 2, 8,   0, 0, 0,

            0, 0, 0,   2, 0, 0,   0, 0, 0,
            0, 0, 0,   0, 0, 0,   0, 0, 0,
            0, 0, 0,   0, 0, 0,   0, 0, 0,

            0, 0, 0,   0, 0, 0,   0, 0, 0,
            0, 0, 0,   0, 0, 0,   0, 0, 0,
            0, 0, 0,   0, 0, 0,   0, 0, 0,
        ]
    );
}

