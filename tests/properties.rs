use sudoku::{board_from_string, Board, Field};

const NORMAL: &str = "..4..5.2..52.3684..16.82...2...5.4......1.73.641.....8...8....712......47.....1.9";

const SOLVED: &str = "926345718541872396738691425852937164694128537173564982387416259269753841415289673";

fn digits(board: &Board) -> Vec<u8> {
    board.fields().iter().map(|x| match x {
        Field::Options(_) => 0,
        Field::Value(v) => *v,
    }).collect()
}

fn snapshot(board: &Board) -> Vec<String> {
    board.fields().iter().map(|x| format!("{:?}", x)).collect()
}

fn candidates(f: &Field) -> Vec<u8> {
    match f {
        Field::Options(o) => o.clone(),
        Field::Value(_) => Vec::new(),
    }
}

#[test]
fn field_starts_with_every_digit() {
    let f = Field::with_all_options();
    assert_eq!(candidates(&f), vec![1, 2, 3, 4, 5, 6, 7, 8, 9]);
}

#[test]
fn field_set_places_digit() {
    let mut f = Field::with_all_options();
    f.set(7);
    assert!(matches!(f, Field::Value(7)));
}

#[test]
fn field_remove_option_strikes_one_digit() {
    let mut f = Field::with_all_options();
    f.remove_option(4);
    assert_eq!(candidates(&f), vec![1, 2, 3, 5, 6, 7, 8, 9]);
    f.remove_option(4);
    assert_eq!(candidates(&f), vec![1, 2, 3, 5, 6, 7, 8, 9]);
}

#[test]
fn field_remove_option_leaves_value() {
    let mut f = Field::Value(3);
    f.remove_option(3);
    assert!(matches!(f, Field::Value(3)));
}

#[test]
fn set_strikes_digit_from_neighbours_only() {
    let mut board = Board::new();
    board.set((4, 4), 5);
    assert!(matches!(board.field((4, 4)), Field::Value(5)));
    for (r, c) in Board::neighbours((4, 4)) {
        assert!(!candidates(board.field((r, c))).contains(&5));
        assert_eq!(candidates(board.field((r, c))).len(), 8);
    }
    assert_eq!(candidates(board.field((0, 0))), vec![1, 2, 3, 4, 5, 6, 7, 8, 9]);
    assert_eq!(candidates(board.field((3, 0))), vec![1, 2, 3, 4, 5, 6, 7, 8, 9]);
}

#[test]
fn fill_skips_values_out_of_range() {
    let mut board = Board::new();
    board.fill(&[Some(0), Some(10), None, Some(9)]);
    assert_eq!(candidates(board.field((0, 0))).len(), 8);
    assert_eq!(candidates(board.field((0, 1))).len(), 8);
    assert!(matches!(board.field((0, 3)), Field::Value(9)));
}

#[test]
fn fill_takes_at_most_81_entries() {
    let mut clues = vec![None; 81];
    clues.push(Some(1));
    let mut board = Board::new();
    board.fill(&clues);
    assert!(board.fields().iter().all(|f| candidates(f).len() == 9));
}

#[test]
fn text_ignores_zero_and_short_input() {
    let board = board_from_string("0 1");
    assert_eq!(candidates(board.field((0, 0))).len(), 8);
    assert!(matches!(board.field((0, 1)), Field::Value(1)));
    assert_eq!(candidates(board.field((0, 2))).len(), 8);
    assert_eq!(candidates(board.field((5, 5))).len(), 9);
}

#[test]
fn neighbours_of_every_position() {
    for row in 0..9 {
        for col in 0..9 {
            let n = Board::neighbours((row, col));
            assert_eq!(n.len(), 20);
            let mut expected = Vec::new();
            for r in 0..9 {
                for c in 0..9 {
                    let same_box = r / 3 == row / 3 && c / 3 == col / 3;
                    if (r, c) != (row, col) && (r == row || c == col || same_box) {
                        expected.push((r, c));
                    }
                }
            }
            let mut got = n.clone();
            got.sort();
            got.dedup();
            assert_eq!(got, expected);
        }
    }
}

#[test]
fn solve_twice_is_solve_once() {
    for text in [NORMAL, "..8......914536...657..8......2....."] {
        let mut board = board_from_string(text);
        board.solve();
        let once = snapshot(&board);
        board.solve();
        assert_eq!(snapshot(&board), once);
    }
}

#[test]
fn solve_only_narrows_cells() {
    let mut board = board_from_string("..8......914536...657..8......2.....");
    board.set((8, 8), 4);
    let before: Vec<Field> = board.fields().iter().map(|f| match f {
        Field::Value(v) => Field::Value(*v),
        Field::Options(o) => Field::Options(o.clone()),
    }).collect();
    board.solve();
    for (old, new) in before.iter().zip(board.fields()) {
        match (old, new) {
            (Field::Value(a), Field::Value(b)) => assert_eq!(a, b),
            (Field::Value(_), Field::Options(_)) => panic!("a placed digit was lost"),
            (Field::Options(_), Field::Value(_)) => {}
            (Field::Options(a), Field::Options(b)) => assert!(b.iter().all(|x| a.contains(x))),
        }
    }
}

#[test]
fn solved_grid_round_trips() {
    let mut board = board_from_string(SOLVED);
    assert!(board.fields().iter().all(|f| matches!(f, Field::Value(_))));
    let before = digits(&board);
    board.record_steps(true);
    board.solve();
    assert_eq!(digits(&board), before);
    assert_eq!(board.steps().as_ref().map(|s| s.len()), Some(0));
    let text: String = digits(&board).iter().map(|d| char::from(b'0' + d)).collect();
    assert_eq!(text, SOLVED);
}

#[test]
fn solve_published_very_hard() {
    let mut board = board_from_string(
        "92.......5..87.....38.91....5293.16..9.....3..73.6498....41.25.....53..1.......73",
    );
    board.solve();
    let text: String = digits(&board).iter().map(|d| char::from(b'0' + d)).collect();
    assert_eq!(text, SOLVED);
}

#[test]
fn under_constrained_puzzle_stops_unresolved() {
    let mut board = board_from_string("..8......914536...657..8...");
    board.solve();
    assert!(board.fields().iter().any(|f| matches!(f, Field::Options(_))));
}

#[test]
fn recorded_steps_replay_to_the_result() {
    let mut board = board_from_string(NORMAL);
    let open_before = digits(&board).iter().filter(|d| **d == 0).count();
    board.record_steps(true);
    board.solve();
    let open_after = digits(&board).iter().filter(|d| **d == 0).count();
    let steps = board.steps().clone().unwrap();
    assert_eq!(steps.len(), open_before - open_after);

    let mut replay = board_from_string(NORMAL);
    for (idx, val) in steps {
        replay.set((idx as usize / 9, idx as usize % 9), val);
    }
    assert_eq!(digits(&replay), digits(&board));
}

#[test]
fn record_steps_off_drops_history() {
    let mut board = board_from_string(NORMAL);
    board.record_steps(true);
    board.set((0, 0), 8);
    assert_eq!(board.steps().as_ref().map(|s| s.len()), Some(1));
    board.record_steps(false);
    assert!(board.steps().is_none());
    board.record_steps(true);
    assert_eq!(board.steps().as_ref().map(|s| s.len()), Some(0));
}

#[test]
fn default_board_is_empty() {
    let board = Board::default();
    assert_eq!(board.fields().len(), 81);
    assert!(board.fields().iter().all(|f| candidates(f).len() == 9));
    assert!(board.steps().is_none());
}

#[test]
fn solving_an_empty_board_changes_nothing() {
    let mut board = Board::new();
    let before = snapshot(&board);
    board.solve();
    assert_eq!(snapshot(&board), before);
}

#[test]
fn text_skips_unicode_white_space_only() {
    let board = board_from_string("\u{3000}1\u{00a0}\u{200b}2");
    assert!(matches!(board.field((0, 0)), Field::Value(1)));
    assert!(matches!(board.field((0, 1)), Field::Options(_)));
    assert!(matches!(board.field((0, 2)), Field::Value(2)));
}

#[test]
fn sole_candidates_are_all_placed_even_when_they_clash() {
    let mut board = board_from_string("..1234678");
    board.set((3, 0), 9);
    board.set((6, 1), 9);
    board.record_steps(true);
    board.solve();
    assert!(matches!(board.field((0, 0)), Field::Value(5)));
    assert!(matches!(board.field((0, 1)), Field::Value(5)));
    let steps = board.steps().clone().unwrap();
    assert_eq!(&steps[..2], &[(0u8, 5u8), (1u8, 5u8)]);
}
