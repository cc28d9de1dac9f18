use slate::sleep::Sleep;
use slate::sudoku::Solution;
use slate::vga::Color;
use slate::vga::ColorCode;

const SOLVED: &str = "534678912\n672195348\n198342567\n859761423\n426853791\n713924856\n961537284\n287419635\n345286179";

#[test]
fn loading_reads_digits_and_blanks() {
    let s = Solution::load_string("123456789\n_________\n1_3_5_7_9");
    for x in 0..9 {
        assert_eq!(s.get(x, 0), x as u8);
        assert_eq!(s.get(x, 1), 9);
    }
    assert_eq!(s.get(0, 2), 0);
    assert_eq!(s.get(1, 2), 9);
    assert_eq!(s.get(2, 2), 2);
    // Rows without lines stay empty.
    assert_eq!(s.get(4, 7), 9);
}

#[test]
fn zero_and_underscore_both_mean_empty() {
    let s = Solution::load_string("0_0_0_0_0\n_0_0_0_0_");
    for x in 0..9 {
        assert_eq!(s.get(x, 0), 9);
        assert_eq!(s.get(x, 1), 9);
    }
}

#[test]
fn short_lines_and_trailing_blank_lines_are_fine() {
    let s = Solution::load_string("12\n\n9\n\n\n\n\n\n\n \t\r\n  ");
    assert_eq!(s.get(0, 0), 0);
    assert_eq!(s.get(1, 0), 1);
    assert_eq!(s.get(2, 0), 9);
    assert_eq!(s.get(0, 1), 9);
    assert_eq!(s.get(0, 2), 8);
}

#[test]
fn set_get_and_undo_round_trip() {
    let mut s = Solution::load_string("");
    s.set(2, 3, 5);
    s.set(4, 4, 0);
    s.set(8, 8, 8);
    assert_eq!(s.get(2, 3), 5);
    assert_eq!(s.get(4, 4), 0);
    assert_eq!(s.get(8, 8), 8);
    s.undo(&[(2, 3), (4, 4), (8, 8)]);
    assert_eq!(s.get(2, 3), 9);
    assert_eq!(s.get(4, 4), 9);
    assert_eq!(s.get(8, 8), 9);
}

#[test]
fn solved_means_no_empty_cell() {
    let mut s = Solution::load_string("");
    assert!(!s.solved());
    for y in 0..9 {
        for x in 0..9 {
            s.set(x, y, ((x + y) % 9) as u8);
        }
    }
    assert!(s.solved());
    s.set(0, 0, 9);
    assert!(!s.solved());
}

#[test]
fn a_complete_valid_board_passes_validation() {
    let s = Solution::load_string(SOLVED);
    assert!(s.is_valid());
    assert!(s.solved());
}

#[test]
fn duplicate_in_a_row_is_invalid() {
    let s = Solution::load_string("11_______");
    assert!(!s.is_valid());
}

#[test]
fn duplicate_in_a_column_is_invalid() {
    let s = Solution::load_string("5________\n_________\n_________\n5________");
    assert!(!s.is_valid());
}

#[test]
fn duplicate_in_a_box_is_invalid() {
    let s = Solution::load_string("7________\n_________\n__7______");
    assert!(!s.is_valid());
}

#[test]
fn an_empty_board_is_valid() {
    let s = Solution::load_string("");
    assert!(s.is_valid());
}

#[test]
fn setting_and_reverting_keeps_validity_checks_honest() {
    let mut s = Solution::load_string(SOLVED);
    assert!(s.is_valid());
    // Introduce a row conflict, then revert it.
    s.set(0, 0, s.get(1, 0));
    assert!(!s.is_valid());
    s.set(0, 0, 4);
    assert!(s.is_valid());
}

#[test]
fn sleep_is_ready_once_the_duration_elapsed() {
    let sleep = Sleep::new(1000, 50);
    assert!(!sleep.poll(1000));
    assert!(!sleep.poll(1049));
    assert!(sleep.poll(1050));
    assert!(sleep.poll(2000));
    // A clock reading before the start counts as nothing elapsed.
    assert!(!sleep.poll(999));
}

#[test]
fn zero_duration_sleep_is_immediately_ready() {
    let sleep = Sleep::new(500, 0);
    assert!(sleep.poll(500));
    assert!(sleep.poll(499));
}

#[test]
fn color_codes_pack_background_high_and_foreground_low() {
    assert_eq!(ColorCode::new(Color::Yellow, Color::Black).to_byte(), 14);
    assert_eq!(ColorCode::new(Color::Red, Color::Yellow).to_byte(), 14 * 16 + 4);
    assert_eq!(ColorCode::new(Color::White, Color::White).to_byte(), 255);
    assert_eq!(ColorCode::new(Color::Black, Color::Black).to_byte(), 0);
}

#[test]
fn boards_compare_by_grid_alone() {
    let a = Solution::load_string("53__7____\n6__195___");
    let b = Solution::load_string("53__7____\n6__195___");
    assert!(a == b);
    let mut c = b.clone();
    c.set(8, 8, 3);
    assert!(a != c);
    c.set(8, 8, 9);
    assert!(a == c);
}
