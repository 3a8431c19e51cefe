use dentaku::buffer::Dentaku;

fn text(v: &[char]) -> String {
    v.iter().collect()
}

fn with_line(s: &str) -> Dentaku {
    let mut d = Dentaku::default();
    for c in s.chars() {
        d.insert(c);
    }
    d
}

#[test]
fn initial_state() {
    let d = Dentaku::default();
    assert_eq!(d.buffer.len(), 1);
    assert!(d.buffer[0].is_empty());
    assert_eq!(d.cursor.row, 0);
    assert_eq!(d.cursor.column, 0);
    assert_eq!(d.row_offset, 0);
}

#[test]
fn inserting_grows_line_and_advances_cursor() {
    let mut d = Dentaku::default();
    d.insert('a');
    assert_eq!(d.buffer[0].len(), 1);
    assert_eq!(d.cursor.column, 1);
    d.insert('b');
    assert_eq!(text(&d.buffer[0]), "ab");
    assert_eq!(d.cursor.column, 2);
    assert_eq!(d.cursor.row, 0);
    assert_eq!(d.buffer.len(), 1);
}

#[test]
fn inserting_mid_line_splices() {
    let mut d = with_line("ac");
    d.cursor_left();
    d.insert('b');
    assert_eq!(text(&d.buffer[0]), "abc");
    assert_eq!(d.cursor.column, 2);
}

#[test]
fn control_characters_are_ignored() {
    let mut d = with_line("xy");
    d.insert('\t');
    d.insert('\u{7}');
    assert_eq!(text(&d.buffer[0]), "xy");
    assert_eq!(d.cursor.column, 2);
    assert_eq!(d.buffer.len(), 1);
}

#[test]
fn evaluation_inserts_result_and_blank_line() {
    let mut d = with_line("1+2");
    d.insert('\n');
    assert_eq!(d.buffer.len(), 3);
    assert_eq!(text(&d.buffer[0]), "1+2");
    assert_eq!(text(&d.buffer[1]), "3");
    assert!(d.buffer[2].is_empty());
    assert_eq!(d.cursor.row, 2);
    assert_eq!(d.cursor.column, 0);
}

#[test]
fn evaluation_of_invalid_line_inserts_failure_text() {
    let mut d = with_line("1++2");
    d.insert('\n');
    assert_eq!(text(&d.buffer[1]), "I cant calcurate");
    assert!(d.buffer[2].is_empty());
    assert_eq!(d.cursor.row, 2);
    assert_eq!(d.cursor.column, 0);
}

#[test]
fn evaluation_keeps_lines_below_the_current_one() {
    let mut d = with_line("8-3");
    d.insert('\n');
    for c in "4+4".chars() {
        d.insert(c);
    }
    d.insert('\n');
    let lines: Vec<String> = d.buffer.iter().map(|l| text(l)).collect();
    assert_eq!(lines, vec!["8-3", "5", "4+4", "8", ""]);
    assert_eq!(d.cursor.row, 4);
}

#[test]
fn round_trip_through_the_buffer() {
    let mut d = with_line("19-7+3");
    d.insert('\n');
    let shown = d.buffer[1].clone();
    let mut again = Dentaku::default();
    for c in shown.iter() {
        again.insert(*c);
    }
    again.insert('\n');
    assert_eq!(text(&again.buffer[1]), "15");
    assert_eq!(text(&d.buffer[1]), "15");
}

#[test]
fn backspace_removes_before_cursor() {
    let mut d = with_line("abc");
    d.back_space();
    assert_eq!(text(&d.buffer[0]), "ab");
    assert_eq!(d.cursor.column, 2);
}

#[test]
fn backspace_at_column_zero_does_nothing() {
    let mut d = with_line("ab");
    d.insert('\n');
    assert_eq!(d.cursor.column, 0);
    d.back_space();
    assert_eq!(d.buffer.len(), 3);
    assert_eq!(text(&d.buffer[0]), "ab");
    assert_eq!(d.cursor.row, 2);
    assert_eq!(d.cursor.column, 0);
}

#[test]
fn backspace_is_safe_down_to_column_zero() {
    let mut d = with_line("abc");
    for _ in 0..5 {
        d.back_space();
    }
    assert!(d.buffer[0].is_empty());
    assert_eq!(d.cursor.column, 0);
    assert_eq!(d.buffer.len(), 1);
}

#[test]
fn cursor_left_stops_at_column_one() {
    let mut d = with_line("abc");
    d.cursor_left();
    d.cursor_left();
    assert_eq!(d.cursor.column, 1);
    d.cursor_left();
    assert_eq!(d.cursor.column, 1);
}

#[test]
fn cursor_right_clamps_to_line_length() {
    let mut d = with_line("ab");
    d.cursor_right();
    assert_eq!(d.cursor.column, 2);
    d.cursor_right();
    assert_eq!(d.cursor.column, 2);
    d.cursor_left();
    d.cursor_right();
    assert_eq!(d.cursor.column, 2);
}

#[test]
fn scroll_moves_window_down_to_cursor() {
    let mut d = Dentaku::default();
    for _ in 0..6 {
        d.insert('\n');
    }
    assert_eq!(d.cursor.row, 12);
    d.scroll(5);
    assert_eq!(d.row_offset, 8);
    assert!(d.row_offset <= d.cursor.row);
    assert!(d.cursor.row < d.row_offset + 5);
}

#[test]
fn scroll_moves_window_up_to_cursor() {
    let mut d = Dentaku::default();
    for _ in 0..4 {
        d.insert('\n');
    }
    d.row_offset = 8;
    d.cursor.row = 2;
    d.cursor.column = 0;
    d.scroll(5);
    assert_eq!(d.row_offset, 2);
    assert!(d.row_offset <= d.cursor.row);
    assert!(d.cursor.row < d.row_offset + 5);
}

#[test]
fn scroll_keeps_cursor_in_window_for_many_heights() {
    for rows in 1..8usize {
        let mut d = Dentaku::default();
        for _ in 0..5 {
            d.insert('\n');
        }
        d.scroll(rows);
        assert!(d.row_offset <= d.cursor.row);
        assert!(d.cursor.row < d.row_offset + rows);
    }
}

#[test]
fn scroll_with_one_row_window() {
    let mut d = Dentaku::default();
    d.insert('\n');
    d.scroll(1);
    assert_eq!(d.row_offset, d.cursor.row);
}
