use dentaku::buffer::{Cursor, Dentaku};

fn text(v: &[char]) -> String {
    v.iter().collect()
}

fn with_line(s: &str) -> Dentaku {
    let mut d = Dentaku::default();
    for c in s.chars() {
        d.insert(c);
    }
    d
}

fn rows_text(d: &Dentaku, rows: usize, cols: usize) -> Vec<String> {
    d.render(rows, cols).rows.iter().map(|r| text(r)).collect()
}

#[test]
fn short_line_renders_as_one_row() {
    let d = with_line("abc");
    assert_eq!(rows_text(&d, 10, 8), vec!["abc"]);
    let f = d.render(10, 8);
    assert_eq!(f.cursor, Some(Cursor { row: 0, column: 3 }));
}

#[test]
fn line_exactly_as_wide_as_the_grid_wraps() {
    let d = with_line("abcd");
    assert_eq!(rows_text(&d, 10, 4), vec!["abcd", ""]);
    // the position after the last character is the start of the second row
    let f = d.render(10, 4);
    assert_eq!(f.cursor, Some(Cursor { row: 1, column: 0 }));
}

#[test]
fn long_line_wraps_without_losing_characters() {
    let d = with_line("abcdefghij");
    let rows = rows_text(&d, 10, 4);
    assert_eq!(rows, vec!["abcd", "efgh", "ij"]);
    assert_eq!(rows.concat(), "abcdefghij");
    let f = d.render(10, 4);
    assert_eq!(f.cursor, Some(Cursor { row: 2, column: 2 }));
}

#[test]
fn several_lines_render_in_order() {
    let mut d = with_line("1+1");
    d.insert('\n');
    assert_eq!(rows_text(&d, 10, 8), vec!["1+1", "2", ""]);
}

#[test]
fn rendering_stops_at_the_window_height() {
    let mut d = with_line("1+1");
    d.insert('\n');
    assert_eq!(rows_text(&d, 2, 8), vec!["1+1", "2"]);
}

#[test]
fn rendering_starts_at_the_row_offset() {
    let mut d = with_line("1+1");
    d.insert('\n');
    d.scroll(2);
    assert_eq!(d.row_offset, 1);
    assert_eq!(rows_text(&d, 2, 8), vec!["2", ""]);
    let f = d.render(2, 8);
    assert_eq!(f.cursor, Some(Cursor { row: 1, column: 0 }));
}

#[test]
fn cursor_above_the_window_is_off_screen() {
    let mut d = with_line("ab");
    d.row_offset = 1;
    let f = d.render(5, 8);
    assert_eq!(f.cursor, None);
    assert!(f.rows.is_empty());
}

#[test]
fn cursor_below_the_window_is_off_screen() {
    let mut d = with_line("1+1");
    d.insert('\n');
    let f = d.render(2, 8);
    assert_eq!(f.cursor, None);
}

#[test]
fn wrapped_cursor_column_is_the_remainder() {
    let d = with_line("abcdef");
    let f = d.render(10, 4);
    assert_eq!(f.cursor, Some(Cursor { row: 1, column: 2 }));
}

#[test]
fn empty_buffer_renders_one_empty_row() {
    let d = Dentaku::default();
    assert_eq!(rows_text(&d, 5, 8), vec![""]);
    let f = d.render(5, 8);
    assert_eq!(f.cursor, Some(Cursor { row: 0, column: 0 }));
}
