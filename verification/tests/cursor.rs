use linebuf::cursor::Cursor;

#[test]
fn test_cursor_do_nothing_left_is_called_and_column_is_0() {
    let mut cursor = Cursor::new(10, 10);
    cursor.left();
    assert_eq!("cursor[line:0,column:0]", cursor.to_string());
}

#[test]
fn test_cursor_do_nothing_right_is_called_and_column_is_limit() {
    let mut cursor = Cursor {
        line: 10,
        column: 10,
        lines: 10,
        columns: 10,
    };
    cursor.right();
    assert_eq!("cursor[line:10,column:10]", cursor.to_string());
}

#[test]
fn test_cursor_move_left() {
    let mut cursor = Cursor {
        line: 10,
        column: 8,
        lines: 10,
        columns: 10,
    };
    cursor.left();
    assert_eq!("cursor[line:10,column:7]", cursor.to_string());
}

#[test]
fn test_cursor_move_right() {
    let mut cursor = Cursor {
        line: 10,
        column: 9,
        lines: 10,
        columns: 10,
    };
    cursor.right();
    assert_eq!("cursor[line:10,column:10]", cursor.to_string());
}

#[test]
fn test_cursor_do_nothing_up_is_called_and_line_is_limit() {
    let mut cursor = Cursor::new(10, 10);
    cursor.up();
    assert_eq!("cursor[line:0,column:0]", cursor.to_string());
}

#[test]
fn test_cursor_do_nothing_down_is_called_and_line_is_0() {
    let mut cursor = Cursor {
        line: 10,
        column: 10,
        lines: 10,
        columns: 10,
    };
    cursor.right();
    assert_eq!("cursor[line:10,column:10]", cursor.to_string());
}

#[test]
fn test_cursor_move_up() {
    let mut cursor = Cursor {
        line: 10,
        column: 10,
        lines: 10,
        columns: 10,
    };
    cursor.up();
    assert_eq!("cursor[line:9,column:10]", cursor.to_string());
}

#[test]
fn test_cursor_move_down() {
    let mut cursor = Cursor {
        line: 9,
        column: 10,
        lines: 10,
        columns: 10,
    };
    cursor.down();
    assert_eq!("cursor[line:10,column:10]", cursor.to_string());
}

#[test]
fn test_cursor_moves_clamp_at_every_bound() {
    let mut cursor = Cursor::new(2, 3);
    cursor.down();
    cursor.down();
    cursor.down();
    cursor.right();
    cursor.right();
    cursor.right();
    cursor.right();
    assert_eq!("cursor[line:2,column:3]", cursor.to_string());
    cursor.up();
    cursor.left();
    assert_eq!("cursor[line:1,column:2]", cursor.to_string());
}
