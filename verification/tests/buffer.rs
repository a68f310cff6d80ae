use linebuf::buffer::Buffer;

#[test]
fn test_should_create_buffer_from_str() {
    let buffer = Buffer::from_str("package main");
    assert_eq!(
        "buffer [ cursor: 12, line: 0, content: 'package main', lines: '[(0, 11)]']",
        buffer.to_string(),
    );
}

#[test]
fn test_should_create_from_str_with_multiple_lines() {
    let buffer = Buffer::from_str("package main\nfunc main() {\n}\n");
    assert_eq!(
        "buffer [ cursor: 29, line: 3, content: 'package main\nfunc main() {\n}\n', lines: '[(0, 12), (13, 26), (27, 28), (29, 29)]']",
        buffer.to_string(),
    );
}

#[test]
fn test_should_insert_char_at_given_position() {
    let mut buffer = Buffer::new();
    assert_eq!(
        "buffer [ cursor: 0, line: 0, content: '', lines: '[(0, 0)]']",
        buffer.to_string()
    );
    buffer.insert_at(0, 'a');
    assert_eq!(
        "buffer [ cursor: 1, line: 0, content: 'a', lines: '[(0, 0)]']",
        buffer.to_string()
    );
}

#[test]
fn test_should_insert_char_at_cursor() {
    let mut buffer = Buffer::new();
    assert_eq!(
        "buffer [ cursor: 0, line: 0, content: '', lines: '[(0, 0)]']",
        buffer.to_string()
    );
    buffer.insert('\n');
    assert_eq!(
        "buffer [ cursor: 1, line: 1, content: '\n', lines: '[(0, 0), (1, 1)]']",
        buffer.to_string()
    );
}

#[test]
fn test_should_insert_new_line() {
    let mut buffer = Buffer::new();
    assert_eq!(
        "buffer [ cursor: 0, line: 0, content: '', lines: '[(0, 0)]']",
        buffer.to_string()
    );
    buffer.insert_at(0, '\n');
    assert_eq!(
        "buffer [ cursor: 1, line: 1, content: '\n', lines: '[(0, 0), (1, 1)]']",
        buffer.to_string()
    );
}

#[test]
fn test_should_insert_new_line_at_given_position() {
    let mut buffer = Buffer::from_str("aa");
    assert_eq!(
        "buffer [ cursor: 2, line: 0, content: 'aa', lines: '[(0, 1)]']",
        buffer.to_string()
    );
    buffer.insert_at(1, '\n');
    assert_eq!(
        "buffer [ cursor: 2, line: 1, content: 'a\na', lines: '[(0, 1), (2, 2)]']",
        buffer.to_string()
    );
}

#[test]
fn test_should_remove_char_at_given_position() {
    let mut buffer = Buffer::from_str("aa");
    assert_eq!(
        "buffer [ cursor: 2, line: 0, content: 'aa', lines: '[(0, 1)]']",
        buffer.to_string()
    );
    buffer.remove_at(0);
    assert_eq!(
        "buffer [ cursor: 0, line: 0, content: 'a', lines: '[(0, 0)]']",
        buffer.to_string()
    );
}

#[test]
fn test_should_remove_char_before_cursor() {
    let mut buffer = Buffer::from_str("aa");
    assert_eq!(
        "buffer [ cursor: 2, line: 0, content: 'aa', lines: '[(0, 1)]']",
        buffer.to_string()
    );
    buffer.remove();
    assert_eq!(
        "buffer [ cursor: 1, line: 0, content: 'a', lines: '[(0, 0)]']",
        buffer.to_string()
    );
}

#[test]
fn test_should_remove_new_line_at_given_position() {
    let mut buffer = Buffer::from_str("lorem\nipsum\ndolor");
    assert_eq!(
        "buffer [ cursor: 17, line: 2, content: 'lorem\nipsum\ndolor', lines: '[(0, 5), (6, 11), (12, 16)]']",
        buffer.to_string()
    );
    buffer.remove_at(5);
    assert_eq!(
        "buffer [ cursor: 5, line: 0, content: 'loremipsum\ndolor', lines: '[(0, 10), (11, 15)]']",
        buffer.to_string()
    );
}

#[test]
fn test_should_remove_last_line() {
    let mut buffer = Buffer::from_str("lorem\nipsum\ndolor\n");
    assert_eq!(
        "buffer [ cursor: 18, line: 3, content: 'lorem\nipsum\ndolor\n', lines: '[(0, 5), (6, 11), (12, 17), (18, 18)]']",
        buffer.to_string()
    );
    buffer.remove_at(17);
    assert_eq!(
        "buffer [ cursor: 17, line: 2, content: 'lorem\nipsum\ndolor', lines: '[(0, 5), (6, 11), (12, 16)]']",
        buffer.to_string()
    );
}

#[test]
fn test_should_correctly_select_line_for_pos() {
    let mut buffer = Buffer::from_str("lorem\nipsum");
    assert_eq!(
        "buffer [ cursor: 11, line: 1, content: 'lorem\nipsum', lines: '[(0, 5), (6, 10)]']",
        buffer.to_string()
    );
    buffer.sync_line_with_cursor(0);
    assert_eq!(
        "buffer [ cursor: 0, line: 0, content: 'lorem\nipsum', lines: '[(0, 5), (6, 10)]']",
        buffer.to_string()
    );
}

#[test]
fn test_should_return_correct_content() {
    let mut buffer = Buffer::from_str("la vida de albert\n\n");
    assert_eq!("la vida de albert\r\n\r\n", buffer.content());
    buffer.remove();
    assert_eq!("la vida de albert\r\n", buffer.content());
    buffer.remove();
    assert_eq!("la vida de albert", buffer.content());
}

#[test]
fn test_should_remove_only_new_line() {
    let mut buffer = Buffer::from_str("\n");
    assert_eq!("\r\n", buffer.content());
    buffer.remove();
    assert_eq!("", buffer.content());
}

#[test]
fn test_remove_on_fresh_empty_buffer_is_a_no_op() {
    let mut buffer = Buffer::new();
    buffer.remove();
    assert_eq!(
        "buffer [ cursor: 0, line: 0, content: '', lines: '[(0, 0)]']",
        buffer.to_string()
    );
    assert_eq!("", buffer.content());
}

#[test]
fn test_content_round_trips_text_without_trailing_newline() {
    let text = "alpha\nbeta\ngamma";
    let buffer = Buffer::from_str(text);
    let shown = buffer.content();
    assert_eq!("alpha\r\nbeta\r\ngamma", shown);
    let back = shown.replace("\r\n", "\n");
    assert_eq!(text, back);
}

#[test]
fn test_lines_tile_content_after_edits_at_the_cursor() {
    let mut buffer = Buffer::from_str("one\ntwo");
    buffer.insert('!');
    buffer.insert('\n');
    buffer.remove();
    buffer.insert('s');
    assert_eq!(
        "buffer [ cursor: 9, line: 1, content: 'one\ntwo!s', lines: '[(0, 3), (4, 8)]']",
        buffer.to_string()
    );
    assert_eq!("one\r\ntwo!s", buffer.content());
}

#[test]
fn test_from_str_of_empty_text_is_the_empty_buffer() {
    let buffer = Buffer::from_str("");
    assert_eq!(
        "buffer [ cursor: 0, line: 0, content: '', lines: '[(0, 0)]']",
        buffer.to_string()
    );
    assert_eq!("", buffer.content());
}

#[test]
fn test_typing_builds_the_same_buffer_as_from_str() {
    let mut typed = Buffer::new();
    for c in "ab\ncd\n".chars() {
        typed.insert(c);
    }
    let scanned = Buffer::from_str("ab\ncd\n");
    assert_eq!(scanned.to_string(), typed.to_string());
    assert_eq!("ab\r\ncd\r\n", typed.content());
}
