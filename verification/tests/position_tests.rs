use mr_guile_lsp_server::position::{offset_to_position, position_to_offset, Position};

#[test]
fn ascii_roundtrip() {
    let text = "abc\ndefgh\nij";
    // line 1 "defgh" starts at offset 4; char 3 -> offset 7 ('g').
    assert_eq!(position_to_offset(text, &Position::new(1, 3)), 7);
    assert_eq!(offset_to_position(text, 7), Position::new(1, 3));
}

#[test]
fn utf8_byte_offsets() {
    // "中" is 3 UTF-8 bytes; positions count bytes, not characters.
    let text = "中a\nbc";
    // line 0, char 3 lands just after "中" (3 bytes), at 'a'.
    assert_eq!(position_to_offset(text, &Position::new(0, 3)), 3);
    assert_eq!(offset_to_position(text, 3), Position::new(0, 3));
}

#[test]
fn clamps_past_end() {
    let text = "ab\ncd";
    assert_eq!(position_to_offset(text, &Position::new(5, 0)), 5);
}

#[test]
fn column_past_line_end_clamps_to_the_newline() {
    let text = "ab\ncd";
    assert_eq!(position_to_offset(text, &Position::new(0, 9)), 2);
    assert_eq!(position_to_offset(text, &Position::new(1, 9)), 5);
}

#[test]
fn offset_past_end_clamps_to_the_end() {
    let text = "ab\ncd";
    assert_eq!(offset_to_position(text, 99), Position::new(1, 2));
    assert_eq!(offset_to_position("", 0), Position::new(0, 0));
}

#[test]
fn every_offset_survives_a_roundtrip() {
    let text = "(define (f x)\n  \"中文\"\n\n  x)\n";
    for o in 0..=text.len() {
        let p = offset_to_position(text, o);
        assert_eq!(position_to_offset(text, &p), o);
    }
}

#[test]
fn positions_within_lines_survive_a_roundtrip() {
    let text = "abc\n\nxy";
    for p in [Position::new(0, 0), Position::new(0, 3), Position::new(1, 0), Position::new(2, 2)] {
        let o = position_to_offset(text, &p);
        assert_eq!(offset_to_position(text, o), p);
    }
}
