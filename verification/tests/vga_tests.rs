use whyos_core::vga_buffer::{Color, ColorCode, Writer, BUFFER_HEIGHT, BUFFER_WIDTH};

#[test]
fn fresh_surface_is_blank_green_on_black() {
    let w = Writer::new();
    assert_eq!(w.cursor_row(), 0);
    assert_eq!(w.cursor_col(), 0);
    // Green on black packs to 2.
    assert_eq!(w.char_at(0, 0), b' ');
    assert_eq!(w.color_at(0, 0), 2);
    assert_eq!(w.char_at(BUFFER_HEIGHT - 1, BUFFER_WIDTH - 1), b' ');
}

#[test]
fn color_code_packs_background_high() {
    // White on blue: 1 << 4 | 15.
    assert_eq!(ColorCode::new(Color::White, Color::Blue).0, 31);
    assert_eq!(ColorCode::new(Color::Green, Color::Black).0, 2);
}

#[test]
fn write_byte_advances_and_clears_ahead() {
    let mut w = Writer::new();
    w.write_string(b"AB");
    assert_eq!(w.char_at(0, 0), b'A');
    assert_eq!(w.char_at(0, 1), b'B');
    // Rewriting the first cell blanks the stale second one.
    w.set_cursor(0, 0);
    w.write_byte(b'C');
    assert_eq!(w.char_at(0, 0), b'C');
    assert_eq!(w.char_at(0, 1), b' ');
    assert_eq!(w.cursor_col(), 1);
}

#[test]
fn newline_advances_the_row() {
    let mut w = Writer::new();
    w.write_string(b"hi\n");
    assert_eq!(w.cursor_row(), 1);
    assert_eq!(w.cursor_col(), 0);
}

#[test]
fn long_line_wraps() {
    let mut w = Writer::new();
    let line = vec![b'x'; BUFFER_WIDTH + 1];
    w.write_string(&line);
    assert_eq!(w.cursor_row(), 1);
    assert_eq!(w.cursor_col(), 1);
    assert_eq!(w.char_at(0, BUFFER_WIDTH - 1), b'x');
    assert_eq!(w.char_at(1, 0), b'x');
}

#[test]
fn bottom_newline_scrolls_everything_up() {
    let mut w = Writer::new();
    w.write_string(b"top");
    for _ in 0..(BUFFER_HEIGHT - 1) {
        w.write_byte(b'\n');
    }
    assert_eq!(w.cursor_row(), BUFFER_HEIGHT - 1);
    w.write_string(b"bottom");
    w.write_byte(b'\n');
    // Still on the last row; "bottom" moved up one; "top" scrolled away.
    assert_eq!(w.cursor_row(), BUFFER_HEIGHT - 1);
    assert_eq!(w.char_at(BUFFER_HEIGHT - 2, 0), b'b');
    assert_eq!(w.char_at(0, 0), b' ');
}

#[test]
fn unprintable_bytes_show_the_placeholder() {
    let mut w = Writer::new();
    w.write_string(&[7u8, b'!']);
    assert_eq!(w.char_at(0, 0), 254);
    assert_eq!(w.char_at(0, 1), b'!');
}

#[test]
fn backspace_steps_back_and_blanks() {
    let mut w = Writer::new();
    w.write_string(b"ab");
    w.backspace();
    assert_eq!(w.cursor_col(), 1);
    assert_eq!(w.char_at(0, 1), b' ');
    // From column zero it climbs to the end of the previous row.
    w.set_cursor(1, 0);
    w.backspace();
    assert_eq!(w.cursor_row(), 0);
    assert_eq!(w.cursor_col(), BUFFER_WIDTH - 1);
}

#[test]
fn backspace_at_origin_stays_put() {
    let mut w = Writer::new();
    w.backspace();
    assert_eq!(w.cursor_row(), 0);
    assert_eq!(w.cursor_col(), 0);
}

#[test]
fn clear_screen_blanks_and_homes() {
    let mut w = Writer::new();
    w.write_string(b"junk\nmore");
    w.clear_screen();
    assert_eq!(w.cursor_row(), 0);
    assert_eq!(w.cursor_col(), 0);
    assert_eq!(w.char_at(0, 0), b' ');
    assert_eq!(w.char_at(1, 0), b' ');
}

#[test]
fn clear_current_line_keeps_the_row() {
    let mut w = Writer::new();
    w.write_string(b"\nabc");
    w.clear_current_line();
    assert_eq!(w.cursor_row(), 1);
    assert_eq!(w.cursor_col(), 0);
    assert_eq!(w.char_at(1, 0), b' ');
}

#[test]
fn color_change_wipes_the_screen() {
    let mut w = Writer::new();
    w.write_string(b"text");
    w.set_foreground(Color::Red);
    // Red on black packs to 4; the old text is gone, not recolored.
    assert_eq!(w.char_at(0, 0), b' ');
    assert_eq!(w.color_at(0, 0), 4);
    assert_eq!(w.cursor_row(), 0);
    w.set_background(Color::Blue);
    // Red on blue: 1 << 4 | 4.
    assert_eq!(w.color_at(0, 0), 20);
}

#[test]
fn set_cursor_repositions_without_writing() {
    let mut w = Writer::new();
    w.write_string(b"Z");
    w.set_cursor(5, 7);
    assert_eq!(w.cursor_row(), 5);
    assert_eq!(w.cursor_col(), 7);
    assert_eq!(w.char_at(0, 0), b'Z');
}
