use kfs::io::vga_buffer::{
    set_cursor, Buffer, Color, ColorCode, ColorMap, ScreenChar, Terminals, Writer, BUFFER_HEIGHT,
    BUFFER_WIDTH,
};
use kfs::sys::pic::PortWrite;

fn row_text(writer: &Writer, row: usize) -> String {
    (0..BUFFER_WIDTH).map(|c| writer.cell(row, c).ascii_character as char).collect::<String>()
}

fn bottom(writer: &Writer) -> String {
    row_text(writer, BUFFER_HEIGHT - 1).trim_end().to_string()
}

#[test]
fn colors_have_their_palette_numbers() {
    assert_eq!(Color::Black.number(), 0);
    assert_eq!(Color::LightGray.number(), 7);
    assert_eq!(Color::White.number(), 15);
    assert_eq!(ColorMap::from_str(0), Some(Color::Black));
    assert_eq!(ColorMap::from_str(4), Some(Color::Red));
    assert_eq!(ColorMap::from_str(14), Some(Color::Yellow));
    assert_eq!(ColorMap::from_str(15), Some(Color::White));
    assert_eq!(ColorMap::from_str(16), None);
    for n in 0..16 {
        assert_eq!(ColorMap::from_str(n).unwrap().number() as usize, n);
    }
}

#[test]
fn color_code_puts_background_in_the_high_nibble() {
    assert_eq!(ColorCode::new(Color::White, Color::Black), ColorCode(0x0F));
    assert_eq!(ColorCode::new(Color::Yellow, Color::Blue), ColorCode(0x1E));
    assert_eq!(ColorCode::new(Color::Black, Color::White), ColorCode(0xF0));
}

#[test]
fn buffer_cells_hold_what_was_written() {
    let mut buffer = Buffer::new(ColorCode(0x0F));
    assert_eq!(buffer.read(3, 7), ScreenChar { ascii_character: b' ', color_code: ColorCode(0x0F) });
    let value = ScreenChar { ascii_character: b'x', color_code: ColorCode(0x4E) };
    buffer.write(3, 7, value);
    assert_eq!(buffer.read(3, 7), value);
    assert_eq!(buffer.read(3, 8).ascii_character, b' ');
    assert_eq!(buffer.read(7, 3).ascii_character, b' ');
}

#[test]
fn write_byte_fills_the_bottom_row() {
    let mut w = Writer::new();
    w.write_byte(b'a');
    assert_eq!(w.column(), 1);
    assert_eq!(
        w.cell(24, 0),
        ScreenChar { ascii_character: b'a', color_code: ColorCode(0x0F) }
    );
    w.write_byte(b'b');
    assert_eq!(bottom(&w), "ab");
    assert_eq!(w.column(), 2);
    assert_eq!(row_text(&w, 23).trim_end(), "");
}

#[test]
fn line_feed_scrolls_up() {
    let mut w = Writer::new();
    w.write_string("one\ntwo\nthree");
    assert_eq!(row_text(&w, 22).trim_end(), "one");
    assert_eq!(row_text(&w, 23).trim_end(), "two");
    assert_eq!(bottom(&w), "three");
    assert_eq!(w.column(), 5);
    w.new_line();
    assert_eq!(row_text(&w, 21).trim_end(), "one");
    assert_eq!(bottom(&w), "");
    assert_eq!(w.column(), 0);
}

#[test]
fn full_row_wraps_before_the_next_byte() {
    let mut w = Writer::new();
    for _ in 0..80 {
        w.write_byte(b'x');
    }
    assert_eq!(w.column(), 80);
    assert_eq!(bottom(&w), "x".repeat(80));
    w.write_byte(b'y');
    assert_eq!(w.column(), 1);
    assert_eq!(row_text(&w, 23), "x".repeat(80));
    assert_eq!(bottom(&w), "y");
}

#[test]
fn delete_steps_back_and_blanks() {
    let mut w = Writer::new();
    w.write_string("ab");
    w.write_byte(0x7f);
    assert_eq!(bottom(&w), "a");
    assert_eq!(w.column(), 1);
    w.write_byte(0x7f);
    w.write_byte(0x7f);
    assert_eq!(w.column(), 0);
    assert_eq!(bottom(&w), "");
}

#[test]
fn unprintable_bytes_show_as_0xfe() {
    let mut w = Writer::new();
    w.write_string("a\tb\u{e9}");
    assert_eq!(w.cell(24, 0).ascii_character, b'a');
    assert_eq!(w.cell(24, 1).ascii_character, 0xfe);
    assert_eq!(w.cell(24, 2).ascii_character, b'b');
    assert_eq!(w.cell(24, 3).ascii_character, 0xfe);
    assert_eq!(w.cell(24, 4).ascii_character, 0xfe);
    assert_eq!(w.column(), 5);
}

#[test]
fn color_escape_sets_the_foreground() {
    let mut w = Writer::new();
    w.write_string("\x1b[4;mred\x1b[10;mgreen\x1b[15;m.");
    assert_eq!(bottom(&w), "redgreen.");
    assert_eq!(w.cell(24, 0).color_code, ColorCode(4));
    assert_eq!(w.cell(24, 2).color_code, ColorCode(4));
    assert_eq!(w.cell(24, 3).color_code, ColorCode(10));
    assert_eq!(w.cell(24, 8).color_code, ColorCode(15));
    assert_eq!(w.color(), ColorCode(15));
}

#[test]
fn color_number_beyond_the_palette_selects_white() {
    let mut w = Writer::new();
    w.write_string("\x1b[1;m");
    assert_eq!(w.color(), ColorCode(1));
    w.write_string("\x1b[42;mx");
    assert_eq!(w.color(), ColorCode(15));
    assert_eq!(bottom(&w), "x");
}

#[test]
fn malformed_escapes_are_shown_as_unprintable() {
    for text in ["\x1b[m", "\x1b[123;m", "\x1b[1m", "\x1b1;m", "\x1b[a;m", "\x1b[1;", "\x1b", "\x1b[ 1;m"] {
        let mut w = Writer::new();
        w.write_string(text);
        assert_eq!(w.cell(24, 0).ascii_character, 0xfe);
        assert_eq!(w.color(), ColorCode(15));
        assert_eq!(w.column(), text.len());
        assert!(!w.syntax_check(text.as_bytes()));
    }
    let w = Writer::new();
    assert!(w.syntax_check(b"\x1b[1;m"));
    assert!(w.syntax_check(b"\x1b[12;mtext"));
    assert!(!w.syntax_check(b"x\x1b[1;m"));
}

#[test]
fn sgr_reports_whether_it_took_an_escape() {
    let mut w = Writer::new();
    assert!(w.sgr(b"\x1b[9;mrest"));
    assert_eq!(w.color(), ColorCode(9));
    // The four bytes behind the escape byte are skipped by the writer.
    w.write_bytes(b"[9;mz");
    assert_eq!(bottom(&w), "z");
    assert!(!w.sgr(b"\x1b[9m"));
    assert_eq!(w.color(), ColorCode(9));
}

#[test]
fn clear_row_blanks_in_the_current_color() {
    let mut w = Writer::new();
    w.write_string("text\n\x1b[2;m");
    w.clear_row(23);
    assert_eq!(row_text(&w, 23).trim_end(), "");
    assert_eq!(w.cell(23, 0), ScreenChar { ascii_character: b' ', color_code: ColorCode(2) });
    assert_eq!(w.cell(24, 0).color_code, ColorCode(15));
}

#[test]
fn retreat_moves_the_column_back() {
    let mut w = Writer::new();
    w.write_string("abcdef");
    w.retreat(4);
    assert_eq!(w.column(), 2);
    w.retreat(10);
    assert_eq!(w.column(), 0);
}

#[test]
fn virtual_terminals_keep_their_screens() {
    let mut w = Writer::new();
    let mut t = Terminals::new();
    assert_eq!(t.active(), 1);
    w.write_string("\x1b[4;mfirst");
    t.switch(&mut w, 1);
    assert_eq!(bottom(&w), "first");
    t.switch(&mut w, 2);
    assert_eq!(t.active(), 2);
    assert_eq!(w.cell(24, 0), ScreenChar { ascii_character: 0, color_code: ColorCode(15) });
    w.retreat(80);
    w.write_string("\x1b[2;msecond");
    t.switch(&mut w, 1);
    assert_eq!(t.active(), 1);
    assert_eq!(&row_text(&w, 24)[..5], "first");
    // Colours are not kept: a restored screen is white on black.
    assert_eq!(w.cell(24, 0).color_code, ColorCode(15));
    t.switch(&mut w, 2);
    assert_eq!(&row_text(&w, 24)[..6], "second");
}

#[test]
fn saved_screen_round_trips() {
    let mut w = Writer::new();
    w.write_string("line\nnext");
    let saved = w.save_vga();
    assert_eq!(saved.len(), 25);
    assert_eq!(saved[23][..4], *b"line");
    assert_eq!(saved[24][..4], *b"next");
    let mut other = Writer::new();
    other.load_vga(&saved);
    assert_eq!(row_text(&other, 23), row_text(&w, 23));
    assert_eq!(row_text(&other, 24), row_text(&w, 24));
}

#[test]
fn cursor_position_is_split_over_two_registers() {
    // Column 5 of the bottom row is cell 24 * 80 + 5 = 1925 = 0x785.
    assert_eq!(
        set_cursor(5),
        [
            PortWrite { port: 0x3D4, value: 14 },
            PortWrite { port: 0x3D5, value: 0x07 },
            PortWrite { port: 0x3D4, value: 15 },
            PortWrite { port: 0x3D5, value: 0x85 },
        ]
    );
    assert_eq!(set_cursor(0)[3].value, 0x80);
}
