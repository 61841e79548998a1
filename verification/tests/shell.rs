use kfs::io::hexdump::{format_address, format_line, is_all_zero, print, valid_size};
use kfs::io::keyboard::{Keyboard, Keymap};
use kfs::io::shell::{
    confirm, echo, execute_command, keyboard_interrupt_handler, next_listed_frame, pager_key,
    parse_u8, same_bytes, stack_extent, Command, Pager, PagerKey, Shell, INPUT_SIZE,
};
use kfs::io::vga_buffer::{Terminals, Writer, BUFFER_WIDTH};
use kfs::keyboard::keyboard as plain;
use kfs::keyboard::keymap::{to_ascii, to_shift_ascii};
use kfs::keyboard::keymap_fr::{to_ascii_fr, to_shift_ascii_fr};
use kfs::memory::physicalmemory::PhysicalMemory;
use kfs::sys::interrupts::InterruptIndex;
use kfs::sys::pic::{ChainedPics, PortWrite};

fn bottom(writer: &Writer) -> String {
    (0..BUFFER_WIDTH)
        .map(|c| writer.cell(24, c).ascii_character as char)
        .collect::<String>()
        .trim_end()
        .to_string()
}

fn row(writer: &Writer, r: usize) -> String {
    (0..BUFFER_WIDTH)
        .map(|c| writer.cell(r, c).ascii_character as char)
        .collect::<String>()
        .trim_end()
        .to_string()
}

#[test]
fn commands_are_named_by_their_text() {
    assert_eq!(execute_command(b"clear"), Command::Clear);
    assert_eq!(execute_command(b"reboot"), Command::Reboot);
    assert_eq!(execute_command(b"stack"), Command::Stack);
    assert_eq!(execute_command(b"halt"), Command::Halt);
    assert_eq!(execute_command(b"bitmap"), Command::Bitmap(false));
    assert_eq!(execute_command(b"bitmap --all"), Command::Bitmap(true));
    assert_eq!(execute_command(b"keymap"), Command::Keymap);
    assert_eq!(execute_command(b"help"), Command::Help);
    assert_eq!(execute_command(b"uptime"), Command::Uptime);
    assert_eq!(execute_command(b""), Command::NotFound);
    assert_eq!(execute_command(b"Clear"), Command::NotFound);
    assert_eq!(execute_command(b"clear "), Command::NotFound);
    assert_eq!(execute_command(b"bitmap -all"), Command::NotFound);
    assert_eq!(execute_command(b"interrupt"), Command::NotFound);
}

#[test]
fn interrupt_takes_a_number_up_to_255() {
    assert_eq!(execute_command(b"interrupt 3"), Command::Interrupt(3));
    assert_eq!(execute_command(b"interrupt 0"), Command::Interrupt(0));
    assert_eq!(execute_command(b"interrupt 255"), Command::Interrupt(255));
    assert_eq!(execute_command(b"interrupt +7"), Command::Interrupt(7));
    assert_eq!(execute_command(b"interrupt 0128"), Command::Interrupt(128));
    assert_eq!(execute_command(b"interrupt 256"), Command::InvalidInterrupt);
    assert_eq!(execute_command(b"interrupt "), Command::InvalidInterrupt);
    assert_eq!(execute_command(b"interrupt +"), Command::InvalidInterrupt);
    assert_eq!(execute_command(b"interrupt -1"), Command::InvalidInterrupt);
    assert_eq!(execute_command(b"interrupt 3 "), Command::InvalidInterrupt);
    assert_eq!(execute_command(b"interrupt 0x10"), Command::InvalidInterrupt);
    assert_eq!(execute_command(b"interrupt 99999999999999999999"), Command::InvalidInterrupt);
    assert_eq!(parse_u8(b"42"), Some(42));
    assert_eq!(parse_u8(b""), None);
    assert_eq!(parse_u8(b"0000000000000000000000255"), Some(255));
    assert!(same_bytes(b"abc", b"abc") && !same_bytes(b"abc", b"abd") && !same_bytes(b"ab", b"abc"));
}

#[test]
fn software_interrupt_three_is_the_breakpoint() {
    match execute_command(b"interrupt 3") {
        Command::Interrupt(n) => {
            let index = InterruptIndex::from_vector(n).unwrap();
            assert_eq!(index, InterruptIndex::Breakpoint);
            assert!(!index.halts());
        }
        other => panic!("{:?}", other),
    }
}

#[test]
fn lines_that_are_no_utf8_are_refused() {
    assert_eq!(execute_command(&[0xE9]), Command::NotUtf8);
    assert_eq!(execute_command(&[b'h', b'e', b'l', b'p', 0xFF]), Command::NotUtf8);
    assert_eq!(execute_command(&[b'c', 0xC3]), Command::NotUtf8);
    assert_eq!(execute_command("h\u{e9}lp".as_bytes()), Command::NotFound);
}

#[test]
fn typed_keys_are_echoed_and_joined_to_the_line() {
    let mut shell = Shell::new();
    let mut w = Writer::new();
    let mut input = [0u8; INPUT_SIZE];
    let mut len = 0usize;
    shell.display_prompt(&mut w);
    assert_eq!(bottom(&w), "$>");
    assert_eq!(w.column(), 3);
    for c in "help".chars() {
        assert_eq!(shell.read_input(&mut w, &mut input, &mut len, Some(c)), None);
    }
    assert_eq!(bottom(&w), "$> help");
    assert_eq!(len, 4);
    assert_eq!(&input[..4], b"help");
    assert_eq!(shell.read_input(&mut w, &mut input, &mut len, None), None);
    assert_eq!(shell.read_input(&mut w, &mut input, &mut len, Some('\n')), Some(Command::Help));
    assert_eq!(len, 0);
    assert_eq!(bottom(&w), "");
    assert_eq!(row(&w, 23), "$> help");
}

#[test]
fn backspace_takes_the_last_byte_back() {
    let mut shell = Shell::new();
    let mut w = Writer::new();
    let mut input = [0u8; INPUT_SIZE];
    let mut len = 0usize;
    shell.read_input(&mut w, &mut input, &mut len, Some('\x7f'));
    assert_eq!(len, 0);
    assert_eq!(w.column(), 0);
    shell.read_input(&mut w, &mut input, &mut len, Some('a'));
    shell.read_input(&mut w, &mut input, &mut len, Some('b'));
    shell.read_input(&mut w, &mut input, &mut len, Some('\x7f'));
    assert_eq!(len, 1);
    assert_eq!(input[1], 0);
    assert_eq!(bottom(&w), "a");
    shell.read_input(&mut w, &mut input, &mut len, Some('\x09'));
    assert_eq!(w.column(), 5);
    assert_eq!(len, 1);
}

#[test]
fn a_full_line_takes_no_more_keys() {
    let mut shell = Shell::new();
    let mut w = Writer::new();
    let mut input = [0u8; INPUT_SIZE];
    let mut len = 0usize;
    for _ in 0..INPUT_SIZE {
        shell.read_input(&mut w, &mut input, &mut len, Some('x'));
    }
    assert_eq!(len, INPUT_SIZE);
    let column = w.column();
    shell.read_input(&mut w, &mut input, &mut len, Some('y'));
    assert_eq!(len, INPUT_SIZE);
    assert_eq!(w.column(), column);
    assert_eq!(
        shell.read_input(&mut w, &mut input, &mut len, Some('\n')),
        Some(Command::NotFound)
    );
}

#[test]
fn characters_beyond_ascii_join_as_their_low_byte() {
    let mut shell = Shell::new();
    let mut w = Writer::new();
    let mut input = [0u8; INPUT_SIZE];
    let mut len = 0usize;
    shell.read_input(&mut w, &mut input, &mut len, Some('\u{e9}'));
    assert_eq!(input[0], 0xE9);
    // On the screen the two bytes of the character's UTF-8 form show as unprintable.
    assert_eq!(w.cell(24, 0).ascii_character, 0xfe);
    assert_eq!(w.cell(24, 1).ascii_character, 0xfe);
    assert_eq!(w.column(), 2);
    assert_eq!(
        shell.read_input(&mut w, &mut input, &mut len, Some('\n')),
        Some(Command::NotUtf8)
    );
    let mut w = Writer::new();
    echo(&mut w, '\u{20ac}');
    assert_eq!(w.column(), 3);
    echo(&mut w, '\u{1F600}');
    assert_eq!(w.column(), 7);
    echo(&mut w, 'a');
    assert_eq!(w.cell(24, 7).ascii_character, b'a');
}

#[test]
fn each_shell_keeps_its_line() {
    let mut shell = Shell::new();
    let mut w = Writer::new();
    let mut input = [0u8; INPUT_SIZE];
    let mut len = 0usize;
    shell.display_prompt(&mut w);
    for c in "upt".chars() {
        shell.read_input(&mut w, &mut input, &mut len, Some(c));
    }
    shell.read_input(&mut w, &mut input, &mut len, Some('\x01'));
    assert_eq!(len, 3);
    assert_eq!(bottom(&w), "$> upt");
    shell.read_input(&mut w, &mut input, &mut len, Some('\x02'));
    assert_eq!(len, 0);
    // The column went back over line and prompt, then the prompt was shown again.
    assert_eq!(w.column(), 3);
    for c in "he".chars() {
        shell.read_input(&mut w, &mut input, &mut len, Some(c));
    }
    shell.read_input(&mut w, &mut input, &mut len, Some('\x01'));
    assert_eq!(len, 3);
    assert_eq!(&input[..3], b"upt");
    assert_eq!(bottom(&w), "$> upt");
    for c in "ime".chars() {
        shell.read_input(&mut w, &mut input, &mut len, Some(c));
    }
    assert_eq!(
        shell.read_input(&mut w, &mut input, &mut len, Some('\n')),
        Some(Command::Uptime)
    );
    shell.read_input(&mut w, &mut input, &mut len, Some('\x02'));
    assert_eq!(&input[..len], b"he");
}

#[test]
fn scancode_0x1e_echoes_a_and_with_shift_capital_a() {
    let mut keyboard = Keyboard::new();
    let mut terminals = Terminals::new();
    let mut w = Writer::new();
    let mut shell = Shell::new();
    let mut input = [0u8; INPUT_SIZE];
    let mut len = 0usize;
    let pics = ChainedPics::new(0x20, 0x28);
    let (command, writes) = keyboard_interrupt_handler(
        &mut keyboard, &mut terminals, &mut w, &mut shell, &mut input, &mut len, &pics, 0x1E,
    );
    assert_eq!(command, None);
    assert_eq!(writes, vec![PortWrite { port: 0x20, value: 0x20 }]);
    assert_eq!(w.cell(24, 0).ascii_character, b'a');
    assert_eq!(w.column(), 1);
    // The release, then shift and the key again.
    for code in [0x9E, 0x2A, 0x1E] {
        keyboard_interrupt_handler(
            &mut keyboard, &mut terminals, &mut w, &mut shell, &mut input, &mut len, &pics, code,
        );
    }
    assert_eq!(w.cell(24, 1).ascii_character, b'A');
    assert_eq!(w.column(), 2);
    assert_eq!(&input[..len], b"aA");
}

#[test]
fn function_keys_switch_terminal_and_shell() {
    let mut keyboard = Keyboard::new();
    let mut terminals = Terminals::new();
    let mut w = Writer::new();
    let mut shell = Shell::new();
    let mut input = [0u8; INPUT_SIZE];
    let mut len = 0usize;
    let pics = ChainedPics::new(0x20, 0x28);
    shell.display_prompt(&mut w);
    for code in [0x23, 0xA3, 0x3C] {
        keyboard_interrupt_handler(
            &mut keyboard, &mut terminals, &mut w, &mut shell, &mut input, &mut len, &pics, code,
        );
    }
    assert_eq!(terminals.active(), 2);
    assert_eq!(len, 0);
    keyboard_interrupt_handler(
        &mut keyboard, &mut terminals, &mut w, &mut shell, &mut input, &mut len, &pics, 0x3B,
    );
    assert_eq!(terminals.active(), 1);
    assert_eq!(&input[..len], b"h");
    assert_eq!(bottom(&w), "$> h");
}

#[test]
fn enter_through_the_keyboard_yields_the_command() {
    let mut keyboard = Keyboard::new();
    let mut terminals = Terminals::new();
    let mut w = Writer::new();
    let mut shell = Shell::new();
    let mut input = [0u8; INPUT_SIZE];
    let mut len = 0usize;
    let pics = ChainedPics::new(0x20, 0x28);
    // h, e, l, p with releases, then enter.
    let mut last = None;
    for code in [0x23, 0xA3, 0x12, 0x92, 0x26, 0xA6, 0x19, 0x99, 0x1C] {
        last = keyboard_interrupt_handler(
            &mut keyboard, &mut terminals, &mut w, &mut shell, &mut input, &mut len, &pics, code,
        )
        .0;
    }
    assert_eq!(last, Some(Command::Help));
}

#[test]
fn decoder_follows_layout_shift_and_repeats() {
    let mut k = Keyboard::new();
    assert_eq!(k.read(0x10), Some('q'));
    assert_eq!(k.read(0x10), None);
    assert_eq!(k.read(0x90), None);
    assert_eq!(k.read(0x10), Some('q'));
    assert_eq!(k.read(0x36), None);
    assert!(k.shift_pressed);
    assert_eq!(k.read(0x02), Some('!'));
    assert_eq!(k.read(0xB6), None);
    assert!(!k.shift_pressed);
    assert_eq!(k.read(0x02), Some('1'));
    assert_eq!(k.read(0x1C), Some('\n'));
    assert_eq!(k.read(0x0E), Some('\x7f'));
    assert_eq!(k.read(0x3B), Some('\x01'));
    assert_eq!(k.read(0x3C), Some('\x02'));
    assert_eq!(k.read(0x01), None);
    k.toggle_keymap();
    assert_eq!(k.keymap, Keymap::FR);
    assert_eq!(k.read(0x10), Some('a'));
    assert_eq!(k.read(0x03), Some('\u{e9}'));
    assert_eq!(k.read(0x2A), None);
    assert_eq!(k.read(0x03), Some('2'));
    assert_eq!(k.read(0x0C), Some('\u{b0}'));
    k.toggle_keymap();
    assert_eq!(k.keymap, Keymap::EN);
}

#[test]
fn scancode_tables() {
    assert_eq!(to_ascii(0x1E), Some('a'));
    assert_eq!(to_shift_ascii(0x1E), Some('A'));
    assert_eq!(to_ascii(0x39), Some(' '));
    assert_eq!(to_ascii(0x2B), Some('\\'));
    assert_eq!(to_shift_ascii(0x28), Some('"'));
    assert_eq!(to_ascii(0x00), None);
    assert_eq!(to_ascii(0x80), None);
    assert_eq!(to_ascii_fr(0x1E), Some('q'));
    assert_eq!(to_ascii_fr(0x0B), Some('\u{e0}'));
    assert_eq!(to_shift_ascii_fr(0x1B), Some('\u{a3}'));
    assert_eq!(to_shift_ascii_fr(0x39), None);
    let mut shift = false;
    assert_eq!(plain::read(&mut shift, 0x1E), Some('a'));
    assert_eq!(plain::read(&mut shift, 0x1E), Some('a'));
    assert_eq!(plain::read(&mut shift, 0x2A), None);
    assert!(shift);
    assert_eq!(plain::read(&mut shift, 0x1E), Some('A'));
    assert_eq!(plain::read(&mut shift, 0xAA), None);
    assert!(!shift);
    assert_eq!(plain::read(&mut shift, 0x9E), None);
    assert_eq!(
        plain::init(),
        [PortWrite { port: 0x64, value: 0xAE }, PortWrite { port: 0x60, value: 0xF4 }]
    );
    assert!(plain::output_buffer_full(0x01) && !plain::output_buffer_full(0x02));
}

#[test]
fn questions_and_pages() {
    assert_eq!(confirm(Some('y')), Some(true));
    assert_eq!(confirm(Some('n')), Some(false));
    assert_eq!(confirm(Some('x')), None);
    assert_eq!(confirm(None), None);
    assert_eq!(pager_key(Some('\n')), PagerKey::Continue);
    assert_eq!(pager_key(Some('x')), PagerKey::Quit);
    assert_eq!(pager_key(Some('y')), PagerKey::Wait);
    assert_eq!(pager_key(None), PagerKey::Wait);
    let mut pager = Pager::new();
    for _ in 0..23 {
        assert!(!pager.line());
    }
    assert!(pager.line());
    assert_eq!(pager.line_count, 0);
    assert_eq!(stack_extent(0x9000, 0x9100), (0x9000, 0x100));
    assert_eq!(stack_extent(0x9100, 0x9000), (0x9000, 0x100));
    assert_eq!(stack_extent(5, 5), (5, 0));
}

#[test]
fn bitmap_listing_shows_used_frames_or_all() {
    let mut pm = PhysicalMemory::new();
    pm.alloc_frame_address(0).unwrap();
    pm.alloc_frame_address(0xB8000).unwrap();
    assert_eq!(next_listed_frame(&pm, 0, false), Some(0));
    assert_eq!(next_listed_frame(&pm, 1, false), Some(0xB8));
    assert_eq!(next_listed_frame(&pm, 0xB9, false), None);
    assert_eq!(next_listed_frame(&pm, 1, true), Some(1));
    assert_eq!(next_listed_frame(&pm, 0xFFFFF, true), Some(0xFFFFF));
    assert_eq!(next_listed_frame(&pm, 0x100000, true), None);
}

#[test]
fn hexdump_line_format() {
    assert_eq!(String::from_utf8(format_address(0x9000)).unwrap(), "0x009000");
    assert_eq!(String::from_utf8(format_address(0)).unwrap(), "0x000000");
    assert_eq!(String::from_utf8(format_address(0xABCDEF)).unwrap(), "0xabcdef");
    assert_eq!(String::from_utf8(format_address(0x12345678)).unwrap(), "0x12345678");
    let line = format_line(0x9000, b"Hello, world!\x00\x7f\xff");
    assert_eq!(
        String::from_utf8(line).unwrap(),
        "0x009000:  48 65 6c 6c 6f 2c 20 77 6f 72 6c 64 21 00 7f ff  |Hello, world!...|"
    );
    let short = format_line(0x10, b"ab");
    assert_eq!(
        String::from_utf8(short).unwrap(),
        format!("0x000010:  61 62 {} |ab|", "   ".repeat(14))
    );
    assert!(is_all_zero(&[0, 0, 0]));
    assert!(is_all_zero(&[]));
    assert!(!is_all_zero(&[0, 1, 0]));
    assert!(valid_size(1) && !valid_size(0) && !valid_size(-4));
}

#[test]
fn hexdump_skips_zero_lines_and_stops_at_a_full_page() {
    let mut data = vec![0u8; 16 * 40];
    for line in 0..40 {
        if line != 1 {
            data[16 * line] = line as u8 + 1;
        }
    }
    let mut w = Writer::new();
    let next = print(&mut w, &data, 0x1000, 0);
    // 24 lines were shown; line 1 is all zero and does not count.
    assert_eq!(next, 16 * 25);
    assert!(row(&w, 23).starts_with("0x001180:  19 00"));
    assert!(row(&w, 0).starts_with("0x001000:  01 00"));
    assert!(row(&w, 1).starts_with("0x001020:  03 00"));
    let mut w = Writer::new();
    let end = print(&mut w, &data, 0x1000, next);
    assert_eq!(end, data.len());
    assert!(row(&w, 23).starts_with("0x001270:  28 00"));
    let mut w = Writer::new();
    assert_eq!(print(&mut w, &data[..20], 0x1000, 0), 20);
    // The second line, four bytes of zero, is left out.
    assert_eq!(
        row(&w, 23),
        "0x001000:  01 00 00 00 00 00 00 00 00 00 00 00 00 00 00 00  |................|"
    );
    assert_eq!(row(&w, 22), "");
    assert_eq!(row(&w, 24), "");
    assert_eq!(w.column(), 0);
}

#[test]
fn bitmap_listing_shows_a_word_ahead_of_its_first_frame() {
    assert!(kfs::io::shell::begins_entry(0, true));
    assert!(kfs::io::shell::begins_entry(64, true));
    assert!(!kfs::io::shell::begins_entry(65, true));
    assert!(!kfs::io::shell::begins_entry(31, true));
    assert!(!kfs::io::shell::begins_entry(0, false));
    assert!(!kfs::io::shell::begins_entry(64, false));
}
