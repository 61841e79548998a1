//! The shell: what a line of input asks for, and the editing of the
//! line while it is typed.
//!
//! Carrying a command out is the caller's part: the shell says which
//! command a line names and keeps the screen and the two line buffers.

use vstd::prelude::*;
use vstd::slice::slice_subrange;
use crate::io::keyboard::{Keyboard, SWITCH_TO_FIRST, SWITCH_TO_SECOND, advanced, decoded};
use crate::memory::physicalmemory::{PhysicalMemory, N_FRAMES};
use crate::sys::pic::{ChainedPics, PortWrite, end_of_interrupt_writes};
use crate::io::vga_buffer::{Screen, Terminals, Writer, string_written, BUFFER_WIDTH};
use crate::sys::string::{decimal, is_digit, lemma_decimal_prefix};

verus! {

/// How many bytes a line of input holds at most.
pub const INPUT_SIZE: usize = 77;

/// How many blanks a tab puts out.
pub const TAB_SIZE: usize = 4;

/// What a line of input asks for.
#[derive(Debug, Clone, Copy, PartialEq, Eq, Structural)]
pub enum Command {
    Clear,
    Reboot,
    Stack,
    Halt,
    /// The frame bitmap; with `true`, free frames are listed too.
    Bitmap(bool),
    Keymap,
    Help,
    Uptime,
    /// The software interrupt with the given number.
    Interrupt(u8),
    /// `interrupt` with what is no number from 0 to 255.
    InvalidInterrupt,
    /// No command of this name.
    NotFound,
    /// The line is no UTF-8 text.
    NotUtf8,
}

/// The bytes `$> ` of the prompt.
pub open spec fn prompt() -> Seq<u8> {
    seq!['$' as u8, '>' as u8, ' ' as u8]
}

/// The bytes of `interrupt `, with the blank.
pub open spec fn interrupt_prefix() -> Seq<u8> {
    seq!['i' as u8, 'n' as u8, 't' as u8, 'e' as u8, 'r' as u8, 'r' as u8, 'u' as u8, 'p' as u8, 't' as u8, ' ' as u8]
}

/// Whether every byte is a decimal digit.
pub open spec fn all_digits(digits: Seq<u8>) -> bool {
    forall|i: int| 0 <= i < digits.len() ==> is_digit(#[trigger] digits[i])
}

/// A text without its plus sign, if it starts with one.
pub open spec fn unsigned_part(text: Seq<u8>) -> Seq<u8> {
    if text.len() > 0 && text[0] == '+' as u8 {
        text.subrange(1, text.len() as int)
    } else {
        text
    }
}

/// The number that a text names as `u8`: an optional plus sign and then
/// digits, at least one, whose value is 255 at most.
pub open spec fn parsed_u8(text: Seq<u8>) -> Option<u8> {
    let digits = unsigned_part(text);
    if digits.len() > 0 && all_digits(digits) && decimal(digits) <= 255 {
        Some(decimal(digits) as u8)
    } else {
        None
    }
}

/// The command that a line names.
///
/// A line that is no UTF-8 text names none. The commands without
/// argument are named by their exact text. A line that starts with
/// `interrupt ` names the software interrupt whose number follows.
pub open spec fn command_of(input: Seq<u8>) -> Command {
    if !vstd::utf8::valid_utf8(input) {
        Command::NotUtf8
    } else if input == seq!['c' as u8, 'l' as u8, 'e' as u8, 'a' as u8, 'r' as u8] {
        Command::Clear
    } else if input == seq!['r' as u8, 'e' as u8, 'b' as u8, 'o' as u8, 'o' as u8, 't' as u8] {
        Command::Reboot
    } else if input == seq!['s' as u8, 't' as u8, 'a' as u8, 'c' as u8, 'k' as u8] {
        Command::Stack
    } else if input == seq!['h' as u8, 'a' as u8, 'l' as u8, 't' as u8] {
        Command::Halt
    } else if input == seq!['b' as u8, 'i' as u8, 't' as u8, 'm' as u8, 'a' as u8, 'p' as u8] {
        Command::Bitmap(false)
    } else if input == seq!['b' as u8, 'i' as u8, 't' as u8, 'm' as u8, 'a' as u8, 'p' as u8, ' ' as u8, '-' as u8, '-' as u8, 'a' as u8, 'l' as u8, 'l' as u8] {
        Command::Bitmap(true)
    } else if input == seq!['k' as u8, 'e' as u8, 'y' as u8, 'm' as u8, 'a' as u8, 'p' as u8] {
        Command::Keymap
    } else if input == seq!['h' as u8, 'e' as u8, 'l' as u8, 'p' as u8] {
        Command::Help
    } else if input == seq!['u' as u8, 'p' as u8, 't' as u8, 'i' as u8, 'm' as u8, 'e' as u8] {
        Command::Uptime
    } else if input.len() >= 10 && input.subrange(0, 10) == interrupt_prefix() {
        match parsed_u8(input.subrange(10, input.len() as int)) {
            Some(number) => Command::Interrupt(number),
            None => Command::InvalidInterrupt,
        }
    } else {
        Command::NotFound
    }
}

/// `core::str::from_utf8`: whether the bytes are valid UTF-8.
#[verifier::external_body]
fn is_utf8(input: &[u8]) -> (valid: bool)
    ensures
        valid == vstd::utf8::valid_utf8(input@),
{
    core::str::from_utf8(input).is_ok()
}

/// Whether two byte strings are the same.
pub fn same_bytes(input: &[u8], word: &[u8]) -> (same: bool)
    ensures
        same == (input@ == word@),
{
    if input.len() != word.len() {
        return false;
    }
    let mut i: usize = 0;
    while i < word.len()
        invariant
            i <= word@.len(),
            input@.len() == word@.len(),
            forall|j: int| 0 <= j < i ==> input@[j] == word@[j],
        decreases word@.len() - i,
    {
        if input[i] != word[i] {
            return false;
        }
        i += 1;
    }
    assert(input@ =~= word@);
    true
}

/// Reads a number from 0 to 255.
pub fn parse_u8(text: &[u8]) -> (number: Option<u8>)
    ensures
        number == parsed_u8(text@),
{
    let start: usize = if text.len() > 0 && text[0] == '+' as u8 {
        1
    } else {
        0
    };
    let digits = slice_subrange(text, start, text.len());
    proof {
        if start == 0 {
            assert(digits@ =~= text@);
        }
    }
    if digits.len() == 0 {
        return None;
    }
    let mut value: u16 = 0;
    let mut i: usize = 0;
    while i < digits.len()
        invariant
            i <= digits@.len(),
            digits@.len() > 0,
            digits@ == unsigned_part(text@),
            forall|j: int| 0 <= j < i ==> is_digit(#[trigger] digits@[j]),
            value == decimal(digits@.take(i as int)),
            value <= 255,
        decreases digits@.len() - i,
    {
        let ch = digits[i];
        if !(ch >= 0x30 && ch <= 0x39) {
            proof {
                assert(!is_digit(digits@[i as int]));
            }
            return None;
        }
        proof {
            assert(digits@.take(i + 1).drop_last() =~= digits@.take(i as int));
            assert(digits@.take(i + 1).last() == ch);
            assert(decimal(digits@.take(i + 1)) == value * 10 + (ch - 0x30));
        }
        let next = value * 10 + (ch - 0x30) as u16;
        if next > 255 {
            proof {
                if all_digits(digits@) {
                    lemma_decimal_prefix(digits@, i + 1);
                }
            }
            return None;
        }
        value = next;
        i += 1;
    }
    proof {
        assert(digits@.take(i as int) =~= digits@);
    }
    Some(value as u8)
}

/// The command that a line names.
pub fn execute_command(input: &[u8]) -> (command: Command)
    ensures
        command == command_of(input@),
{
    if !is_utf8(input) {
        return Command::NotUtf8;
    }
    let word: [u8; 5] = ['c' as u8, 'l' as u8, 'e' as u8, 'a' as u8, 'r' as u8];
    if same_bytes(input, &word) {
        return Command::Clear;
    }
    let word: [u8; 6] = ['r' as u8, 'e' as u8, 'b' as u8, 'o' as u8, 'o' as u8, 't' as u8];
    if same_bytes(input, &word) {
        return Command::Reboot;
    }
    let word: [u8; 5] = ['s' as u8, 't' as u8, 'a' as u8, 'c' as u8, 'k' as u8];
    if same_bytes(input, &word) {
        return Command::Stack;
    }
    let word: [u8; 4] = ['h' as u8, 'a' as u8, 'l' as u8, 't' as u8];
    if same_bytes(input, &word) {
        return Command::Halt;
    }
    let word: [u8; 6] = ['b' as u8, 'i' as u8, 't' as u8, 'm' as u8, 'a' as u8, 'p' as u8];
    if same_bytes(input, &word) {
        return Command::Bitmap(false);
    }
    let word: [u8; 12] = ['b' as u8, 'i' as u8, 't' as u8, 'm' as u8, 'a' as u8, 'p' as u8, ' ' as u8, '-' as u8, '-' as u8, 'a' as u8, 'l' as u8, 'l' as u8];
    if same_bytes(input, &word) {
        return Command::Bitmap(true);
    }
    let word: [u8; 6] = ['k' as u8, 'e' as u8, 'y' as u8, 'm' as u8, 'a' as u8, 'p' as u8];
    if same_bytes(input, &word) {
        return Command::Keymap;
    }
    let word: [u8; 4] = ['h' as u8, 'e' as u8, 'l' as u8, 'p' as u8];
    if same_bytes(input, &word) {
        return Command::Help;
    }
    let word: [u8; 6] = ['u' as u8, 'p' as u8, 't' as u8, 'i' as u8, 'm' as u8, 'e' as u8];
    if same_bytes(input, &word) {
        return Command::Uptime;
    }
    let prefix: [u8; 10] = ['i' as u8, 'n' as u8, 't' as u8, 'e' as u8, 'r' as u8, 'r' as u8, 'u' as u8, 'p' as u8, 't' as u8, ' ' as u8];
    if input.len() >= 10 && same_bytes(slice_subrange(input, 0, 10), &prefix) {
        return match parse_u8(slice_subrange(input, 10, input.len())) {
            Some(number) => Command::Interrupt(number),
            None => Command::InvalidInterrupt,
        };
    }
    Command::NotFound
}

/// What a key means where the shell waits for yes or no: `y` is yes, `n`
/// is no, every other key leaves the question open.
pub fn confirm(key: Option<char>) -> (answer: Option<bool>)
    ensures
        answer == match key {
            Some(c) => if c == 'y' {
                Some(true)
            } else if c == 'n' {
                Some(false)
            } else {
                None
            },
            None => None,
        },
{
    match key {
        Some(c) => if c == 'y' {
            Some(true)
        } else if c == 'n' {
            Some(false)
        } else {
            None
        },
        None => None,
    }
}

/// What a key means where a listing waits at the end of a page.
#[derive(Debug, Clone, Copy, PartialEq, Eq, Structural)]
pub enum PagerKey {
    /// Enter: the next page.
    Continue,
    /// `x`: the listing ends.
    Quit,
    /// Any other key: the listing goes on waiting.
    Wait,
}

pub fn pager_key(key: Option<char>) -> (meaning: PagerKey)
    ensures
        meaning == match key {
            Some(c) => if c == '\n' {
                PagerKey::Continue
            } else if c == 'x' {
                PagerKey::Quit
            } else {
                PagerKey::Wait
            },
            None => PagerKey::Wait,
        },
{
    match key {
        Some(c) => if c == '\n' {
            PagerKey::Continue
        } else if c == 'x' {
            PagerKey::Quit
        } else {
            PagerKey::Wait
        },
        None => PagerKey::Wait,
    }
}

/// How many lines fit a page of a listing.
pub const PAGE_LINES: usize = 24;

/// Counts the lines of a listing and says when a page is full.
#[derive(Debug, Clone, Copy, PartialEq, Eq, Structural)]
pub struct Pager {
    pub line_count: usize,
}

impl Pager {
    pub fn new() -> (pager: Pager)
        ensures
            pager.line_count == 0,
    {
        Pager { line_count: 0 }
    }

    /// Counts one line. Returns whether the page is full with it; the
    /// count then starts over.
    pub fn line(&mut self) -> (full: bool)
        requires
            old(self).line_count < PAGE_LINES,
        ensures
            full == (old(self).line_count + 1 == PAGE_LINES),
            final(self).line_count == if full {
                0
            } else {
                old(self).line_count + 1
            },
            final(self).line_count < PAGE_LINES,
    {
        self.line_count += 1;
        if self.line_count == PAGE_LINES {
            self.line_count = 0;
            true
        } else {
            false
        }
    }
}

/// Where the stack lies and how many bytes it has, from the stack pointer
/// and the base pointer: from the lower of the two up to the higher.
pub fn stack_extent(stack_pointer: usize, base_pointer: usize) -> (extent: (usize, usize))
    ensures
        extent.0 == if stack_pointer > base_pointer {
            base_pointer
        } else {
            stack_pointer
        },
        extent.1 == if stack_pointer > base_pointer {
            stack_pointer - base_pointer
        } else {
            base_pointer - stack_pointer
        },
{
    if stack_pointer > base_pointer {
        (base_pointer, stack_pointer - base_pointer)
    } else {
        (stack_pointer, base_pointer - stack_pointer)
    }
}

/// The bytes that the screen is given for a character: its UTF-8 form.
pub open spec fn echo_bytes(c: char) -> Seq<u8> {
    let code = c as u32;
    if code < 0x80 {
        seq![code as u8]
    } else if code < 0x800 {
        seq![(0xC0 + code / 0x40) as u8, (0x80 + code % 0x40) as u8]
    } else if code < 0x1_0000 {
        seq![
            (0xE0 + code / 0x1000) as u8,
            (0x80 + code / 0x40 % 0x40) as u8,
            (0x80 + code % 0x40) as u8,
        ]
    } else {
        seq![
            (0xF0 + code / 0x4_0000) as u8,
            (0x80 + code / 0x1000 % 0x40) as u8,
            (0x80 + code / 0x40 % 0x40) as u8,
            (0x80 + code % 0x40) as u8,
        ]
    }
}

/// The screen after the bytes of a line from `index` on were shown again,
/// each as the character of its number.
pub open spec fn line_shown(screen: Screen, line: Seq<u8>, index: int) -> Screen
    decreases line.len() - index,
{
    if index >= line.len() {
        screen
    } else {
        line_shown(string_written(screen, echo_bytes(line[index] as char), 0), line, index + 1)
    }
}

/// Shows a character on the screen.
pub fn echo(writer: &mut Writer, c: char)
    requires
        old(writer).wf(),
    ensures
        final(writer).wf(),
        final(writer)@ == string_written(old(writer)@, echo_bytes(c), 0),
{
    let code = c as u32;
    if code < 0x80 {
        let bytes: [u8; 1] = [code as u8];
        assert(bytes@ =~= echo_bytes(c));
        writer.write_bytes(&bytes);
    } else if code < 0x800 {
        let bytes: [u8; 2] = [(0xC0 + code / 0x40) as u8, (0x80 + code % 0x40) as u8];
        assert(bytes@ =~= echo_bytes(c));
        writer.write_bytes(&bytes);
    } else if code < 0x1_0000 {
        let bytes: [u8; 3] = [
            (0xE0 + code / 0x1000) as u8,
            (0x80 + code / 0x40 % 0x40) as u8,
            (0x80 + code % 0x40) as u8,
        ];
        assert(bytes@ =~= echo_bytes(c));
        writer.write_bytes(&bytes);
    } else {
        let bytes: [u8; 4] = [
            (0xF0 + code / 0x4_0000) as u8,
            (0x80 + code / 0x1000 % 0x40) as u8,
            (0x80 + code / 0x40 % 0x40) as u8,
            (0x80 + code % 0x40) as u8,
        ];
        assert(bytes@ =~= echo_bytes(c));
        writer.write_bytes(&bytes);
    }
}

/// The shell's memory of the two virtual terminals: the line that each
/// had when it was left, and which one is in use.
pub struct Shell {
    last_input1: [u8; INPUT_SIZE],
    last_len1: usize,
    last_input2: [u8; INPUT_SIZE],
    last_len2: usize,
    current_shell: u8,
}

impl Shell {
    /// No kept line is longer than a line can be.
    pub closed spec fn wf(&self) -> bool {
        self.last_len1 <= INPUT_SIZE && self.last_len2 <= INPUT_SIZE
    }

    /// The number of the shell in use.
    pub closed spec fn current(&self) -> u8 {
        self.current_shell
    }

    /// The line kept for a shell; shell 1 is number 1, every other number
    /// is shell 2.
    pub closed spec fn kept(&self, shell: u8) -> Seq<u8> {
        if shell == 1 {
            self.last_input1@.take(self.last_len1 as int)
        } else {
            self.last_input2@.take(self.last_len2 as int)
        }
    }

    /// Shell 1 in use, no line kept.
    pub fn new() -> (shell: Shell)
        ensures
            shell.wf(),
            shell.current() == 1,
            shell.kept(1).len() == 0,
            shell.kept(2).len() == 0,
    {
        Shell {
            last_input1: [0u8; INPUT_SIZE],
            last_len1: 0,
            last_input2: [0u8; INPUT_SIZE],
            last_len2: 0,
            current_shell: 1,
        }
    }

    /// Shows the prompt.
    pub fn display_prompt(&self, writer: &mut Writer)
        requires
            old(writer).wf(),
        ensures
            final(writer).wf(),
            final(writer)@ == string_written(old(writer)@, prompt(), 0),
    {
        let text: [u8; 3] = ['$' as u8, '>' as u8, ' ' as u8];
        assert(text@ =~= prompt());
        writer.write_bytes(&text);
    }

    /// What `switch_shell` leaves when it changes the shell: the line at
    /// hand is kept for the shell that is left, the line kept for the
    /// shell that comes is at hand, and on the screen the column went
    /// back by the old line and the prompt, before the prompt and the new
    /// line were shown.
    pub open spec fn shell_switched(
        &self,
        writer: Screen,
        input: Seq<u8>,
        len: usize,
        post: &Shell,
        post_writer: Screen,
        post_input: Seq<u8>,
        post_len: usize,
        new_shell: u8,
    ) -> bool {
        let back = Screen {
            column: if writer.column >= len + 3 {
                (writer.column - len - 3) as usize
            } else {
                0
            },
            ..writer
        };
        let line = self.kept(new_shell);
        &&& post.current() == new_shell
        &&& post.kept(self.current()) == input.take(len as int)
        &&& (new_shell == 1) != (self.current() == 1) ==> post.kept(new_shell) == line
        &&& post_len == post.kept(new_shell).len()
        &&& post_input.len() == INPUT_SIZE
        &&& post_input.take(post_len as int) == post.kept(new_shell)
        &&& forall|i: int| post_len <= i < INPUT_SIZE ==> post_input[i] == input[i]
        &&& post_writer == line_shown(
            string_written(back, prompt(), 0),
            post.kept(new_shell),
            0,
        )
    }

    /// Changes to shell `new_shell`, unless it is in use already.
    pub fn switch_shell(
        &mut self,
        writer: &mut Writer,
        new_shell: u8,
        input: &mut [u8; INPUT_SIZE],
        len: &mut usize,
    )
        requires
            old(self).wf(),
            old(writer).wf(),
            *old(len) <= INPUT_SIZE,
        ensures
            final(self).wf(),
            final(writer).wf(),
            *final(len) <= INPUT_SIZE,
            if old(self).current() == new_shell {
                *final(self) == *old(self) && *final(writer) == *old(writer) && *final(input) == *old(
                    input,
                ) && *final(len) == *old(len)
            } else {
                old(self).shell_switched(
                    old(writer)@,
                    old(input)@,
                    *old(len),
                    final(self),
                    final(writer)@,
                    final(input)@,
                    *final(len),
                    new_shell,
                )
            },
    {
        if self.current_shell == new_shell {
            return ;
        }
        let count = *len;
        let mut i: usize = 0;
        if self.current_shell == 1 {
            while i < count
                invariant
                    i <= count <= INPUT_SIZE,
                    self.current_shell == old(self).current_shell,
                    self.last_input2 == old(self).last_input2,
                    self.last_len2 == old(self).last_len2,
                    *input == *old(input),
                    forall|j: int| 0 <= j < i ==> self.last_input1@[j] == input@[j],
                decreases count - i,
            {
                self.last_input1[i] = input[i];
                i += 1;
            }
            self.last_len1 = count;
        } else {
            while i < count
                invariant
                    i <= count <= INPUT_SIZE,
                    self.current_shell == old(self).current_shell,
                    self.last_input1 == old(self).last_input1,
                    self.last_len1 == old(self).last_len1,
                    *input == *old(input),
                    forall|j: int| 0 <= j < i ==> self.last_input2@[j] == input@[j],
                decreases count - i,
            {
                self.last_input2[i] = input[i];
                i += 1;
            }
            self.last_len2 = count;
        }
        proof {
            assert(self.kept(old(self).current()) =~= old(input)@.take(count as int));
        }
        writer.retreat(count + 3);
        let restored = if new_shell == 1 {
            self.last_len1
        } else {
            self.last_len2
        };
        let ghost line = self.kept(new_shell);
        i = 0;
        while i < restored
            invariant
                i <= restored <= INPUT_SIZE,
                line == self.kept(new_shell),
                line.len() == restored,
                self.last_len1 <= INPUT_SIZE,
                self.last_len2 <= INPUT_SIZE,
                restored == if new_shell == 1 {
                    self.last_len1
                } else {
                    self.last_len2
                },
                forall|j: int| 0 <= j < i ==> input@[j] == line[j],
                forall|j: int| i <= j < INPUT_SIZE ==> input@[j] == old(input)@[j],
            decreases restored - i,
        {
            proof {
                assert(line[i as int] == if new_shell == 1 {
                    self.last_input1@[i as int]
                } else {
                    self.last_input2@[i as int]
                });
            }
            input[i] = if new_shell == 1 {
                self.last_input1[i]
            } else {
                self.last_input2[i]
            };
            i += 1;
        }
        *len = restored;
        self.current_shell = new_shell;
        proof {
            assert(input@.take(restored as int) =~= line);
            assert(self.kept(new_shell) == line);
        }
        self.display_prompt(writer);
        let ghost start = writer@;
        i = 0;
        while i < restored
            invariant
                i <= restored <= INPUT_SIZE,
                writer.wf(),
                line.len() == restored,
                input@.take(restored as int) == line,
                line_shown(start, line, 0) == line_shown(writer@, line, i as int),
            decreases restored - i,
        {
            let byte = input[i];
            proof {
                assert(line[i as int] == byte);
            }
            echo(writer, byte as char);
            i += 1;
        }
    }

    /// The contract of `read_input`.
    ///
    /// Enter ends the line: a line feed goes to the screen, the line names
    /// the command, and the next line starts empty. Backspace takes the
    /// last byte of the line back, on the screen too. A tab shows four
    /// blanks. The two switch keys change the shell. Every other key
    /// joins the line as the low byte of its number and is shown, unless
    /// the line is full.
    pub open spec fn read_input_post(
        &self,
        writer: Screen,
        input: Seq<u8>,
        len: usize,
        post: &Shell,
        post_writer: Screen,
        post_input: Seq<u8>,
        post_len: usize,
        key: Option<char>,
        command: Option<Command>,
    ) -> bool {
        let same_shell = *post == *self;
        match key {
            None => same_shell && post_writer == writer && post_input == input && post_len == len
                && command is None,
            Some(c) => if c == '\n' {
                &&& same_shell
                &&& post_writer == string_written(writer, seq![0x0Au8], 0)
                &&& post_input == input
                &&& post_len == 0
                &&& command == Some(command_of(input.take(len as int)))
            } else if c == '\x7f' {
                &&& same_shell
                &&& command is None
                &&& if len > 0 {
                    &&& post_len == len - 1
                    &&& post_input == input.update(len - 1, 0)
                    &&& post_writer == string_written(writer, seq![0x7Fu8], 0)
                } else {
                    post_len == len && post_input == input && post_writer == writer
                }
            } else if c == '\x09' {
                &&& same_shell
                &&& command is None
                &&& post_len == len
                &&& post_input == input
                &&& post_writer == string_written(writer, seq![0x20u8, 0x20u8, 0x20u8, 0x20u8], 0)
            } else if c == SWITCH_TO_FIRST || c == SWITCH_TO_SECOND {
                let new_shell = if c == SWITCH_TO_FIRST {
                    1u8
                } else {
                    2u8
                };
                &&& command is None
                &&& if self.current() == new_shell {
                    same_shell && post_writer == writer && post_input == input && post_len == len
                } else {
                    self.shell_switched(
                        writer,
                        input,
                        len,
                        post,
                        post_writer,
                        post_input,
                        post_len,
                        new_shell,
                    )
                }
            } else {
                &&& same_shell
                &&& command is None
                &&& if len < INPUT_SIZE {
                    &&& post_len == len + 1
                    &&& post_input == input.update(len as int, (c as u32 % 0x100) as u8)
                    &&& post_writer == string_written(writer, echo_bytes(c), 0)
                } else {
                    post_len == len && post_input == input && post_writer == writer
                }
            },
        }
    }

    /// Takes one key into the line that is being typed.
    pub fn read_input(
        &mut self,
        writer: &mut Writer,
        input: &mut [u8; INPUT_SIZE],
        len: &mut usize,
        key: Option<char>,
    ) -> (command: Option<Command>)
        requires
            old(self).wf(),
            old(writer).wf(),
            *old(len) <= INPUT_SIZE,
        ensures
            final(self).wf(),
            final(writer).wf(),
            *final(len) <= INPUT_SIZE,
            old(self).read_input_post(
                old(writer)@,
                old(input)@,
                *old(len),
                final(self),
                final(writer)@,
                final(input)@,
                *final(len),
                key,
                command,
            ),
    {
        let c = match key {
            Some(c) => c,
            None => {
                return None;
            },
        };
        if c == '\n' {
            let feed: [u8; 1] = [0x0A];
            assert(feed@ =~= seq![0x0Au8]);
            writer.write_bytes(&feed);
            let line = slice_subrange(input.as_slice(), 0, *len);
            let command = execute_command(line);
            proof {
                assert(line@ =~= old(input)@.take(*old(len) as int));
            }
            *len = 0;
            Some(command)
        } else if c == '\x7f' {
            if *len > 0 {
                *len -= 1;
                input[*len] = 0;
                let delete: [u8; 1] = [0x7F];
                assert(delete@ =~= seq![0x7Fu8]);
                writer.write_bytes(&delete);
            }
            None
        } else if c == '\x09' {
            let blanks: [u8; 4] = [0x20, 0x20, 0x20, 0x20];
            assert(blanks@ =~= seq![0x20u8, 0x20u8, 0x20u8, 0x20u8]);
            writer.write_bytes(&blanks);
            None
        } else if c == SWITCH_TO_FIRST {
            self.switch_shell(writer, 1, input, len);
            None
        } else if c == SWITCH_TO_SECOND {
            self.switch_shell(writer, 2, input, len);
            None
        } else {
            if *len < INPUT_SIZE {
                let code = c as u32;
                input[*len] = (code % 0x100) as u8;
                *len += 1;
                echo(writer, c);
            }
            None
        }
    }
}

/// What a switch key does: terminal `number` comes onto the screen by
/// the contract of `Terminals::switch`, and on the screen that this
/// leaves the shell of that number takes over the line by the contract
/// of `read_input`.
pub open spec fn switch_key_post(
    terminals: &Terminals,
    shell: &Shell,
    screen: Screen,
    input: Seq<u8>,
    len: usize,
    post_terminals: &Terminals,
    post_shell: &Shell,
    post_screen: Screen,
    post_input: Seq<u8>,
    post_len: usize,
    key: char,
    number: u8,
) -> bool {
    exists|shown: Screen|
        {
            &&& #[trigger] terminals.switch_post(screen, post_terminals, shown, number)
            &&& shell.read_input_post(
                shown,
                input,
                len,
                post_shell,
                post_screen,
                post_input,
                post_len,
                Some(key),
                None,
            )
        }
}

/// What the keyboard interrupt does with the scancode that was read from
/// the data port: the key is decoded; a switch key brings its virtual
/// terminal onto the screen; the key goes into the line; and the
/// interrupt is acknowledged at the controllers. Returns the command to
/// carry out, if the key ended a line, and the writes of the
/// acknowledgement, which the caller issues.
pub fn keyboard_interrupt_handler(
    keyboard: &mut Keyboard,
    terminals: &mut Terminals,
    writer: &mut Writer,
    shell: &mut Shell,
    input: &mut [u8; INPUT_SIZE],
    len: &mut usize,
    pics: &ChainedPics,
    scancode: u8,
) -> (r: (Option<Command>, Vec<PortWrite>))
    requires
        old(terminals).wf(),
        old(writer).wf(),
        old(shell).wf(),
        *old(len) <= INPUT_SIZE,
    ensures
        final(terminals).wf(),
        final(writer).wf(),
        final(shell).wf(),
        *final(len) <= INPUT_SIZE,
        *final(keyboard) == advanced(*old(keyboard), scancode),
        r.1@ == end_of_interrupt_writes(*pics, 0x21),
        r.0 == if decoded(*old(keyboard), scancode) == Some('\n') {
            Some(command_of(old(input)@.take(*old(len) as int)))
        } else {
            None
        },
        match decoded(*old(keyboard), scancode) {
            Some(c) => if c == SWITCH_TO_FIRST || c == SWITCH_TO_SECOND {
                let number = if c == SWITCH_TO_FIRST {
                    1u8
                } else {
                    2u8
                };
                &&& final(terminals).current() == number
                &&& final(shell).current() == number
                &&& switch_key_post(
                    old(terminals),
                    old(shell),
                    old(writer)@,
                    old(input)@,
                    *old(len),
                    final(terminals),
                    final(shell),
                    final(writer)@,
                    final(input)@,
                    *final(len),
                    c,
                    number,
                )
            } else {
                *final(terminals) == *old(terminals) && old(shell).read_input_post(
                    old(writer)@,
                    old(input)@,
                    *old(len),
                    final(shell),
                    final(writer)@,
                    final(input)@,
                    *final(len),
                    Some(c),
                    r.0,
                )
            },
            None => {
                &&& *final(terminals) == *old(terminals)
                &&& *final(shell) == *old(shell)
                &&& final(writer)@ == old(writer)@
                &&& final(input)@ == old(input)@
                &&& *final(len) == *old(len)
            },
        },
{
    let key = keyboard.read(scancode);
    match key {
        Some(c) => {
            if c == SWITCH_TO_FIRST {
                terminals.switch(writer, 1);
            } else if c == SWITCH_TO_SECOND {
                terminals.switch(writer, 2);
            }
        },
        None => {},
    }
    let command = shell.read_input(writer, input, len, key);
    let writes = pics.notify_end_of_interrupt(0x21);
    (command, writes)
}

/// Whether the listing of the bitmap shows a frame: every frame with
/// `all_flag`, else the frames in use.
pub open spec fn is_listed(bitmap: &PhysicalMemory, frame: int, all_flag: bool) -> bool {
    0 <= frame < N_FRAMES && (all_flag || bitmap@.contains(frame))
}

/// Whether the listing of the bitmap shows the word of `frame` before
/// the frame itself: with `all_flag`, ahead of the first frame of every
/// word.
pub fn begins_entry(frame: usize, all_flag: bool) -> (shown: bool)
    ensures
        shown == (all_flag && frame % 32 == 0),
{
    all_flag && frame % 32 == 0
}

/// The first frame from `from` on that the listing of the bitmap shows.
pub fn next_listed_frame(bitmap: &PhysicalMemory, from: usize, all_flag: bool) -> (next: Option<
    usize,
>)
    ensures
        match next {
            Some(frame) => from <= frame && is_listed(bitmap, frame as int, all_flag) && forall|
                f: int,
            |
                from <= f < frame ==> !is_listed(bitmap, f, all_flag),
            None => forall|f: int| from <= f ==> !is_listed(bitmap, f, all_flag),
        },
{
    let mut frame = from;
    while frame < N_FRAMES
        invariant
            from <= frame,
            forall|f: int| from <= f < frame ==> !is_listed(bitmap, f, all_flag),
        decreases N_FRAMES - frame,
    {
        if all_flag || !bitmap.is_frame_free(frame) {
            return Some(frame);
        }
        frame += 1;
    }
    None
}

} // verus!
