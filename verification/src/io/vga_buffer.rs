//! The VGA text screen: 25 rows of 80 cells, written at the bottom row and
//! scrolled upwards, with a small parser for colour escapes and two
//! virtual terminals.
//!
//! The writer keeps the screen in cells of its own. Copying them to the
//! memory of the adapter and moving the hardware cursor are the caller's
//! part; `set_cursor` says which bytes go to which ports.

use vstd::prelude::*;
use vstd::slice::slice_subrange;
use vstd::string::StringSliceAdditionalSpecFns;
use volatile::Volatile;
use crate::sys::pic::PortWrite;
use crate::sys::string::{atoi, between, decimal, find_byte, first_index, is_digit, substring_between};

verus! {

pub const BUFFER_WIDTH: usize = 80;

pub const BUFFER_HEIGHT: usize = 25;

/// The escape byte that starts a colour sequence.
pub const ESCAPE: u8 = 0x1B;

/// The byte that stands for what cannot be shown.
pub const UNPRINTABLE: u8 = 0xFE;

/// The byte that takes the last character back.
pub const DELETE: u8 = 0x7F;

/// The sixteen colours of the text mode.
#[derive(Debug, Clone, Copy, PartialEq, Eq, Structural)]
pub enum Color {
    Black,
    Blue,
    Green,
    Cyan,
    Red,
    Magenta,
    Brown,
    LightGray,
    DarkGray,
    LightBlue,
    LightGreen,
    LightCyan,
    LightRed,
    Pink,
    Yellow,
    White,
}

/// The number of a colour in the palette.
pub open spec fn color_number(color: Color) -> u8 {
    match color {
        Color::Black => 0,
        Color::Blue => 1,
        Color::Green => 2,
        Color::Cyan => 3,
        Color::Red => 4,
        Color::Magenta => 5,
        Color::Brown => 6,
        Color::LightGray => 7,
        Color::DarkGray => 8,
        Color::LightBlue => 9,
        Color::LightGreen => 10,
        Color::LightCyan => 11,
        Color::LightRed => 12,
        Color::Pink => 13,
        Color::Yellow => 14,
        Color::White => 15,
    }
}

impl Color {
    /// The number of the colour in the palette.
    pub fn number(&self) -> (number: u8)
        ensures
            number == color_number(*self),
            number <= 15,
    {
        match self {
            Color::Black => 0,
            Color::Blue => 1,
            Color::Green => 2,
            Color::Cyan => 3,
            Color::Red => 4,
            Color::Magenta => 5,
            Color::Brown => 6,
            Color::LightGray => 7,
            Color::DarkGray => 8,
            Color::LightBlue => 9,
            Color::LightGreen => 10,
            Color::LightCyan => 11,
            Color::LightRed => 12,
            Color::Pink => 13,
            Color::Yellow => 14,
            Color::White => 15,
        }
    }
}

/// The palette by number.
pub struct ColorMap(pub u8);

impl ColorMap {
    /// The colour with the given number, if it is one of the sixteen.
    pub fn from_str(color: usize) -> (found: Option<Color>)
        ensures
            match found {
                Some(c) => color_number(c) == color,
                None => color > 15,
            },
    {
        match color {
            0 => Some(Color::Black),
            1 => Some(Color::Blue),
            2 => Some(Color::Green),
            3 => Some(Color::Cyan),
            4 => Some(Color::Red),
            5 => Some(Color::Magenta),
            6 => Some(Color::Brown),
            7 => Some(Color::LightGray),
            8 => Some(Color::DarkGray),
            9 => Some(Color::LightBlue),
            10 => Some(Color::LightGreen),
            11 => Some(Color::LightCyan),
            12 => Some(Color::LightRed),
            13 => Some(Color::Pink),
            14 => Some(Color::Yellow),
            15 => Some(Color::White),
            _ => None,
        }
    }
}

/// The attribute byte of a cell: background in the high nibble,
/// foreground in the low.
#[derive(Debug, Clone, Copy, PartialEq, Eq, Structural)]
pub struct ColorCode(pub u8);

/// The attribute of a foreground on a background.
pub open spec fn color_code(foreground: Color, background: Color) -> ColorCode {
    ColorCode((color_number(background) * 16 + color_number(foreground)) as u8)
}

impl ColorCode {
    pub fn new(foreground: Color, background: Color) -> (code: ColorCode)
        ensures
            code == color_code(foreground, background),
    {
        let b = background.number();
        let f = foreground.number();
        assert((b << 4) | f == b * 16 + f) by (bit_vector)
            requires
                b <= 15,
                f <= 15,
        ;
        ColorCode((b << 4) | f)
    }
}

/// One cell of the screen.
#[derive(Debug, Clone, Copy, PartialEq, Eq, Structural)]
pub struct ScreenChar {
    pub ascii_character: u8,
    pub color_code: ColorCode,
}

/// A blank in the given colour.
pub open spec fn blank(color: ColorCode) -> ScreenChar {
    ScreenChar { ascii_character: 0x20, color_code: color }
}

#[verifier::external_type_specification]
#[verifier::external_body]
#[verifier::reject_recursive_types(T)]
pub struct ExVolatile<T: Copy>(Volatile<T>);

/// What a screen cell holds: the value last written to it.
pub uninterp spec fn cell_value(cell: Volatile<ScreenChar>) -> ScreenChar;

/// `Volatile::new`: a cell that holds `value`.
#[verifier::external_body]
fn cell_new(value: ScreenChar) -> (cell: Volatile<ScreenChar>)
    ensures
        cell_value(cell) == value,
{
    Volatile::new(value)
}

/// `Volatile::read`: a volatile read of what the cell holds.
#[verifier::external_body]
fn cell_read(cell: &Volatile<ScreenChar>) -> (value: ScreenChar)
    ensures
        value == cell_value(*cell),
{
    cell.read()
}

/// `Volatile::write`: a volatile write, after which the cell holds
/// `value`.
#[verifier::external_body]
fn cell_write(cell: &mut Volatile<ScreenChar>, value: ScreenChar)
    ensures
        cell_value(*final(cell)) == value,
{
    cell.write(value)
}

/// The cells of the screen.
pub struct Buffer {
    chars: Vec<Vec<Volatile<ScreenChar>>>,
}

impl View for Buffer {
    type V = Seq<Seq<ScreenChar>>;

    /// The cells by row and column.
    closed spec fn view(&self) -> Seq<Seq<ScreenChar>> {
        Seq::new(
            BUFFER_HEIGHT as nat,
            |r: int| Seq::new(BUFFER_WIDTH as nat, |c: int| cell_value(self.chars[r][c])),
        )
    }
}

/// Whether a grid has 25 rows of 80 cells.
pub open spec fn is_grid(cells: Seq<Seq<ScreenChar>>) -> bool {
    cells.len() == BUFFER_HEIGHT && forall|r: int|
        0 <= r < BUFFER_HEIGHT ==> (#[trigger] cells[r]).len() == BUFFER_WIDTH
}

/// The grid with one cell replaced.
pub open spec fn with_cell(cells: Seq<Seq<ScreenChar>>, row: int, col: int, value: ScreenChar) -> Seq<
    Seq<ScreenChar>,
> {
    cells.update(row, cells[row].update(col, value))
}

/// The grid with one row blanked.
pub open spec fn with_blank_row(cells: Seq<Seq<ScreenChar>>, row: int, color: ColorCode) -> Seq<
    Seq<ScreenChar>,
> {
    cells.update(row, Seq::new(BUFFER_WIDTH as nat, |c: int| blank(color)))
}

/// The grid moved up by one row, with a blank bottom row.
pub open spec fn scrolled(cells: Seq<Seq<ScreenChar>>, color: ColorCode) -> Seq<Seq<ScreenChar>> {
    Seq::new(
        BUFFER_HEIGHT as nat,
        |r: int|
            if r < BUFFER_HEIGHT - 1 {
                cells[r + 1]
            } else {
                Seq::new(BUFFER_WIDTH as nat, |c: int| blank(color))
            },
    )
}

impl Buffer {
    /// Every row and every cell exists.
    pub closed spec fn wf(&self) -> bool {
        self.chars.len() == BUFFER_HEIGHT && forall|r: int|
            0 <= r < BUFFER_HEIGHT ==> (#[trigger] self.chars[r]).len() == BUFFER_WIDTH
    }

    /// A screen of blanks in the given colour.
    pub fn new(color: ColorCode) -> (buffer: Buffer)
        ensures
            buffer.wf(),
            forall|r: int, c: int|
                0 <= r < BUFFER_HEIGHT && 0 <= c < BUFFER_WIDTH ==> buffer@[r][c] == blank(color),
    {
        let mut chars: Vec<Vec<Volatile<ScreenChar>>> = Vec::new();
        let mut r: usize = 0;
        while r < BUFFER_HEIGHT
            invariant
                r <= BUFFER_HEIGHT,
                chars.len() == r,
                forall|i: int| 0 <= i < r ==> (#[trigger] chars[i]).len() == BUFFER_WIDTH,
                forall|i: int, j: int|
                    0 <= i < r && 0 <= j < BUFFER_WIDTH ==> cell_value(#[trigger] chars[i][j]) == blank(
                        color,
                    ),
            decreases BUFFER_HEIGHT - r,
        {
            let mut row: Vec<Volatile<ScreenChar>> = Vec::new();
            let mut c: usize = 0;
            while c < BUFFER_WIDTH
                invariant
                    c <= BUFFER_WIDTH,
                    row.len() == c,
                    forall|j: int| 0 <= j < c ==> cell_value(#[trigger] row[j]) == blank(color),
                decreases BUFFER_WIDTH - c,
            {
                row.push(cell_new(ScreenChar { ascii_character: 0x20, color_code: color }));
                c += 1;
            }
            chars.push(row);
            r += 1;
        }
        Buffer { chars }
    }

    /// Reads one cell.
    pub fn read(&self, row: usize, col: usize) -> (value: ScreenChar)
        requires
            self.wf(),
            row < BUFFER_HEIGHT,
            col < BUFFER_WIDTH,
        ensures
            value == self@[row as int][col as int],
    {
        cell_read(&self.chars[row][col])
    }

    /// Writes one cell.
    pub fn write(&mut self, row: usize, col: usize, value: ScreenChar)
        requires
            old(self).wf(),
            row < BUFFER_HEIGHT,
            col < BUFFER_WIDTH,
        ensures
            final(self).wf(),
            final(self)@ == with_cell(old(self)@, row as int, col as int, value),
    {
        cell_write(&mut self.chars[row][col], value);
        assert(self@ =~~= with_cell(old(self)@, row as int, col as int, value));
    }
}

/// What a writer shows and remembers.
pub struct Screen {
    pub column: usize,
    pub color: ColorCode,
    pub skip: usize,
    pub cells: Seq<Seq<ScreenChar>>,
}

/// The screen after a line feed: everything moves up by one row, the
/// bottom row is blank, and the column is the first.
pub open spec fn line_fed(screen: Screen) -> Screen {
    Screen { column: 0, cells: scrolled(screen.cells, screen.color), ..screen }
}

/// The screen after one byte was put out.
///
/// A line feed scrolls. The delete byte steps back by one column and
/// blanks that cell, unless the column is the first. Every other byte is
/// written at the column in the bottom row, after a line feed if the row
/// is full, and the column moves on.
pub open spec fn byte_written(screen: Screen, byte: u8) -> Screen {
    if byte == 0x0A {
        line_fed(screen)
    } else if byte == DELETE {
        if screen.column > 0 {
            Screen {
                column: (screen.column - 1) as usize,
                cells: with_cell(
                    screen.cells,
                    BUFFER_HEIGHT - 1,
                    screen.column - 1,
                    blank(screen.color),
                ),
                ..screen
            }
        } else {
            screen
        }
    } else {
        let at = if screen.column >= BUFFER_WIDTH {
            line_fed(screen)
        } else {
            screen
        };
        Screen {
            column: (at.column + 1) as usize,
            cells: with_cell(
                at.cells,
                BUFFER_HEIGHT - 1,
                at.column as int,
                ScreenChar { ascii_character: byte, color_code: at.color },
            ),
            ..at
        }
    }
}

/// The number that a colour escape at the start of `bytes` names, and how
/// many bytes behind the escape byte belong to it: the form is the escape
/// byte, `[`, one or two digits, `;` and `m`.
pub open spec fn escape_at(bytes: Seq<u8>) -> Option<(nat, usize)> {
    if bytes.len() >= 5 && bytes[0] == ESCAPE && bytes[1] == 0x5B && is_digit(bytes[2]) {
        if bytes[3] == 0x3B && bytes[4] == 0x6D {
            Some(((bytes[2] - 0x30) as nat, 4usize))
        } else if bytes.len() >= 6 && is_digit(bytes[3]) && bytes[4] == 0x3B && bytes[5] == 0x6D {
            Some((((bytes[2] - 0x30) * 10 + (bytes[3] - 0x30)) as nat, 5usize))
        } else {
            None
        }
    } else {
        None
    }
}

/// The colour that a number selects: the palette entry, white beyond the
/// palette; always on black.
pub open spec fn selected_color(number: nat) -> ColorCode {
    if number == 0 {
        color_code(Color::Black, Color::Black)
    } else if number == 1 {
        color_code(Color::Blue, Color::Black)
    } else if number == 2 {
        color_code(Color::Green, Color::Black)
    } else if number == 3 {
        color_code(Color::Cyan, Color::Black)
    } else if number == 4 {
        color_code(Color::Red, Color::Black)
    } else if number == 5 {
        color_code(Color::Magenta, Color::Black)
    } else if number == 6 {
        color_code(Color::Brown, Color::Black)
    } else if number == 7 {
        color_code(Color::LightGray, Color::Black)
    } else if number == 8 {
        color_code(Color::DarkGray, Color::Black)
    } else if number == 9 {
        color_code(Color::LightBlue, Color::Black)
    } else if number == 10 {
        color_code(Color::LightGreen, Color::Black)
    } else if number == 11 {
        color_code(Color::LightCyan, Color::Black)
    } else if number == 12 {
        color_code(Color::LightRed, Color::Black)
    } else if number == 13 {
        color_code(Color::Pink, Color::Black)
    } else if number == 14 {
        color_code(Color::Yellow, Color::Black)
    } else {
        color_code(Color::White, Color::Black)
    }
}

/// The screen after the byte at `index` of a string was handled.
///
/// While bytes are to be skipped, the byte only counts one off. An escape
/// byte that starts a colour escape sets the colour and has the rest of
/// the escape skipped; one that starts none is shown as unprintable.
/// Printable bytes, the line feed and the delete byte are put out; every
/// other byte is shown as unprintable.
pub open spec fn string_byte_written(screen: Screen, bytes: Seq<u8>, index: int) -> Screen {
    let byte = bytes[index];
    if screen.skip > 0 {
        Screen { skip: (screen.skip - 1) as usize, ..screen }
    } else if byte == ESCAPE {
        match escape_at(bytes.subrange(index, bytes.len() as int)) {
            Some((number, length)) => Screen {
                color: selected_color(number),
                skip: length,
                ..screen
            },
            None => byte_written(screen, UNPRINTABLE),
        }
    } else if (0x20 <= byte <= 0x7E) || byte == 0x0A || byte == DELETE {
        byte_written(screen, byte)
    } else {
        byte_written(screen, UNPRINTABLE)
    }
}

/// The screen after the bytes of a string from `index` on were handled.
pub open spec fn string_written(screen: Screen, bytes: Seq<u8>, index: int) -> Screen
    decreases bytes.len() - index,
{
    if index >= bytes.len() {
        screen
    } else {
        string_written(string_byte_written(screen, bytes, index), bytes, index + 1)
    }
}

/// The writer of the screen.
pub struct Writer {
    column_position: usize,
    color_code: ColorCode,
    buffer: Buffer,
    skip: usize,
}

impl View for Writer {
    type V = Screen;

    closed spec fn view(&self) -> Screen {
        Screen {
            column: self.column_position,
            color: self.color_code,
            skip: self.skip,
            cells: self.buffer@,
        }
    }
}

impl Writer {
    /// The screen is whole and the column lies in the row or just
    /// behind it.
    pub closed spec fn wf(&self) -> bool {
        self.buffer.wf() && self.column_position <= BUFFER_WIDTH
    }

    /// The column at which the next byte is written.
    pub fn column(&self) -> (column: usize)
        ensures
            column == self@.column,
    {
        self.column_position
    }

    /// Moves the column back by `count`, or to the first column where
    /// that is nearer.
    pub fn retreat(&mut self, count: usize)
        ensures
            old(self).wf() ==> final(self).wf(),
            final(self)@ == (Screen {
                column: if old(self)@.column >= count {
                    (old(self)@.column - count) as usize
                } else {
                    0
                },
                ..old(self)@
            }),
    {
        if self.column_position >= count {
            self.column_position -= count;
        } else {
            self.column_position = 0;
        }
    }

    /// A writer on a blank screen, white on black, at the first column.
    pub fn new() -> (writer: Writer)
        ensures
            writer.wf(),
            writer@.column == 0,
            writer@.skip == 0,
            writer@.color == color_code(Color::White, Color::Black),
            forall|r: int, c: int|
                0 <= r < BUFFER_HEIGHT && 0 <= c < BUFFER_WIDTH ==> writer@.cells[r][c] == blank(
                    color_code(Color::White, Color::Black),
                ),
    {
        let color = ColorCode::new(Color::White, Color::Black);
        Writer { column_position: 0, color_code: color, buffer: Buffer::new(color), skip: 0 }
    }

    /// The cell at the given place.
    pub fn cell(&self, row: usize, col: usize) -> (value: ScreenChar)
        requires
            self.wf(),
            row < BUFFER_HEIGHT,
            col < BUFFER_WIDTH,
        ensures
            value == self@.cells[row as int][col as int],
    {
        self.buffer.read(row, col)
    }

    /// The colour in which the next byte is written.
    pub fn color(&self) -> (color: ColorCode)
        ensures
            color == self@.color,
    {
        self.color_code
    }

    /// Blanks a row in the current colour.
    pub fn clear_row(&mut self, row: usize)
        requires
            old(self).wf(),
            row < BUFFER_HEIGHT,
        ensures
            final(self).wf(),
            final(self)@ == (Screen {
                cells: with_blank_row(old(self)@.cells, row as int, old(self)@.color),
                ..old(self)@
            }),
    {
        let value = ScreenChar { ascii_character: 0x20, color_code: self.color_code };
        let mut col: usize = 0;
        while col < BUFFER_WIDTH
            invariant
                col <= BUFFER_WIDTH,
                row < BUFFER_HEIGHT,
                self.wf(),
                self.column_position == old(self).column_position,
                self.color_code == old(self).color_code,
                self.skip == old(self).skip,
                value == blank(self.color_code),
                is_grid(self.buffer@),
                forall|r: int|
                    0 <= r < BUFFER_HEIGHT && r != row ==> self.buffer@[r] == old(self).buffer@[r],
                forall|c: int|
                    0 <= c < BUFFER_WIDTH ==> #[trigger] self.buffer@[row as int][c] == if c < col {
                        value
                    } else {
                        old(self).buffer@[row as int][c]
                    },
            decreases BUFFER_WIDTH - col,
        {
            self.buffer.write(row, col, value);
            col += 1;
        }
        assert(self.buffer@ =~~= with_blank_row(old(self).buffer@, row as int, old(self).color_code));
    }

    /// Moves every row up by one, blanks the bottom row and returns to the
    /// first column.
    pub fn new_line(&mut self)
        requires
            old(self).wf(),
        ensures
            final(self).wf(),
            final(self)@ == line_fed(old(self)@),
    {
        let mut row: usize = 1;
        while row < BUFFER_HEIGHT
            invariant
                1 <= row <= BUFFER_HEIGHT,
                self.wf(),
                self.column_position == old(self).column_position,
                self.color_code == old(self).color_code,
                self.skip == old(self).skip,
                is_grid(self.buffer@),
                is_grid(old(self).buffer@),
                forall|r: int, c: int|
                    0 <= r < BUFFER_HEIGHT && 0 <= c < BUFFER_WIDTH ==> #[trigger] self.buffer@[r][c]
                        == if r < row - 1 {
                        old(self).buffer@[r + 1][c]
                    } else {
                        old(self).buffer@[r][c]
                    },
            decreases BUFFER_HEIGHT - row,
        {
            let mut col: usize = 0;
            while col < BUFFER_WIDTH
                invariant
                    col <= BUFFER_WIDTH,
                    1 <= row < BUFFER_HEIGHT,
                    self.wf(),
                    self.column_position == old(self).column_position,
                    self.color_code == old(self).color_code,
                    self.skip == old(self).skip,
                    is_grid(self.buffer@),
                    is_grid(old(self).buffer@),
                    forall|r: int, c: int|
                        0 <= r < BUFFER_HEIGHT && 0 <= c < BUFFER_WIDTH ==> #[trigger] self.buffer@[r][c]
                            == if r < row - 1 || (r == row - 1 && c < col) {
                            old(self).buffer@[r + 1][c]
                        } else {
                            old(self).buffer@[r][c]
                        },
                decreases BUFFER_WIDTH - col,
            {
                let character = self.buffer.read(row, col);
                self.buffer.write(row - 1, col, character);
                col += 1;
            }
            row += 1;
        }
        let ghost moved = self.buffer@;
        self.clear_row(BUFFER_HEIGHT - 1);
        self.column_position = 0;
        assert(self.buffer@ =~~= scrolled(old(self).buffer@, old(self).color_code)) by {
            assert forall|r: int| 0 <= r < BUFFER_HEIGHT implies #[trigger] self.buffer@[r]
                =~= scrolled(old(self).buffer@, old(self).color_code)[r] by {
                if r < BUFFER_HEIGHT - 1 {
                    assert(self.buffer@[r] == moved[r]);
                    assert forall|c: int| 0 <= c < BUFFER_WIDTH implies moved[r][c] == old(
                        self,
                    ).buffer@[r + 1][c] by {}
                }
            }
        }
    }

    /// Puts out one byte.
    pub fn write_byte(&mut self, byte: u8)
        requires
            old(self).wf(),
        ensures
            final(self).wf(),
            final(self)@ == byte_written(old(self)@, byte),
    {
        if byte == 0x0A {
            self.new_line();
        } else if byte == 0x7F {
            if self.column_position > 0 {
                self.column_position -= 1;
                let value = ScreenChar { ascii_character: 0x20, color_code: self.color_code };
                self.buffer.write(BUFFER_HEIGHT - 1, self.column_position, value);
            }
        } else {
            if self.column_position >= BUFFER_WIDTH {
                self.new_line();
            }
            let row = BUFFER_HEIGHT - 1;
            let col = self.column_position;
            let color_code = self.color_code;
            self.buffer.write(row, col, ScreenChar { ascii_character: byte, color_code });
            self.column_position += 1;
        }
    }

    /// Whether `s` starts with a colour escape: the escape byte, `[`, one
    /// or two digits, `;` and `m`.
    pub fn syntax_check(&self, s: &[u8]) -> (valid: bool)
        ensures
            valid == escape_at(s@) is Some,
    {
        if s.len() < 5 || s[0] != ESCAPE || s[1] != 0x5B || !(s[2] >= 0x30 && s[2] <= 0x39) {
            return false;
        }
        if s[3] == 0x3B {
            return s[4] == 0x6D;
        }
        s.len() >= 6 && s[3] >= 0x30 && s[3] <= 0x39 && s[4] == 0x3B && s[5] == 0x6D
    }

    /// Takes the colour escape at the start of `s`, if there is one: the
    /// colour is set to what its number selects, and the bytes of the
    /// escape behind the escape byte are marked to be skipped.
    pub fn sgr(&mut self, s: &[u8]) -> (taken: bool)
        requires
            old(self).wf(),
        ensures
            final(self).wf(),
            match escape_at(s@) {
                Some((number, length)) => taken && final(self)@ == (Screen {
                    color: selected_color(number),
                    skip: length,
                    ..old(self)@
                }),
                None => !taken && final(self)@ == old(self)@,
            },
    {
        if !self.syntax_check(s) {
            return false;
        }
        let end = find_byte(s, 0x6D, 0);
        proof {
            crate::sys::string::lemma_first_index(s@, 0x6D, 0);
            reveal_with_fuel(first_index, 8);
        }
        let slice = slice_subrange(s, 1, end);
        let digits = match substring_between(slice, 0x5B, 0x3B) {
            Some(digits) => digits,
            None => {
                proof {
                    assert(slice@[0] == 0x5B);
                    assert(false);
                }
                return false;
            },
        };
        proof {
            assert(slice@[0] == 0x5B);
            assert(between(slice@, 0x5B, 0x3B) == Some(digits@));
            if s@[3] == 0x3B {
                assert(slice@.len() == 3);
                assert(digits@ =~= seq![s@[2]]);
            } else {
                assert(slice@.len() == 4);
                assert(digits@ =~= seq![s@[2], s@[3]]);
            }
            reveal_with_fuel(decimal, 4);
            assert(digits@.len() == 1 ==> digits@.drop_last() =~= Seq::<u8>::empty());
            assert(digits@.len() == 2 ==> digits@.drop_last() =~= seq![s@[2]]);
            assert(digits@.len() == 2 ==> digits@.drop_last().drop_last() =~= Seq::<u8>::empty());
        }
        let color_number = match atoi(digits) {
            Ok(number) => number,
            Err(_) => {
                return false;
            },
        };
        let color = match ColorMap::from_str(color_number) {
            Some(color) => color,
            None => Color::White,
        };
        self.color_code = ColorCode::new(color, Color::Black);
        self.skip = slice.len() + 1;
        true
    }

    /// Handles the byte at `index` of `bytes`.
    fn write_string_byte(&mut self, bytes: &[u8], index: usize)
        requires
            old(self).wf(),
            index < bytes@.len(),
        ensures
            final(self).wf(),
            final(self)@ == string_byte_written(old(self)@, bytes@, index as int),
    {
        let byte = bytes[index];
        if self.skip > 0 {
            self.skip -= 1;
        } else if byte == ESCAPE {
            let rest = slice_subrange(bytes, index, bytes.len());
            if !self.sgr(rest) {
                self.write_byte(UNPRINTABLE);
            }
        } else if (byte >= 0x20 && byte <= 0x7E) || byte == 0x0A {
            self.write_byte(byte);
        } else if byte == 0x7F {
            self.write_byte(0x7F);
        } else {
            self.write_byte(UNPRINTABLE);
        }
    }

    /// Puts out a string of bytes, byte by byte.
    pub fn write_bytes(&mut self, bytes: &[u8])
        requires
            old(self).wf(),
        ensures
            final(self).wf(),
            final(self)@ == string_written(old(self)@, bytes@, 0),
    {
        let mut index: usize = 0;
        while index < bytes.len()
            invariant
                index <= bytes@.len(),
                self.wf(),
                string_written(old(self)@, bytes@, 0) == string_written(self@, bytes@, index as int),
            decreases bytes@.len() - index,
        {
            self.write_string_byte(bytes, index);
            index += 1;
        }
    }

    /// Puts out a string, byte by byte.
    pub fn write_string(&mut self, s: &str)
        requires
            old(self).wf(),
        ensures
            final(self).wf(),
            final(self)@ == string_written(old(self)@, s.spec_bytes(), 0),
    {
        self.write_bytes(s.as_bytes());
    }

    /// The characters of the screen, without their colours.
    pub fn save_vga(&self) -> (saved: Vec<Vec<u8>>)
        requires
            self.wf(),
        ensures
            saved@.len() == BUFFER_HEIGHT,
            forall|r: int| 0 <= r < BUFFER_HEIGHT ==> (#[trigger] saved@[r])@.len() == BUFFER_WIDTH,
            forall|r: int, c: int|
                0 <= r < BUFFER_HEIGHT && 0 <= c < BUFFER_WIDTH ==> #[trigger] saved@[r]@[c]
                    == self@.cells[r][c].ascii_character,
    {
        let mut saved: Vec<Vec<u8>> = Vec::new();
        let mut y: usize = 0;
        while y < BUFFER_HEIGHT
            invariant
                y <= BUFFER_HEIGHT,
                self.wf(),
                saved@.len() == y,
                forall|r: int| 0 <= r < y ==> (#[trigger] saved@[r])@.len() == BUFFER_WIDTH,
                forall|r: int, c: int|
                    0 <= r < y && 0 <= c < BUFFER_WIDTH ==> #[trigger] saved@[r]@[c]
                        == self.buffer@[r][c].ascii_character,
            decreases BUFFER_HEIGHT - y,
        {
            let mut row: Vec<u8> = Vec::new();
            let mut x: usize = 0;
            while x < BUFFER_WIDTH
                invariant
                    x <= BUFFER_WIDTH,
                    y < BUFFER_HEIGHT,
                    self.wf(),
                    row@.len() == x,
                    forall|c: int|
                        0 <= c < x ==> row@[c] == self.buffer@[y as int][c].ascii_character,
                decreases BUFFER_WIDTH - x,
            {
                row.push(self.buffer.read(y, x).ascii_character);
                x += 1;
            }
            saved.push(row);
            y += 1;
        }
        saved
    }

    /// Shows saved characters, all in white on black.
    pub fn load_vga(&mut self, saved: &Vec<Vec<u8>>)
        requires
            old(self).wf(),
            saved@.len() == BUFFER_HEIGHT,
            forall|r: int| 0 <= r < BUFFER_HEIGHT ==> (#[trigger] saved@[r])@.len() == BUFFER_WIDTH,
        ensures
            final(self).wf(),
            final(self)@.column == old(self)@.column,
            final(self)@.color == old(self)@.color,
            final(self)@.skip == old(self)@.skip,
            forall|r: int, c: int|
                0 <= r < BUFFER_HEIGHT && 0 <= c < BUFFER_WIDTH ==> #[trigger] final(self)@.cells[r][c]
                    == (ScreenChar { ascii_character: saved@[r]@[c], color_code: ColorCode(15) }),
    {
        let mut y: usize = 0;
        while y < BUFFER_HEIGHT
            invariant
                y <= BUFFER_HEIGHT,
                self.wf(),
                self.column_position == old(self).column_position,
                self.color_code == old(self).color_code,
                self.skip == old(self).skip,
                saved@.len() == BUFFER_HEIGHT,
                forall|r: int| 0 <= r < BUFFER_HEIGHT ==> (#[trigger] saved@[r])@.len() == BUFFER_WIDTH,
                is_grid(self.buffer@),
                forall|r: int, c: int|
                    0 <= r < y && 0 <= c < BUFFER_WIDTH ==> #[trigger] self.buffer@[r][c] == (ScreenChar {
                        ascii_character: saved@[r]@[c],
                        color_code: ColorCode(15),
                    }),
            decreases BUFFER_HEIGHT - y,
        {
            let mut x: usize = 0;
            while x < BUFFER_WIDTH
                invariant
                    x <= BUFFER_WIDTH,
                    y < BUFFER_HEIGHT,
                    self.wf(),
                    self.column_position == old(self).column_position,
                    self.color_code == old(self).color_code,
                    self.skip == old(self).skip,
                    saved@.len() == BUFFER_HEIGHT,
                    forall|r: int|
                        0 <= r < BUFFER_HEIGHT ==> (#[trigger] saved@[r])@.len() == BUFFER_WIDTH,
                    is_grid(self.buffer@),
                    forall|r: int, c: int|
                        (0 <= r < y && 0 <= c < BUFFER_WIDTH) || (r == y && 0 <= c < x)
                            ==> #[trigger] self.buffer@[r][c] == (ScreenChar {
                            ascii_character: saved@[r]@[c],
                            color_code: ColorCode(15),
                        }),
                decreases BUFFER_WIDTH - x,
            {
                let character = saved[y][x];
                self.buffer.write(
                    y,
                    x,
                    ScreenChar { ascii_character: character, color_code: ColorCode(15) },
                );
                x += 1;
            }
            y += 1;
        }
    }
}

/// The two virtual terminals: what each showed when it was left, and
/// which one is on the screen.
pub struct Terminals {
    vga1: Vec<Vec<u8>>,
    vga2: Vec<Vec<u8>>,
    current: u8,
}

impl Terminals {
    pub closed spec fn wf(&self) -> bool {
        &&& self.vga1@.len() == BUFFER_HEIGHT
        &&& self.vga2@.len() == BUFFER_HEIGHT
        &&& forall|r: int| 0 <= r < BUFFER_HEIGHT ==> (#[trigger] self.vga1@[r])@.len() == BUFFER_WIDTH
        &&& forall|r: int| 0 <= r < BUFFER_HEIGHT ==> (#[trigger] self.vga2@[r])@.len() == BUFFER_WIDTH
    }

    /// The number of the terminal on the screen.
    pub closed spec fn current(&self) -> u8 {
        self.current
    }

    /// The character that a terminal showed at a place when it was left;
    /// terminal 1 is number 1, every other number is terminal 2.
    pub closed spec fn saved(&self, terminal: u8, row: int, col: int) -> u8 {
        if terminal == 1 {
            self.vga1@[row]@[col]
        } else {
            self.vga2@[row]@[col]
        }
    }

    fn empty_screen() -> (saved: Vec<Vec<u8>>)
        ensures
            saved@.len() == BUFFER_HEIGHT,
            forall|r: int| 0 <= r < BUFFER_HEIGHT ==> (#[trigger] saved@[r])@.len() == BUFFER_WIDTH,
            forall|r: int, c: int|
                0 <= r < BUFFER_HEIGHT && 0 <= c < BUFFER_WIDTH ==> #[trigger] saved@[r]@[c] == 0,
    {
        let mut saved: Vec<Vec<u8>> = Vec::new();
        let mut y: usize = 0;
        while y < BUFFER_HEIGHT
            invariant
                y <= BUFFER_HEIGHT,
                saved@.len() == y,
                forall|r: int| 0 <= r < y ==> (#[trigger] saved@[r])@.len() == BUFFER_WIDTH,
                forall|r: int, c: int|
                    0 <= r < y && 0 <= c < BUFFER_WIDTH ==> #[trigger] saved@[r]@[c] == 0,
            decreases BUFFER_HEIGHT - y,
        {
            let mut row: Vec<u8> = Vec::new();
            let mut x: usize = 0;
            while x < BUFFER_WIDTH
                invariant
                    x <= BUFFER_WIDTH,
                    row@.len() == x,
                    forall|c: int| 0 <= c < x ==> row@[c] == 0,
                decreases BUFFER_WIDTH - x,
            {
                row.push(0u8);
                x += 1;
            }
            saved.push(row);
            y += 1;
        }
        saved
    }

    /// Terminal 1 on the screen, both terminals empty.
    pub fn new() -> (terminals: Terminals)
        ensures
            terminals.wf(),
            terminals.current() == 1,
    {
        Terminals { vga1: Self::empty_screen(), vga2: Self::empty_screen(), current: 1 }
    }

    /// The number of the terminal on the screen.
    pub fn active(&self) -> (current: u8)
        ensures
            current == self.current(),
    {
        self.current
    }

    /// The contract of `switch`, over the screen before and after: with
    /// the terminal on the screen already nothing changes. Else column,
    /// colour and escape state of the writer stay, the characters that
    /// were on the screen are kept for the terminal that leaves, and the
    /// screen shows those kept for the terminal that comes, in white on
    /// black.
    pub open spec fn switch_post(
        &self,
        screen: Screen,
        post: &Terminals,
        post_screen: Screen,
        new_vga: u8,
    ) -> bool {
        if self.current() == new_vga {
            *post == *self && post_screen == screen
        } else {
            &&& post.current() == new_vga
            &&& post_screen.column == screen.column
            &&& post_screen.color == screen.color
            &&& post_screen.skip == screen.skip
            &&& forall|r: int, c: int|
                0 <= r < BUFFER_HEIGHT && 0 <= c < BUFFER_WIDTH ==> #[trigger] post_screen.cells[r][c]
                    == (ScreenChar {
                    ascii_character: post.saved(new_vga, r, c),
                    color_code: ColorCode(15),
                })
            &&& forall|r: int, c: int|
                0 <= r < BUFFER_HEIGHT && 0 <= c < BUFFER_WIDTH ==> #[trigger] post.saved(
                    self.current(),
                    r,
                    c,
                ) == screen.cells[r][c].ascii_character
            &&& (new_vga == 1) != (self.current() == 1) ==> forall|r: int, c: int|
                0 <= r < BUFFER_HEIGHT && 0 <= c < BUFFER_WIDTH ==> #[trigger] post.saved(
                    new_vga,
                    r,
                    c,
                ) == self.saved(new_vga, r, c)
        }
    }

    /// Brings terminal `new_vga` onto the screen: the characters on the
    /// screen are kept for the terminal that leaves, and those kept for
    /// the terminal that comes are shown in white on black. Terminal 1
    /// is number 1; every other number is terminal 2. Nothing happens if
    /// the terminal is on the screen already.
    pub fn switch(&mut self, writer: &mut Writer, new_vga: u8)
        requires
            old(self).wf(),
            old(writer).wf(),
        ensures
            final(self).wf(),
            final(writer).wf(),
            final(self).current() == new_vga,
            old(self).current() == new_vga ==> *final(self) == *old(self) && *final(writer) == *old(
                writer,
            ),
            old(self).switch_post(old(writer)@, final(self), final(writer)@, new_vga),
    {
        if self.current != new_vga {
            let saved = writer.save_vga();
            if self.current == 1 {
                self.vga1 = saved;
            } else {
                self.vga2 = saved;
            }
            if new_vga == 1 {
                writer.load_vga(&self.vga1);
            } else {
                writer.load_vga(&self.vga2);
            }
            self.current = new_vga;
        }
    }
}

/// The bytes that move the hardware cursor to column `x` of the bottom
/// row, and the ports they go to: the high byte of the cell's number to
/// register 14, the low byte to register 15.
pub fn set_cursor(x: usize) -> (writes: [PortWrite; 4])
    requires
        x <= 0xFFFF - 1920,
    ensures
        writes[0] == (PortWrite { port: 0x3D4, value: 14 }),
        writes[1].port == 0x3D5,
        writes[1].value == (1920 + x) / 0x100,
        writes[2] == (PortWrite { port: 0x3D4, value: 15 }),
        writes[3].port == 0x3D5,
        writes[3].value == (1920 + x) % 0x100,
{
    let position = (BUFFER_HEIGHT - 1) * BUFFER_WIDTH + x;
    let high = position >> 8;
    let low = position & 0xFF;
    assert(high == position / 0x100 && low == position % 0x100 && high <= 0xFF) by (bit_vector)
        requires
            position <= 0xFFFF,
            high == position >> 8,
            low == position & 0xFF,
    ;
    [
        PortWrite { port: 0x3D4, value: 14 },
        PortWrite { port: 0x3D5, value: high as u8 },
        PortWrite { port: 0x3D4, value: 15 },
        PortWrite { port: 0x3D5, value: low as u8 },
    ]
}

} // verus!
