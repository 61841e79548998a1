//! The hexdump: lines of sixteen bytes, each with its address, the bytes
//! in hexadecimal and their characters; lines of zeros are left out, and
//! the listing stops when a page is full.

use vstd::prelude::*;
use vstd::slice::slice_subrange;
use crate::io::shell::{Pager, PAGE_LINES};
use crate::io::vga_buffer::{Screen, Writer, string_written};

verus! {

pub const BYTES_PER_LINE: usize = 16;

/// The lower-case hexadecimal digit of a number below 16.
pub open spec fn hex_digit(n: int) -> u8 {
    if n < 10 {
        (0x30 + n) as u8
    } else {
        (0x61 + n - 10) as u8
    }
}

/// A value divided by 16 `k` times.
pub open spec fn shifted(value: nat, k: nat) -> nat
    decreases k,
{
    if k == 0 {
        value
    } else {
        shifted(value, (k - 1) as nat) / 16
    }
}

/// The last `n` hexadecimal digits of a value, the highest first.
pub open spec fn hex_digits(value: nat, n: nat) -> Seq<u8> {
    Seq::new(n, |i: int| hex_digit((shifted(value, (n - 1 - i) as nat) % 16) as int))
}

/// How many hexadecimal digits a value has.
pub open spec fn hex_len(value: nat) -> nat
    decreases value,
{
    if value < 16 {
        1
    } else {
        1 + hex_len(value / 16)
    }
}

/// An address as text: `0x` and its digits, at least six.
pub open spec fn address_text(address: nat) -> Seq<u8> {
    let n = if hex_len(address) < 6 {
        6
    } else {
        hex_len(address)
    };
    seq!['0' as u8, 'x' as u8] + hex_digits(address, n)
}

/// The character that stands for a byte: itself if it is a visible ASCII
/// character or a blank, else a dot.
pub open spec fn shown(byte: u8) -> u8 {
    if 0x20 <= byte <= 0x7E {
        byte
    } else {
        '.' as u8
    }
}

/// The columns of the bytes: each byte as two digits and a blank, and
/// three blanks for each byte that the line lacks.
pub open spec fn byte_columns(bytes: Seq<u8>) -> Seq<u8> {
    Seq::new(
        3 * BYTES_PER_LINE as nat,
        |i: int|
            if i / 3 < bytes.len() && i % 3 == 0 {
                hex_digit(bytes[i / 3] as int / 16)
            } else if i / 3 < bytes.len() && i % 3 == 1 {
                hex_digit(bytes[i / 3] as int % 16)
            } else {
                ' ' as u8
            },
    )
}

/// One line of the dump.
pub open spec fn line_text(address: nat, bytes: Seq<u8>) -> Seq<u8> {
    address_text(address) + seq![':' as u8, ' ' as u8, ' ' as u8] + byte_columns(bytes) + seq![
        ' ' as u8,
        '|' as u8,
    ] + Seq::new(bytes.len(), |i: int| shown(bytes[i])) + seq!['|' as u8]
}

/// Whether every byte is zero.
pub open spec fn all_zero(bytes: Seq<u8>) -> bool {
    forall|i: int| 0 <= i < bytes.len() ==> #[trigger] bytes[i] == 0
}

/// The bytes of the line that starts at `offset`.
pub open spec fn chunk(data: Seq<u8>, offset: int) -> Seq<u8> {
    data.subrange(
        offset,
        if offset + BYTES_PER_LINE <= data.len() {
            offset + BYTES_PER_LINE
        } else {
            data.len() as int
        },
    )
}

/// The offset of the line behind the line at `offset`, or the end of the
/// data.
pub open spec fn next_line(data: Seq<u8>, offset: int) -> int {
    if offset + BYTES_PER_LINE <= data.len() {
        offset + BYTES_PER_LINE
    } else {
        data.len() as int
    }
}

/// The screen after a page of the dump, and the offset at which the next
/// page starts: lines are shown from `offset` on until the data ends or
/// `count` has reached the lines of a page; lines of zeros are passed
/// over and do not count.
pub open spec fn page_dumped(screen: Screen, data: Seq<u8>, address: nat, offset: int, count: int) -> (
    Screen,
    int,
)
    decreases data.len() - offset,
{
    if offset < 0 || offset >= data.len() || count >= PAGE_LINES {
        (screen, offset)
    } else if all_zero(chunk(data, offset)) {
        page_dumped(screen, data, address, next_line(data, offset), count)
    } else {
        page_dumped(
            string_written(
                screen,
                line_text((address + offset) as nat, chunk(data, offset)) + seq![0x0Au8],
                0,
            ),
            data,
            address,
            next_line(data, offset),
            count + 1,
        )
    }
}

pub fn is_all_zero(bytes: &[u8]) -> (zero: bool)
    ensures
        zero == all_zero(bytes@),
{
    let mut i: usize = 0;
    while i < bytes.len()
        invariant
            i <= bytes@.len(),
            forall|j: int| 0 <= j < i ==> #[trigger] bytes@[j] == 0,
        decreases bytes@.len() - i,
    {
        if bytes[i] != 0 {
            return false;
        }
        i += 1;
    }
    true
}

fn digit(n: u8) -> (d: u8)
    requires
        n < 16,
    ensures
        d == hex_digit(n as int),
{
    if n < 10 {
        0x30 + n
    } else {
        0x61 + n - 10
    }
}

/// The text of an address.
pub fn format_address(address: usize) -> (text: Vec<u8>)
    ensures
        text@ == address_text(address as nat),
{
    let mut length: usize = 1;
    let mut rest = address;
    proof {
        lemma_sixteen_digits(address);
    }
    while rest >= 16
        invariant
            1 <= length,
            hex_len(address as nat) == (length - 1) + hex_len(rest as nat),
            hex_len(address as nat) <= 16,
        decreases rest,
    {
        rest = rest / 16;
        length += 1;
    }
    let n: usize = if length < 6 {
        6
    } else {
        length
    };
    let mut digits: [u8; 16] = [0u8; 16];
    let mut count: usize = 0;
    rest = address;
    while count < 16
        invariant
            count <= 16,
            rest == shifted(address as nat, count as nat),
            forall|k: int|
                0 <= k < count ==> #[trigger] digits@[k] == hex_digit(
                    (shifted(address as nat, k as nat) % 16) as int,
                ),
        decreases 16 - count,
    {
        digits[count] = digit((rest % 16) as u8);
        rest = rest / 16;
        count += 1;
    }
    let mut text: Vec<u8> = Vec::new();
    text.push('0' as u8);
    text.push('x' as u8);
    let mut i: usize = 0;
    while i < n
        invariant
            i <= n <= 16,
            text@.len() == 2 + i,
            text@[0] == '0' as u8,
            text@[1] == 'x' as u8,
            forall|k: int|
                0 <= k < 16 ==> #[trigger] digits@[k] == hex_digit(
                    (shifted(address as nat, k as nat) % 16) as int,
                ),
            forall|k: int| 2 <= k < 2 + i ==> #[trigger] text@[k] == digits@[n - 1 - (k - 2)],
        decreases n - i,
    {
        text.push(digits[n - 1 - i]);
        i += 1;
    }
    proof {
        assert(text@ =~= address_text(address as nat));
    }
    text
}

/// A value of the machine has sixteen digits at most.
proof fn lemma_sixteen_digits(address: usize)
    ensures
        hex_len(address as nat) <= 16,
{
    reveal_with_fuel(hex_len, 17);
    assert(address as nat / 16 / 16 / 16 / 16 / 16 / 16 / 16 / 16 / 16 / 16 / 16 / 16 / 16 / 16 / 16
        < 16);
}

/// One line of the dump for the bytes at `address`.
pub fn format_line(address: usize, bytes: &[u8]) -> (text: Vec<u8>)
    requires
        bytes@.len() <= BYTES_PER_LINE,
    ensures
        text@ == line_text(address as nat, bytes@),
{
    let mut text = format_address(address);
    let ghost head = text@;
    text.push(':' as u8);
    text.push(' ' as u8);
    text.push(' ' as u8);
    let ghost start = text@;
    let mut j: usize = 0;
    while j < BYTES_PER_LINE
        invariant
            j <= BYTES_PER_LINE,
            bytes@.len() <= BYTES_PER_LINE,
            text@.len() == start.len() + 3 * j,
            forall|k: int| 0 <= k < start.len() ==> text@[k] == start[k],
            forall|k: int|
                start.len() <= k < start.len() + 3 * j ==> #[trigger] text@[k] == byte_columns(
                    bytes@,
                )[k - start.len()],
        decreases BYTES_PER_LINE - j,
    {
        if j < bytes.len() {
            let byte = bytes[j];
            text.push(digit(byte / 16));
            text.push(digit(byte % 16));
            text.push(' ' as u8);
        } else {
            text.push(' ' as u8);
            text.push(' ' as u8);
            text.push(' ' as u8);
        }
        j += 1;
    }
    let ghost columns = text@;
    text.push(' ' as u8);
    text.push('|' as u8);
    let ghost bar = text@;
    j = 0;
    while j < bytes.len()
        invariant
            j <= bytes@.len(),
            text@.len() == bar.len() + j,
            forall|k: int| 0 <= k < bar.len() ==> text@[k] == bar[k],
            forall|k: int|
                bar.len() <= k < bar.len() + j ==> #[trigger] text@[k] == shown(
                    bytes@[k - bar.len()],
                ),
        decreases bytes@.len() - j,
    {
        let byte = bytes[j];
        let ascii = if byte >= 0x20 && byte <= 0x7E {
            byte
        } else {
            '.' as u8
        };
        text.push(ascii);
        j += 1;
    }
    text.push('|' as u8);
    proof {
        assert(start =~= head + seq![':' as u8, ' ' as u8, ' ' as u8]);
        assert(columns =~= start + byte_columns(bytes@));
        assert(bar =~= columns + seq![' ' as u8, '|' as u8]);
        assert(text@ =~= line_text(address as nat, bytes@));
    }
    text
}

/// Whether a dump of `size` bytes can be made: the size must be positive.
pub fn valid_size(size: i32) -> (valid: bool)
    ensures
        valid == (size > 0),
{
    size > 0
}

/// Shows one page of the dump of `data`, which lies at `address`, from
/// `offset` on. Returns the offset at which the next page starts; the
/// dump is complete when that is the length of the data or beyond.
pub fn print(writer: &mut Writer, data: &[u8], address: usize, offset: usize) -> (next: usize)
    requires
        old(writer).wf(),
        address + data@.len() <= usize::MAX,
    ensures
        final(writer).wf(),
        (final(writer)@, next as int) == page_dumped(
            old(writer)@,
            data@,
            address as nat,
            offset as int,
            0,
        ),
{
    let mut pager = Pager::new();
    let mut i = offset;
    let mut full = false;
    while i < data.len() && !full
        invariant
            writer.wf(),
            address + data@.len() <= usize::MAX,
            pager.line_count < PAGE_LINES,
            page_dumped(old(writer)@, data@, address as nat, offset as int, 0) == page_dumped(
                writer@,
                data@,
                address as nat,
                i as int,
                if full {
                    PAGE_LINES as int
                } else {
                    pager.line_count as int
                },
            ),
        decreases data@.len() - i, !full as int,
    {
        let end = if data.len() - i >= BYTES_PER_LINE {
            i + BYTES_PER_LINE
        } else {
            data.len()
        };
        let bytes = slice_subrange(data, i, end);
        proof {
            assert(bytes@ =~= chunk(data@, i as int));
        }
        if !is_all_zero(bytes) {
            let mut line = format_line(address + i, bytes);
            line.push(0x0A);
            proof {
                assert(line@ =~= line_text((address + i) as nat, chunk(data@, i as int)) + seq![
                    0x0Au8,
                ]);
            }
            writer.write_bytes(line.as_slice());
            full = pager.line();
        }
        if data.len() - i >= BYTES_PER_LINE {
            i += BYTES_PER_LINE;
        } else {
            i = data.len();
        }
    }
    i
}

} // verus!
