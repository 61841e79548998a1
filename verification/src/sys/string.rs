//! Small helpers on byte strings.

use vstd::prelude::*;
use vstd::slice::slice_subrange;

verus! {

/// Size of the buffer that `append` writes into.
pub const APPEND_CAPACITY: usize = 14000;

/// The index of the first `byte` in `s` at or after `from`, or the length
/// of `s` if there is none.
pub open spec fn first_index(s: Seq<u8>, byte: u8, from: int) -> int
    decreases s.len() - from,
{
    if from >= s.len() {
        s.len() as int
    } else if s[from] == byte {
        from
    } else {
        first_index(s, byte, from + 1)
    }
}

pub proof fn lemma_first_index(s: Seq<u8>, byte: u8, from: int)
    requires
        0 <= from <= s.len(),
    ensures
        from <= first_index(s, byte, from) <= s.len(),
        first_index(s, byte, from) < s.len() ==> s[first_index(s, byte, from)] == byte,
        forall|i: int| from <= i < first_index(s, byte, from) ==> s[i] != byte,
    decreases s.len() - from,
{
    if from < s.len() && s[from] != byte {
        lemma_first_index(s, byte, from + 1);
    }
}

/// What lies between the first `start` and the first `end` behind it.
pub open spec fn between(s: Seq<u8>, start: u8, end: u8) -> Option<Seq<u8>> {
    let open = first_index(s, start, 0);
    let close = first_index(s, end, open + 1);
    if open < s.len() && close < s.len() {
        Some(s.subrange(open + 1, close))
    } else {
        None
    }
}

/// The value of a string of decimal digits.
pub open spec fn decimal(s: Seq<u8>) -> nat
    decreases s.len(),
{
    if s.len() == 0 {
        0
    } else {
        decimal(s.drop_last()) * 10 + (s.last() - 0x30) as nat
    }
}

pub open spec fn is_digit(byte: u8) -> bool {
    0x30 <= byte <= 0x39
}

/// Finds `byte` in `s` at or after `from`.
pub fn find_byte(s: &[u8], byte: u8, from: usize) -> (index: usize)
    requires
        from <= s@.len(),
    ensures
        index == first_index(s@, byte, from as int),
{
    let mut i = from;
    while i < s.len()
        invariant
            from <= i <= s@.len(),
            first_index(s@, byte, from as int) == first_index(s@, byte, i as int),
        decreases s@.len() - i,
    {
        if s[i] == byte {
            return i;
        }
        i += 1;
    }
    i
}

/// The bytes between the first `start_char` and the first `end_char`
/// behind it, if both occur.
pub fn substring_between(s: &[u8], start_char: u8, end_char: u8) -> (found: Option<&[u8]>)
    ensures
        match found {
            Some(sub) => between(s@, start_char, end_char) == Some(sub@),
            None => between(s@, start_char, end_char) is None,
        },
{
    let start_pos = find_byte(s, start_char, 0);
    if start_pos >= s.len() {
        return None;
    }
    let end_pos = find_byte(s, end_char, start_pos + 1);
    if end_pos >= s.len() {
        return None;
    }
    proof {
        lemma_first_index(s@, end_char, start_pos + 1);
    }
    Some(slice_subrange(s, start_pos + 1, end_pos))
}

/// Reads a decimal number.
///
/// A leading minus sign and any byte that is no digit are refused, the
/// sign first. The empty string reads as zero.
pub fn atoi(s: &[u8]) -> (r: Result<usize, &'static str>)
    requires
        (forall|i: int| 0 <= i < s@.len() ==> is_digit(#[trigger] s@[i])) ==> decimal(s@)
            <= usize::MAX,
    ensures
        match r {
            Ok(value) => (forall|i: int| 0 <= i < s@.len() ==> is_digit(#[trigger] s@[i])) && value
                == decimal(s@),
            Err(message) => if s@.len() > 0 && s@[0] == 0x2D {
                message@ == "Negative numbers are not supported for usize"@
            } else {
                message@ == "Invalid character"@ && exists|i: int|
                    0 <= i < s@.len() && !is_digit(#[trigger] s@[i])
            },
        },
{
    let mut result: usize = 0;
    if s.len() > 0 && s[0] == 0x2D {
        return Err("Negative numbers are not supported for usize");
    }
    let mut i: usize = 0;
    while i < s.len()
        invariant
            i <= s@.len(),
            forall|j: int| 0 <= j < i ==> is_digit(#[trigger] s@[j]),
            result == decimal(s@.take(i as int)),
            (forall|j: int| 0 <= j < s@.len() ==> is_digit(#[trigger] s@[j])) ==> decimal(s@)
                <= usize::MAX,
            !(s@.len() > 0 && s@[0] == 0x2D),
        decreases s@.len() - i,
    {
        let ch = s[i];
        if !(ch >= 0x30 && ch <= 0x39) {
            return Err("Invalid character");
        }
        let digit = (ch - 0x30) as usize;
        proof {
            assert(s@.take(i + 1).drop_last() =~= s@.take(i as int));
            assert(s@.take(i + 1).last() == ch);
            if forall|j: int| 0 <= j < s@.len() ==> is_digit(#[trigger] s@[j]) {
                lemma_decimal_prefix(s@, i + 1);
            } else {
                let bad = choose|j: int| 0 <= j < s@.len() && !is_digit(#[trigger] s@[j]);
                assert(bad > i);
            }
        }
        if result > (usize::MAX - digit) / 10 {
            proof {
                // A byte that is no digit follows: the number does not matter any more.
                assert(!(forall|j: int| 0 <= j < s@.len() ==> is_digit(#[trigger] s@[j])));
            }
            return Err("Invalid character");
        }
        result = result * 10 + digit;
        i += 1;
    }
    proof {
        assert(s@.take(i as int) =~= s@);
    }
    Ok(result)
}

/// The value of a prefix of a decimal string is not above the value of
/// the whole.
pub proof fn lemma_decimal_prefix(s: Seq<u8>, n: int)
    requires
        0 <= n <= s.len(),
        forall|i: int| 0 <= i < s.len() ==> is_digit(#[trigger] s[i]),
    ensures
        decimal(s.take(n)) <= decimal(s),
    decreases s.len() - n,
{
    if n < s.len() {
        lemma_decimal_prefix(s, n + 1);
        assert(s.take(n + 1).drop_last() =~= s.take(n));
        assert(is_digit(s[n]));
        assert(s.take(n + 1).last() == s[n]);
    } else {
        assert(s.take(n) =~= s);
    }
}

/// Copies `s` into `buffer` from index `len` on, if it fits; else the
/// buffer stays as it is.
pub fn append(s: &[u8], buffer: &mut [u8; APPEND_CAPACITY], len: usize)
    ensures
        final(buffer)@ == if len + s@.len() <= APPEND_CAPACITY {
            Seq::new(
                APPEND_CAPACITY as nat,
                |i: int|
                    if len <= i < len + s@.len() {
                        s@[i - len]
                    } else {
                        old(buffer)@[i]
                    },
            )
        } else {
            old(buffer)@
        },
{
    if s.len() > APPEND_CAPACITY || len > APPEND_CAPACITY - s.len() {
        return ;
    }
    let mut i: usize = 0;
    while i < s.len()
        invariant
            i <= s@.len(),
            len + s@.len() <= APPEND_CAPACITY,
            forall|j: int|
                0 <= j < APPEND_CAPACITY ==> #[trigger] buffer@[j] == if len <= j < len + i {
                    s@[j - len]
                } else {
                    old(buffer)@[j]
                },
        decreases s@.len() - i,
    {
        buffer[len + i] = s[i];
        i += 1;
    }
    assert(buffer@ =~= Seq::new(
        APPEND_CAPACITY as nat,
        |i: int|
            if len <= i < len + s@.len() {
                s@[i - len]
            } else {
                old(buffer)@[i]
            },
    ));
}

} // verus!
