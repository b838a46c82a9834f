//! Parsing of one line of console input for the `,` instruction: trim
//! surrounding whitespace, then read an unsigned decimal cell value.
//! Anything else — empty input, stray characters, a value over 255 — is a
//! parse failure, which the executor treats as "leave the cell unchanged".

use vstd::prelude::*;

verus! {

/// Whitespace characters recognized when trimming an input line.
pub open spec fn is_space_char(c: char) -> bool {
    c == ' ' || c == '\t' || c == '\n' || c == '\r'
}

/// The line with leading and trailing whitespace removed.
pub open spec fn trimmed(s: Seq<char>) -> Seq<char>
    decreases s.len(),
{
    if s.len() > 0 && is_space_char(s[0]) {
        trimmed(s.skip(1))
    } else if s.len() > 0 && is_space_char(s.last()) {
        trimmed(s.drop_last())
    } else {
        s
    }
}

/// A decimal digit.
pub open spec fn is_digit_char(c: char) -> bool {
    '0' <= c && c <= '9'
}

/// The numeric value of one decimal digit.
pub open spec fn digit_val(c: char) -> int {
    c as u32 - '0' as u32
}

/// Whether the whole sequence consists of decimal digits.
pub open spec fn all_digits(s: Seq<char>) -> bool {
    forall|m: int| 0 <= m < s.len() ==> is_digit_char(#[trigger] s[m])
}

/// The value of a digit string read in base 10.
pub open spec fn digits_val(s: Seq<char>) -> int
    decreases s.len(),
{
    if s.len() == 0 {
        0
    } else {
        digits_val(s.drop_last()) * 10 + digit_val(s.last())
    }
}

/// The digits of a trimmed number: one optional leading `+` sign is
/// accepted, as the usual unsigned decimal grammar has it.
pub open spec fn num_body(s: Seq<char>) -> Seq<char> {
    if s.len() > 0 && s[0] == '+' {
        s.skip(1)
    } else {
        s
    }
}

/// What one input line means to the `,` instruction: `Some` of the cell
/// value exactly when the trimmed line is a non-empty string of decimal
/// digits (after an optional `+` sign) whose value fits in a cell, `None`
/// on any other line.
pub open spec fn parse_cell_spec(line: Seq<char>) -> Option<u8> {
    let t = num_body(trimmed(line));
    if t.len() > 0 && all_digits(t) && digits_val(t) <= 255 {
        Some(digits_val(t) as u8)
    } else {
        None
    }
}

proof fn lemma_digits_val_nonneg(s: Seq<char>)
    requires
        all_digits(s),
    ensures
        digits_val(s) >= 0,
    decreases s.len(),
{
    if s.len() > 0 {
        assert(is_digit_char(s[s.len() - 1]));
        lemma_digits_val_nonneg(s.drop_last());
    }
}

/// Reading more digits never makes the value smaller.
proof fn lemma_digits_val_take_le(s: Seq<char>, j: int)
    requires
        all_digits(s),
        0 <= j <= s.len(),
    ensures
        digits_val(s.take(j)) <= digits_val(s),
    decreases s.len(),
{
    if j == s.len() {
        assert(s.take(j) =~= s);
    } else {
        assert(s.drop_last().take(j) =~= s.take(j));
        lemma_digits_val_take_le(s.drop_last(), j);
        lemma_digits_val_nonneg(s.drop_last());
        assert(is_digit_char(s[s.len() - 1]));
    }
}

/// Executable test for [`is_space_char`].
fn space_char(c: char) -> (r: bool)
    ensures
        r == is_space_char(c),
{
    c == ' ' || c == '\t' || c == '\n' || c == '\r'
}

/// Parses one input line as a cell value: whitespace is trimmed from both
/// ends and the rest must be a non-empty unsigned decimal number (an
/// optional `+` sign is accepted) no larger than 255.
pub fn parse_cell(line: &str) -> (r: Option<u8>)
    ensures
        r == parse_cell_spec(line@),
{
    let n: usize = line.unicode_len();
    let mut lo: usize = 0;
    proof {
        assert(line@.subrange(0, n as int) =~= line@);
    }
    while lo < n && space_char(line.get_char(lo))
        invariant
            lo <= n,
            n == line@.len(),
            trimmed(line@) == trimmed(line@.subrange(lo as int, n as int)),
        decreases n - lo,
    {
        proof {
            assert(line@.subrange(lo as int, n as int).skip(1) =~= line@.subrange(
                lo + 1,
                n as int,
            ));
        }
        lo = lo + 1;
    }
    let mut hi: usize = n;
    while hi > lo && space_char(line.get_char(hi - 1))
        invariant
            lo <= hi <= n,
            n == line@.len(),
            lo < n ==> !is_space_char(line@[lo as int]),
            trimmed(line@) == trimmed(line@.subrange(lo as int, hi as int)),
        decreases hi,
    {
        proof {
            assert(line@.subrange(lo as int, hi as int).drop_last() =~= line@.subrange(
                lo as int,
                hi - 1,
            ));
        }
        hi = hi - 1;
    }
    let ghost t_full = line@.subrange(lo as int, hi as int);
    proof {
        assert(trimmed(t_full) == t_full);
        assert(trimmed(line@) == t_full);
    }
    let mut start: usize = lo;
    if hi > lo && line.get_char(lo) == '+' {
        start = lo + 1;
        proof {
            assert(t_full.skip(1) =~= line@.subrange(start as int, hi as int));
        }
    }
    let ghost t = line@.subrange(start as int, hi as int);
    proof {
        assert(num_body(trimmed(line@)) == t);
    }
    if start >= hi {
        return None;
    }
    let mut acc: u32 = 0;
    let mut m: usize = start;
    while m < hi
        invariant
            start <= m <= hi <= n,
            n == line@.len(),
            t == line@.subrange(start as int, hi as int),
            num_body(trimmed(line@)) == t,
            t.len() == hi - start,
            all_digits(t.take(m - start)),
            acc == digits_val(t.take(m - start)),
            acc <= 255,
        decreases hi - m,
    {
        let c = line.get_char(m);
        proof {
            assert(t[m - start] == line@[m as int]);
        }
        if !(c >= '0' && c <= '9') {
            proof {
                assert(!is_digit_char(t[m - start]));
            }
            return None;
        }
        let d: u32 = c as u32 - '0' as u32;
        let v: u32 = acc * 10 + d;
        proof {
            assert(t.take(m - start + 1).drop_last() =~= t.take(m - start));
            assert(t.take(m - start + 1).last() == t[m - start]);
            assert(digits_val(t.take(m - start + 1)) == v);
        }
        if v > 255 {
            proof {
                if all_digits(t) {
                    lemma_digits_val_take_le(t, m - start + 1);
                }
            }
            return None;
        }
        acc = v;
        m = m + 1;
    }
    proof {
        assert(t.take(hi - start) =~= t);
    }
    Some(acc as u8)
}

} // verus!
