//! Reading an HTTP `Range` header that names a single range of bytes.
//!
//! Three forms are understood: `bytes=<first>-<last>`, `bytes=<first>-` and
//! `bytes=-<count>`, the last meaning the final `count` bytes. Spaces around
//! the numbers are allowed. Anything else, a list of several ranges too,
//! gives no range, and so does a range that no byte of the file falls in.

use vstd::prelude::*;
use vstd::string::*;

verus! {

/// A range of bytes of a file: `length` bytes from offset `start` on.
#[derive(Debug, Clone, Copy, PartialEq, Eq, Structural)]
pub struct ByteRange {
    /// Offset of the first byte, counted from zero.
    pub start: u64,
    /// Number of bytes.
    pub length: u64,
}

/// The characters that count as space around a number: those with the
/// Unicode property `White_Space`.
pub open spec fn is_space(c: char) -> bool {
    let u = c as u32;
    ||| 0x09 <= u <= 0x0d
    ||| u == 0x20
    ||| u == 0x85
    ||| u == 0xa0
    ||| u == 0x1680
    ||| 0x2000 <= u <= 0x200a
    ||| u == 0x2028
    ||| u == 0x2029
    ||| u == 0x202f
    ||| u == 0x205f
    ||| u == 0x3000
}

/// `s` without the spaces at its start.
pub open spec fn trim_start(s: Seq<char>) -> Seq<char>
    decreases s.len(),
{
    if s.len() > 0 && is_space(s[0]) {
        trim_start(s.skip(1))
    } else {
        s
    }
}

/// `s` without the spaces at its end.
pub open spec fn trim_end(s: Seq<char>) -> Seq<char>
    decreases s.len(),
{
    if s.len() > 0 && is_space(s.last()) {
        trim_end(s.drop_last())
    } else {
        s
    }
}

/// `s` without the spaces at either end.
pub open spec fn trimmed(s: Seq<char>) -> Seq<char> {
    trim_end(trim_start(s))
}

/// The value of a decimal digit.
pub open spec fn digit_value(c: char) -> Option<nat> {
    if '0' <= c <= '9' {
        Some((c as u32 - '0' as u32) as nat)
    } else {
        None
    }
}

/// Every character of `s` is a decimal digit.
pub open spec fn all_digits(s: Seq<char>) -> bool {
    forall|i: int| 0 <= i < s.len() ==> digit_value(#[trigger] s[i]) is Some
}

/// The number that the decimal digits `s` write.
pub open spec fn decimal(s: Seq<char>) -> nat
    decreases s.len(),
{
    if s.len() == 0 {
        0
    } else {
        decimal(s.drop_last()) * 10 + digit_value(s.last())->0
    }
}

/// The number that `s` writes, where `s` is an optional `+` and then at
/// least one decimal digit, and the number fits in 64 bits.
pub open spec fn number(s: Seq<char>) -> Option<u64> {
    let digits = if s.len() > 0 && s[0] == '+' {
        s.skip(1)
    } else {
        s
    };
    if digits.len() > 0 && all_digits(digits) && decimal(digits) <= u64::MAX {
        Some(decimal(digits) as u64)
    } else {
        None
    }
}

/// The word that a `Range` header for bytes starts with.
pub open spec fn unit() -> Seq<char> {
    seq!['b', 'y', 't', 'e', 's', '=']
}

/// The last `count` bytes of a file of `total` bytes, or all of it where it
/// has fewer.
pub open spec fn suffix_range(count: u64, total: u64) -> Option<ByteRange> {
    if count == 0 {
        None
    } else if count >= total {
        Some(ByteRange { start: 0, length: total })
    } else {
        Some(ByteRange { start: (total - count) as u64, length: count })
    }
}

/// The bytes from offset `first` to offset `last`, both included, as far as
/// the file reaches.
pub open spec fn span_range(first: u64, last: u64, total: u64) -> Option<ByteRange> {
    if first > last || first >= total {
        None
    } else if last >= total {
        Some(ByteRange { start: first, length: (total - first) as u64 })
    } else {
        Some(ByteRange { start: first, length: (last - first + 1) as u64 })
    }
}

/// The range that the text `first`-`last` names in a file of `total` bytes,
/// `total` being positive and both texts trimmed.
pub open spec fn named_range(first: Seq<char>, last: Seq<char>, total: u64) -> Option<ByteRange> {
    if first.len() == 0 {
        match number(last) {
            Some(count) => suffix_range(count, total),
            None => None,
        }
    } else if last.len() == 0 {
        match number(first) {
            Some(start) => span_range(start, (total - 1) as u64, total),
            None => None,
        }
    } else {
        match (number(first), number(last)) {
            (Some(start), Some(end)) => span_range(start, end, total),
            _ => None,
        }
    }
}

/// The range that the header names in a file of `total` bytes.
pub open spec fn range_of(header: Seq<char>, total: u64) -> Option<ByteRange> {
    let rest = header.skip(6);
    if total == 0 || !unit().is_prefix_of(header) || rest.contains(',') {
        None
    } else {
        match rest.index_of_first('-') {
            Some(dash) => named_range(
                trimmed(rest.take(dash)),
                trimmed(rest.skip(dash + 1)),
                total,
            ),
            None => None,
        }
    }
}

/// A range that is read from a header lies within the file and is not
/// empty.
pub proof fn lemma_range_within(header: Seq<char>, total: u64)
    ensures
        range_of(header, total) matches Some(range) ==> range.length >= 1 && range.start
            + range.length <= total,
{
}

/// Whether `c` counts as space around a number.
pub fn is_whitespace(c: char) -> (r: bool)
    ensures
        r == is_space(c),
{
    let u = c as u32;
    (0x09 <= u && u <= 0x0d) || u == 0x20 || u == 0x85 || u == 0xa0 || u == 0x1680 || (0x2000 <= u
        && u <= 0x200a) || u == 0x2028 || u == 0x2029 || u == 0x202f || u == 0x205f || u
        == 0x3000
}

fn chars_of(s: &str) -> (v: Vec<char>)
    ensures
        v@ == s@,
{
    let mut v: Vec<char> = Vec::new();
    for c in it: s.chars()
        invariant
            it.seq() == s@,
            v@ == it.seq().take(it.index()),
    {
        v.push(c);
    }
    v
}

/// Where the text from `lo` up to `hi` begins and ends once the spaces at
/// its ends are left out.
fn trim_bounds(text: &[char], lo: usize, hi: usize) -> (r: (usize, usize))
    requires
        lo <= hi <= text@.len(),
    ensures
        lo <= r.0 <= r.1 <= hi,
        text@.subrange(r.0 as int, r.1 as int) == trimmed(text@.subrange(lo as int, hi as int)),
{
    let mut from = lo;
    while from < hi && is_whitespace(text[from])
        invariant
            lo <= from <= hi <= text@.len(),
            trim_start(text@.subrange(lo as int, hi as int)) == trim_start(
                text@.subrange(from as int, hi as int),
            ),
        decreases hi - from,
    {
        assert(text@.subrange(from as int, hi as int).skip(1) == text@.subrange(
            from + 1,
            hi as int,
        ));
        from += 1;
    }
    let mut to = hi;
    while from < to && is_whitespace(text[to - 1])
        invariant
            from <= to <= hi <= text@.len(),
            trim_end(text@.subrange(from as int, hi as int)) == trim_end(
                text@.subrange(from as int, to as int),
            ),
        decreases to - from,
    {
        assert(text@.subrange(from as int, to as int).drop_last() == text@.subrange(
            from as int,
            to - 1,
        ));
        to -= 1;
    }
    (from, to)
}

/// A longer run of digits writes no smaller a number.
proof fn lemma_decimal_grows(s: Seq<char>, k: int)
    requires
        0 <= k <= s.len(),
        all_digits(s),
    ensures
        decimal(s.take(k)) <= decimal(s),
    decreases s.len() - k,
{
    if k < s.len() {
        assert(s.take(k + 1).drop_last() == s.take(k));
        lemma_decimal_grows(s, k + 1);
    } else {
        assert(s.take(k) == s);
    }
}

/// Reads the text from `lo` up to `hi` as a number.
fn read_number(text: &[char], lo: usize, hi: usize) -> (r: Option<u64>)
    requires
        lo <= hi <= text@.len(),
    ensures
        r == number(text@.subrange(lo as int, hi as int)),
{
    let ghost whole = text@.subrange(lo as int, hi as int);
    let from = if lo < hi && text[lo] == '+' {
        lo + 1
    } else {
        lo
    };
    let ghost digits = text@.subrange(from as int, hi as int);
    assert(digits == if whole.len() > 0 && whole[0] == '+' {
        whole.skip(1)
    } else {
        whole
    });
    if from == hi {
        return None;
    }
    let mut value: u64 = 0;
    let mut i = from;
    while i < hi
        invariant
            lo <= from <= i <= hi <= text@.len(),
            from < hi,
            whole == text@.subrange(lo as int, hi as int),
            digits == text@.subrange(from as int, hi as int),
            digits == if whole.len() > 0 && whole[0] == '+' {
                whole.skip(1)
            } else {
                whole
            },
            all_digits(digits.take(i - from)),
            value == decimal(digits.take(i - from)),
        decreases hi - i,
    {
        let c = text[i];
        if !('0' <= c && c <= '9') {
            assert(digits[i - from] == c);
            return None;
        }
        let d = (c as u32 - '0' as u32) as u64;
        proof {
            assert(digits.take(i - from + 1).drop_last() == digits.take(i - from));
            assert(digits.take(i - from + 1).last() == c);
        }
        if value > (u64::MAX - d) / 10 {
            proof {
                if all_digits(digits) {
                    lemma_decimal_grows(digits, i - from + 1);
                }
            }
            return None;
        }
        value = value * 10 + d;
        i += 1;
    }
    assert(digits.take(hi - from) == digits);
    Some(value)
}

fn starts_with_unit(text: &[char]) -> (r: bool)
    ensures
        r == unit().is_prefix_of(text@),
{
    if text.len() < 6 {
        return false;
    }
    let r = text[0] == 'b' && text[1] == 'y' && text[2] == 't' && text[3] == 'e' && text[4] == 's'
        && text[5] == '=';
    proof {
        let head = text@.subrange(0, 6);
        if r {
            assert(unit() =~= head);
        } else {
            assert(unit()[0] == 'b' && unit()[1] == 'y' && unit()[2] == 't' && unit()[3] == 'e'
                && unit()[4] == 's' && unit()[5] == '=');
            assert(head[0] == text@[0] && head[1] == text@[1] && head[2] == text@[2] && head[3]
                == text@[3] && head[4] == text@[4] && head[5] == text@[5]);
        }
    }
    r
}

fn suffix(count: u64, total: u64) -> (r: Option<ByteRange>)
    ensures
        r == suffix_range(count, total),
{
    if count == 0 {
        None
    } else if count >= total {
        Some(ByteRange { start: 0, length: total })
    } else {
        Some(ByteRange { start: total - count, length: count })
    }
}

fn span(first: u64, last: u64, total: u64) -> (r: Option<ByteRange>)
    ensures
        r == span_range(first, last, total),
{
    if first > last || first >= total {
        None
    } else if last >= total {
        Some(ByteRange { start: first, length: total - first })
    } else {
        Some(ByteRange { start: first, length: last - first + 1 })
    }
}

/// Reads the value of a `Range` header for a file of `total_size` bytes.
///
/// Gives the one range that the header names, cut off at the end of the
/// file, or `None` where the header is malformed, names several ranges or
/// names one that holds no byte of the file. For an empty file every header
/// gives `None`.
#[must_use]
pub fn parse(header: &str, total_size: u64) -> (r: Option<ByteRange>)
    ensures
        r == range_of(header@, total_size),
        r matches Some(range) ==> range.length >= 1 && range.start + range.length <= total_size,
{
    if total_size == 0 {
        return None;
    }
    let chars = chars_of(header);
    let text = chars.as_slice();
    if !starts_with_unit(text) {
        return None;
    }
    let n = text.len();
    let ghost rest = text@.skip(6);
    let mut dash: Option<usize> = None;
    let mut i: usize = 6;
    while i < n
        invariant
            6 <= i <= n == text@.len(),
            total_size != 0,
            text@ == header@,
            unit().is_prefix_of(text@),
            rest == text@.skip(6),
            forall|j: int| 0 <= j < i - 6 ==> rest[j] != ',',
            match dash {
                Some(d) => 6 <= d < i && rest[d - 6] == '-' && forall|j: int|
                    0 <= j < d - 6 ==> rest[j] != '-',
                None => forall|j: int| 0 <= j < i - 6 ==> rest[j] != '-',
            },
        decreases n - i,
    {
        assert(rest[i - 6] == text@[i as int]);
        if text[i] == ',' {
            return None;
        }
        if dash.is_none() && text[i] == '-' {
            dash = Some(i);
        }
        i += 1;
    }
    proof {
        rest.index_of_first_ensures('-');
    }
    let dash = match dash {
        Some(d) => d,
        None => {
            return None;
        },
    };
    proof {
        let found = rest.index_of_first('-')->0;
        assert(found == dash - 6) by {
            if found < dash - 6 {
                assert(rest[found] != '-');
            }
        }
        assert(rest.take(dash - 6) == text@.subrange(6, dash as int));
        assert(rest.skip(dash - 6 + 1) == text@.subrange(dash + 1, n as int));
    }
    let (first_lo, first_hi) = trim_bounds(text, 6, dash);
    let (last_lo, last_hi) = trim_bounds(text, dash + 1, n);
    if first_lo == first_hi {
        match read_number(text, last_lo, last_hi) {
            Some(count) => suffix(count, total_size),
            None => None,
        }
    } else {
        let start = match read_number(text, first_lo, first_hi) {
            Some(start) => start,
            None => {
                return None;
            },
        };
        if last_lo == last_hi {
            span(start, total_size - 1, total_size)
        } else {
            match read_number(text, last_lo, last_hi) {
                Some(end) => span(start, end, total_size),
                None => None,
            }
        }
    }
}

} // verus!
