//! Record parser: one line `<key>;<value>` to a key and a measurement in tenths.
use vstd::prelude::*;
use crate::stats::{value_in_range, MAX_TENTHS};

verus! {

/// Why a line is not a record.
#[derive(PartialEq, Eq, Structural, Clone, Copy, Debug)]
pub enum ParseError {
    /// The line holds no `;`.
    MissingDelimiter,
    /// Nothing but whitespace before the last `;`.
    EmptyKey,
    /// Nothing but whitespace after the last `;`.
    EmptyValue,
    /// The value is not a decimal number of the accepted shape.
    MalformedNumber,
    /// The line's bytes are not UTF-8 text.
    InvalidEncoding,
}

impl ParseError {
    /// Whether the fault is a malformed record (missing delimiter, empty field or bad
    /// number) rather than bad encoding.
    pub fn is_record_malformed(&self) -> (r: bool)
        ensures
            r == (*self != ParseError::InvalidEncoding),
    {
        !matches!(self, ParseError::InvalidEncoding)
    }
}

/// The field delimiter, `;`.
pub const DELIMITER: u8 = 59;

/// The line terminator, `\n`.
pub const NEWLINE: u8 = 10;

/// Most digits accepted before the decimal point.
pub const MAX_INT_DIGITS: usize = 16;

/// Whether the bytes are valid UTF-8.
pub uninterp spec fn valid_utf8(b: Seq<u8>) -> bool;

/// Relies on `std::str::from_utf8`: it succeeds exactly on valid UTF-8.
#[verifier::external_body]
fn is_utf8(data: &[u8], lo: usize, hi: usize) -> (r: bool)
    requires
        lo <= hi <= data@.len(),
    ensures
        r == valid_utf8(data@.subrange(lo as int, hi as int)),
{
    std::str::from_utf8(&data[lo..hi]).is_ok()
}

pub open spec fn is_space(b: u8) -> bool {
    b == 32 || (9 <= b && b <= 13)
}

pub open spec fn is_digit(b: u8) -> bool {
    48 <= b && b <= 57
}

/// Drops leading ASCII whitespace.
pub open spec fn trim_start(s: Seq<u8>) -> Seq<u8>
    decreases s.len(),
{
    if s.len() > 0 && is_space(s[0]) {
        trim_start(s.drop_first())
    } else {
        s
    }
}

/// Drops trailing ASCII whitespace.
pub open spec fn trim_end(s: Seq<u8>) -> Seq<u8>
    decreases s.len(),
{
    if s.len() > 0 && is_space(s.last()) {
        trim_end(s.drop_last())
    } else {
        s
    }
}

pub open spec fn trim(s: Seq<u8>) -> Seq<u8> {
    trim_end(trim_start(s))
}

/// Index of the last occurrence of `c` in `s`, or -1.
pub open spec fn last_index_of(s: Seq<u8>, c: u8) -> int
    decreases s.len(),
{
    if s.len() == 0 {
        -1
    } else if s.last() == c {
        s.len() - 1
    } else {
        last_index_of(s.drop_last(), c)
    }
}

/// The number that a string of decimal digits spells.
pub open spec fn digits_value(s: Seq<u8>) -> int
    decreases s.len(),
{
    if s.len() == 0 {
        0
    } else {
        digits_value(s.drop_last()) * 10 + (s.last() - 48)
    }
}

pub open spec fn all_digits(s: Seq<u8>) -> bool {
    forall|i: int| 0 <= i < s.len() ==> is_digit(#[trigger] s[i])
}

pub open spec fn integer_part_ok(s: Seq<u8>) -> bool {
    1 <= s.len() <= MAX_INT_DIGITS && all_digits(s)
}

/// Unsigned magnitude in tenths: `digits` or `digits.d`.
pub open spec fn magnitude(b: Seq<u8>) -> Option<int> {
    if b.len() >= 3 && b[b.len() - 2] == 46 {
        let ip = b.subrange(0, b.len() - 2);
        if integer_part_ok(ip) && is_digit(b.last()) {
            Some(digits_value(ip) * 10 + (b.last() - 48))
        } else {
            None
        }
    } else if integer_part_ok(b) {
        Some(digits_value(b) * 10)
    } else {
        None
    }
}

/// A decimal number with one optional sign and at most one fractional digit, in tenths.
pub open spec fn parse_tenths(s: Seq<u8>) -> Option<int> {
    let signed = s.len() > 0 && (s[0] == 45 || s[0] == 43);
    let body = if signed { s.drop_first() } else { s };
    match magnitude(body) {
        Some(m) => Some(if signed && s[0] == 45 { -m } else { m }),
        None => None,
    }
}

/// What one line denotes, once it is known to be text: split at the last delimiter, trim
/// both sides, read the value.
pub open spec fn record_of(line: Seq<u8>) -> Result<(Seq<u8>, int), ParseError> {
    let d = last_index_of(line, DELIMITER);
    if d < 0 {
        Err(ParseError::MissingDelimiter)
    } else {
        let key = trim(line.subrange(0, d));
        let val = trim(line.subrange(d + 1, line.len() as int));
        if key.len() == 0 {
            Err(ParseError::EmptyKey)
        } else if val.len() == 0 {
            Err(ParseError::EmptyValue)
        } else {
            match parse_tenths(val) {
                Some(v) => Ok((key, v)),
                None => Err(ParseError::MalformedNumber),
            }
        }
    }
}

/// What one line denotes: a key and a measurement, or the first fault found.
pub open spec fn line_outcome(line: Seq<u8>) -> Result<(Seq<u8>, int), ParseError> {
    if !valid_utf8(line) {
        Err(ParseError::InvalidEncoding)
    } else {
        record_of(line)
    }
}

pub open spec fn pow10(k: nat) -> int
    decreases k,
{
    if k == 0 {
        1
    } else {
        10 * pow10((k - 1) as nat)
    }
}

proof fn lemma_pow10_mono(a: nat, b: nat)
    requires
        a <= b,
    ensures
        1 <= pow10(a) <= pow10(b),
    decreases b,
{
    if a < b {
        lemma_pow10_mono(a, (b - 1) as nat);
    } else if a > 0 {
        lemma_pow10_mono((a - 1) as nat, (a - 1) as nat);
    }
}

proof fn lemma_digits_bound(s: Seq<u8>)
    requires
        all_digits(s),
    ensures
        0 <= digits_value(s) < pow10(s.len()),
    decreases s.len(),
{
    if s.len() > 0 {
        let p = s.drop_last();
        assert(all_digits(p)) by {
            assert forall|i: int| 0 <= i < p.len() implies is_digit(#[trigger] p[i]) by {
                assert(p[i] == s[i]);
            }
        }
        lemma_digits_bound(p);
        assert(is_digit(s[s.len() - 1]));
    }
}

/// Any value read by `parse_tenths` is within the accepted magnitude.
pub proof fn lemma_parsed_in_range(s: Seq<u8>)
    ensures
        parse_tenths(s) matches Some(v) ==> value_in_range(v),
{
    let signed = s.len() > 0 && (s[0] == 45 || s[0] == 43);
    let b = if signed { s.drop_first() } else { s };
    reveal_with_fuel(pow10, 17);
    if b.len() >= 3 && b[b.len() - 2] == 46 {
        let ip = b.subrange(0, b.len() - 2);
        if integer_part_ok(ip) && is_digit(b.last()) {
            lemma_digits_bound(ip);
            lemma_pow10_mono(ip.len(), 16);
        }
    } else if integer_part_ok(b) {
        lemma_digits_bound(b);
        lemma_pow10_mono(b.len(), 16);
    }
}

/// First index in `lo..hi` that is not whitespace, scanning forward.
fn skip_space_forward(data: &[u8], lo: usize, hi: usize) -> (r: usize)
    requires
        lo <= hi <= data@.len(),
    ensures
        lo <= r <= hi,
        trim_start(data@.subrange(lo as int, hi as int)) == data@.subrange(r as int, hi as int),
{
    let mut i: usize = lo;
    while i < hi && is_space_byte(data[i])
        invariant
            lo <= i <= hi <= data@.len(),
            trim_start(data@.subrange(lo as int, hi as int)) == trim_start(
                data@.subrange(i as int, hi as int),
            ),
        decreases hi - i,
    {
        assert(data@.subrange(i as int, hi as int).drop_first() =~= data@.subrange(
            i + 1,
            hi as int,
        ));
        i = i + 1;
    }
    i
}

/// End of `lo..hi` once trailing whitespace is dropped, scanning backward.
fn skip_space_backward(data: &[u8], lo: usize, hi: usize) -> (r: usize)
    requires
        lo <= hi <= data@.len(),
    ensures
        lo <= r <= hi,
        trim_end(data@.subrange(lo as int, hi as int)) == data@.subrange(lo as int, r as int),
{
    let mut j: usize = hi;
    while j > lo && is_space_byte(data[j - 1])
        invariant
            lo <= j <= hi <= data@.len(),
            trim_end(data@.subrange(lo as int, hi as int)) == trim_end(
                data@.subrange(lo as int, j as int),
            ),
        decreases j - lo,
    {
        assert(data@.subrange(lo as int, j as int).drop_last() =~= data@.subrange(
            lo as int,
            j - 1,
        ));
        j = j - 1;
    }
    j
}

fn is_space_byte(b: u8) -> (r: bool)
    ensures
        r == is_space(b),
{
    b == 32 || (9 <= b && b <= 13)
}

fn is_digit_byte(b: u8) -> (r: bool)
    ensures
        r == is_digit(b),
{
    48 <= b && b <= 57
}

/// Trimmed bounds of `lo..hi`.
fn trim_range(data: &[u8], lo: usize, hi: usize) -> (r: (usize, usize))
    requires
        lo <= hi <= data@.len(),
    ensures
        lo <= r.0 <= r.1 <= hi,
        trim(data@.subrange(lo as int, hi as int)) == data@.subrange(r.0 as int, r.1 as int),
{
    let a = skip_space_forward(data, lo, hi);
    let b = skip_space_backward(data, a, hi);
    (a, b)
}

/// Position of the last `c` in `lo..hi`, as an absolute index.
fn find_last(data: &[u8], lo: usize, hi: usize, c: u8) -> (r: Option<usize>)
    requires
        lo <= hi <= data@.len(),
    ensures
        match r {
            Some(i) => lo <= i < hi && last_index_of(data@.subrange(lo as int, hi as int), c)
                == i - lo,
            None => last_index_of(data@.subrange(lo as int, hi as int), c) == -1,
        },
{
    let mut j: usize = hi;
    while j > lo
        invariant
            lo <= j <= hi <= data@.len(),
            last_index_of(data@.subrange(lo as int, hi as int), c) == last_index_of(
                data@.subrange(lo as int, j as int),
                c,
            ),
        decreases j - lo,
    {
        if data[j - 1] == c {
            return Some(j - 1);
        }
        assert(data@.subrange(lo as int, j as int).drop_last() =~= data@.subrange(
            lo as int,
            j - 1,
        ));
        j = j - 1;
    }
    None
}

/// Reads the digits of `lo..hi` as a number; `None` unless there are one to
/// `MAX_INT_DIGITS` digits and nothing else.
fn read_integer_part(data: &[u8], lo: usize, hi: usize) -> (r: Option<i64>)
    requires
        lo <= hi <= data@.len(),
    ensures
        match r {
            Some(v) => integer_part_ok(data@.subrange(lo as int, hi as int)) && v as int
                == digits_value(data@.subrange(lo as int, hi as int)),
            None => !integer_part_ok(data@.subrange(lo as int, hi as int)),
        },
{
    if hi == lo || hi - lo > MAX_INT_DIGITS {
        return None;
    }
    let mut v: i64 = 0;
    let mut i: usize = lo;
    proof {
        reveal_with_fuel(pow10, 17);
        lemma_pow10_mono((hi - lo) as nat, 16);
    }
    while i < hi
        invariant
            lo <= i <= hi <= data@.len(),
            hi - lo <= 16,
            pow10((hi - lo) as nat) <= 10_000_000_000_000_000,
            all_digits(data@.subrange(lo as int, i as int)),
            v as int == digits_value(data@.subrange(lo as int, i as int)),
            0 <= v < pow10((i - lo) as nat),
        decreases hi - i,
    {
        let b = data[i];
        if !is_digit_byte(b) {
            assert(data@.subrange(lo as int, hi as int)[i - lo] == b);
            return None;
        }
        let ghost prev = data@.subrange(lo as int, i as int);
        let ghost next = data@.subrange(lo as int, i + 1);
        assert(next.drop_last() =~= prev);
        proof {
            lemma_pow10_mono((i + 1 - lo) as nat, (hi - lo) as nat);
        }
        v = v * 10 + (b - 48) as i64;
        i = i + 1;
        assert(all_digits(next)) by {
            assert forall|t: int| 0 <= t < next.len() implies is_digit(#[trigger] next[t]) by {
                if t < prev.len() {
                    assert(next[t] == prev[t]);
                }
            }
        }
    }
    Some(v)
}

/// A valid integer part is below ten to the sixteenth.
proof fn lemma_integer_part_bound(s: Seq<u8>)
    requires
        integer_part_ok(s),
    ensures
        0 <= digits_value(s) < 10_000_000_000_000_000,
{
    lemma_digits_bound(s);
    lemma_pow10_mono(s.len(), 16);
    reveal_with_fuel(pow10, 17);
}

/// Reads an unsigned `lo..hi` as a magnitude in tenths.
fn read_magnitude(data: &[u8], lo: usize, hi: usize) -> (r: Option<i64>)
    requires
        lo <= hi <= data@.len(),
    ensures
        match r {
            Some(m) => magnitude(data@.subrange(lo as int, hi as int)) == Some(m as int),
            None => magnitude(data@.subrange(lo as int, hi as int)) is None,
        },
{
    let ghost body = data@.subrange(lo as int, hi as int);
    if hi - lo >= 3 && data[hi - 2] == 46 {
        assert(body[body.len() - 2] == data@[hi - 2]);
        assert(body.subrange(0, body.len() - 2) =~= data@.subrange(lo as int, hi - 2));
        let last = data[hi - 1];
        match read_integer_part(data, lo, hi - 2) {
            Some(ip) => {
                if is_digit_byte(last) {
                    proof {
                        lemma_integer_part_bound(data@.subrange(lo as int, hi - 2));
                    }
                    Some(ip * 10 + (last - 48) as i64)
                } else {
                    None
                }
            },
            None => None,
        }
    } else {
        if hi - lo >= 3 {
            assert(body[body.len() - 2] == data@[hi - 2]);
        }
        match read_integer_part(data, lo, hi) {
            Some(ip) => {
                proof {
                    lemma_integer_part_bound(body);
                }
                Some(ip * 10)
            },
            None => None,
        }
    }
}

/// Reads `lo..hi` as a decimal number in tenths.
fn read_tenths(data: &[u8], lo: usize, hi: usize) -> (r: Option<i64>)
    requires
        lo <= hi <= data@.len(),
    ensures
        match r {
            Some(v) => parse_tenths(data@.subrange(lo as int, hi as int)) == Some(v as int),
            None => parse_tenths(data@.subrange(lo as int, hi as int)) is None,
        },
{
    let ghost s = data@.subrange(lo as int, hi as int);
    let signed = lo < hi && (data[lo] == 45 || data[lo] == 43);
    let negative = signed && data[lo] == 45;
    let b0: usize = if signed { lo + 1 } else { lo };
    assert(data@.subrange(b0 as int, hi as int) =~= (if signed { s.drop_first() } else { s }));
    match read_magnitude(data, b0, hi) {
        Some(m) => {
            proof {
                lemma_parsed_in_range(s);
            }
            if negative {
                Some(-m)
            } else {
                Some(m)
            }
        },
        None => None,
    }
}

/// Copies `lo..hi` out of `data`.
pub fn copy_range(data: &[u8], lo: usize, hi: usize) -> (r: Vec<u8>)
    requires
        lo <= hi <= data@.len(),
    ensures
        r@ == data@.subrange(lo as int, hi as int),
{
    let mut v: Vec<u8> = Vec::new();
    let mut i: usize = lo;
    while i < hi
        invariant
            lo <= i <= hi <= data@.len(),
            v@ == data@.subrange(lo as int, i as int),
        decreases hi - i,
    {
        v.push(data[i]);
        i = i + 1;
        assert(v@ =~= data@.subrange(lo as int, i as int));
    }
    v
}

/// Parses the line `lo..hi` of `data` (its terminator excluded).
pub fn parse_record(data: &[u8], lo: usize, hi: usize) -> (r: Result<(Vec<u8>, i64), ParseError>)
    requires
        lo <= hi <= data@.len(),
    ensures
        match r {
            Ok((k, v)) => line_outcome(data@.subrange(lo as int, hi as int)) == Ok::<
                (Seq<u8>, int),
                ParseError,
            >((k@, v as int)) && value_in_range(v as int),
            Err(e) => line_outcome(data@.subrange(lo as int, hi as int)) == Err::<
                (Seq<u8>, int),
                ParseError,
            >(e),
        },
{
    let ghost line = data@.subrange(lo as int, hi as int);
    if !is_utf8(data, lo, hi) {
        return Err(ParseError::InvalidEncoding);
    }
    let d = match find_last(data, lo, hi, DELIMITER) {
        Some(d) => d,
        None => {
            return Err(ParseError::MissingDelimiter);
        },
    };
    assert(line.subrange(0, d - lo) =~= data@.subrange(lo as int, d as int));
    assert(line.subrange(d - lo + 1, line.len() as int) =~= data@.subrange(d + 1, hi as int));
    let (ka, kb) = trim_range(data, lo, d);
    let (va, vb) = trim_range(data, d + 1, hi);
    if ka == kb {
        return Err(ParseError::EmptyKey);
    }
    if va == vb {
        return Err(ParseError::EmptyValue);
    }
    match read_tenths(data, va, vb) {
        Some(v) => {
            proof {
                lemma_parsed_in_range(data@.subrange(va as int, vb as int));
            }
            Ok((copy_range(data, ka, kb), v))
        },
        None => Err(ParseError::MalformedNumber),
    }
}

/// Parses one line (without its terminator).
pub fn parse_line(line: &[u8]) -> (r: Result<(Vec<u8>, i64), ParseError>)
    ensures
        match r {
            Ok((k, v)) => line_outcome(line@) == Ok::<(Seq<u8>, int), ParseError>((k@, v as int)),
            Err(e) => line_outcome(line@) == Err::<(Seq<u8>, int), ParseError>(e),
        },
{
    let r = parse_record(line, 0, line.len());
    assert(line@.subrange(0, line@.len() as int) =~= line@);
    r
}

} // verus!

verus! {

/// The value of a parsed line is within the accepted magnitude.
pub proof fn lemma_outcome_in_range(line: Seq<u8>)
    ensures
        line_outcome(line) matches Ok((_, v)) ==> value_in_range(v),
{
    let d = last_index_of(line, DELIMITER);
    if d >= 0 {
        lemma_parsed_in_range(trim(line.subrange(d + 1, line.len() as int)));
    }
}

} // verus!
