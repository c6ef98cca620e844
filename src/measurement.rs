use vstd::prelude::*;
use vstd::slice::slice_subrange;

use crate::decimal::{all_digits, digit_value, digits_value, is_digit};

verus! {

/// The byte that separates a station's name from its value.
pub const SEPARATOR: u8 = 59;

/// Why a line could not be read as a measurement.
#[derive(Clone, Copy, Debug, PartialEq, Eq, Structural)]
pub enum ParseError {
    /// The line holds no `;`.
    MalformedLine,
    /// The text after the first `;` is not `[-]D+.D`, or does not fit in an `i64`.
    InvalidNumber,
}

/// One `(name, value)` pair read from a line; the name borrows the line.
pub struct Measurement<'a> {
    pub name: &'a [u8],
    /// The value in tenths of a unit.
    pub value: i64,
}

impl<'a> Measurement<'a> {
    pub fn new_from_data(name: &'a [u8], value: i64) -> (r: Self)
        ensures
            r.name@ == name@,
            r.value == value,
    {
        Measurement { name, value }
    }
}

/// Whether `v` is within the range of `i64`.
pub open spec fn fits_i64(v: int) -> bool {
    i64::MIN <= v <= i64::MAX
}

/// The value, in tenths, that the text `[-]D+.D` stands for; `None` for any other text.
pub open spec fn tenths_value(s: Seq<u8>) -> Option<int> {
    let negative = s.len() > 0 && s[0] == 45u8;
    let body = if negative { s.skip(1) } else { s };
    let n = body.len() as int;
    if n >= 3 && body[n - 2] == 46u8 && all_digits(body.take(n - 2)) && is_digit(body[n - 1]) {
        let magnitude = digits_value(body.take(n - 2)) * 10 + digit_value(body[n - 1]);
        Some(if negative { -magnitude } else { magnitude })
    } else {
        None
    }
}

/// Whether `i` is the position of the first separator of `line`.
pub open spec fn is_first_separator(line: Seq<u8>, i: int) -> bool {
    &&& 0 <= i < line.len()
    &&& line[i] == SEPARATOR
    &&& forall|j: int| 0 <= j < i ==> line[j] != SEPARATOR
}

/// What reading `line` gives: the name before the first separator and the value after it.
pub open spec fn parse_line_spec(line: Seq<u8>) -> Result<(Seq<u8>, int), ParseError> {
    if exists|i: int| is_first_separator(line, i) {
        let p = choose|i: int| is_first_separator(line, i);
        match tenths_value(line.skip(p + 1)) {
            Some(v) => if fits_i64(v) {
                Ok((line.take(p), v))
            } else {
                Err(ParseError::InvalidNumber)
            },
            None => Err(ParseError::InvalidNumber),
        }
    } else {
        Err(ParseError::MalformedLine)
    }
}

/// Appending digits never makes a digit string's value smaller.
proof fn lemma_digits_value_prefix(s: Seq<u8>, k: int)
    requires
        all_digits(s),
        0 <= k <= s.len(),
    ensures
        digits_value(s.take(k)) <= digits_value(s),
        0 <= digits_value(s.take(k)),
    decreases s.len(),
{
    if s.len() > 0 {
        assert(all_digits(s.drop_last()));
        if k == s.len() {
            assert(s.take(k) =~= s);
            lemma_digits_value_prefix(s.drop_last(), k - 1);
            assert(s.drop_last().take(k - 1) =~= s.drop_last());
        } else {
            lemma_digits_value_prefix(s.drop_last(), k);
            assert(s.drop_last().take(k) =~= s.take(k));
            lemma_digits_value_prefix(s.drop_last(), s.len() - 1);
            assert(s.drop_last().take(s.len() - 1) =~= s.drop_last());
        }
    } else {
        assert(s.take(k) =~= s);
    }
}

const MAGNITUDE_LIMIT: u64 = 9223372036854775808;

/// Reads the text `[-]D+.D` as a number of tenths.
pub fn parse_tenths(s: &[u8]) -> (r: Option<i64>)
    ensures
        r.is_some() <==> (tenths_value(s@).is_some() && fits_i64(tenths_value(s@).unwrap())),
        r.is_some() ==> r.unwrap() as int == tenths_value(s@).unwrap(),
{
    let len = s.len();
    let negative = len > 0 && s[0] == 45u8;
    let start: usize = if negative { 1 } else { 0 };
    let ghost body: Seq<u8> = if negative { s@.skip(1) } else { s@ };
    assert(body =~= s@.subrange(start as int, len as int));
    if len - start < 3 || s[len - 2] != 46u8 || !(48u8 <= s[len - 1] && s[len - 1] <= 57u8) {
        return None;
    }
    let ghost int_part: Seq<u8> = s@.subrange(start as int, len - 2);
    assert(body.take(body.len() - 2) =~= int_part);
    assert(tenths_value(s@).is_some() ==> all_digits(int_part));
    assert(tenths_value(s@).is_some() ==> {
        let mag = digits_value(int_part) * 10 + digit_value(s@[len - 1]);
        tenths_value(s@).unwrap() == if negative { -mag } else { mag }
    });
    let mut magnitude: u64 = 0;
    let mut i: usize = start;
    while i < len - 2
        invariant
            start <= i <= len - 2,
            len == s@.len(),
            int_part == s@.subrange(start as int, len - 2),
            all_digits(s@.subrange(start as int, i as int)),
            magnitude as int == digits_value(s@.subrange(start as int, i as int)),
            magnitude <= MAGNITUDE_LIMIT,
            tenths_value(s@).is_some() ==> all_digits(int_part),
            tenths_value(s@).is_some() ==> {
                let mag = digits_value(int_part) * 10 + digit_value(s@[len - 1]);
                tenths_value(s@).unwrap() == if negative { -mag } else { mag }
            },
        decreases len - 2 - i,
    {
        let b = s[i];
        let ghost next: Seq<u8> = s@.subrange(start as int, i + 1);
        assert(next.drop_last() =~= s@.subrange(start as int, i as int));
        if !(48u8 <= b && b <= 57u8) {
            assert(int_part[i - start] == b);
            assert(!is_digit(int_part[i - start]));
            assert(!all_digits(int_part));
            return None;
        }
        let d = (b - 48u8) as u64;
        if magnitude > (MAGNITUDE_LIMIT - d) / 10 {
            proof {
                assert(all_digits(next));
                let m = magnitude as int;
                let dd = d as int;
                let lim = MAGNITUDE_LIMIT as int;
                assert(m * 10 + dd > lim) by (nonlinear_arith)
                    requires
                        m > (lim - dd) / 10,
                        0 <= dd <= 9,
                ;
                assert(digits_value(next) > MAGNITUDE_LIMIT);
                if all_digits(int_part) {
                    assert(int_part.take(i + 1 - start) =~= next);
                    lemma_digits_value_prefix(int_part, i + 1 - start);
                    assert(digits_value(int_part) > MAGNITUDE_LIMIT);
                }
            }
            return None;
        }
        magnitude = magnitude * 10 + d;
        i = i + 1;
    }
    assert(s@.subrange(start as int, i as int) =~= int_part);
    let f = (s[len - 1] - 48u8) as u64;
    if magnitude > (MAGNITUDE_LIMIT - f) / 10 {
        return None;
    }
    magnitude = magnitude * 10 + f;
    if negative {
        if magnitude == MAGNITUDE_LIMIT {
            Some(i64::MIN)
        } else {
            Some(-(magnitude as i64))
        }
    } else if magnitude == MAGNITUDE_LIMIT {
        None
    } else {
        Some(magnitude as i64)
    }
}

/// Reads one line (without its line break) as a measurement: the name runs up to
/// the first `;`, and the rest is the value, `[-]D+.D`, read as tenths.
pub fn parse_line(line: &[u8]) -> (r: Result<Measurement<'_>, ParseError>)
    ensures
        match r {
            Ok(m) => parse_line_spec(line@) == Ok::<(Seq<u8>, int), ParseError>((m.name@, m.value as int)),
            Err(e) => parse_line_spec(line@) == Err::<(Seq<u8>, int), ParseError>(e),
        },
{
    let len = line.len();
    let mut p: usize = 0;
    while p < len && line[p] != SEPARATOR
        invariant
            p <= len == line@.len(),
            forall|j: int| 0 <= j < p ==> line@[j] != SEPARATOR,
        decreases len - p,
    {
        p = p + 1;
    }
    if p == len {
        assert(!exists|i: int| is_first_separator(line@, i));
        return Err(ParseError::MalformedLine);
    }
    assert(is_first_separator(line@, p as int));
    let ghost q = choose|i: int| is_first_separator(line@, i);
    assert(q == p) by {
        if q < p {
            assert(line@[q] != SEPARATOR);
        } else if q > p {
            assert(line@[p as int] != SEPARATOR);
        }
    }
    let name = slice_subrange(line, 0, p);
    let rest = slice_subrange(line, p + 1, len);
    assert(name@ =~= line@.take(p as int));
    assert(rest@ =~= line@.skip(p + 1));
    match parse_tenths(rest) {
        Some(value) => Ok(Measurement::new_from_data(name, value)),
        None => Err(ParseError::InvalidNumber),
    }
}

} // verus!
