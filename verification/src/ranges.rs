//! The range parser: one textual token, either `"N"` or `"N-M"`, becomes a
//! half-open interval `(start, end_exclusive)` of 1-based line numbers.

use vstd::prelude::*;

verus! {

/// Why a numeric field of a range token is not a valid unsigned integer.
#[derive(Debug)]
pub enum NumParseError {
    /// The field was the empty string.
    Empty,
    /// The field held a character that is neither a digit nor a leading sign.
    InvalidDigit,
    /// The value does not fit in the machine word.
    Overflow,
}

/// Everything that can go wrong while parsing ranges or reading the two
/// sources.
#[derive(Debug)]
pub enum BedMapError {
    /// Reading a line from the ranges source failed.
    RangeRead,
    /// A numeric field of a range token did not parse.
    RangeParse(NumParseError),
    /// A range token violates the structural rules: empty token, empty field,
    /// more than two fields, zero start, or end before start.
    RangeFormat,
    /// Reading a line from the lines source failed.
    TargetRead,
}

/// A decimal digit.
pub open spec fn is_digit(c: char) -> bool {
    48 <= c as int <= 57
}

/// The numeric value of one digit.
pub open spec fn digit_val(c: char) -> nat {
    (c as int - 48) as nat
}

/// Every character of `s` is a decimal digit.
pub open spec fn all_digits(s: Seq<char>) -> bool {
    forall|i: int| 0 <= i < s.len() ==> is_digit(#[trigger] s[i])
}

/// The value of a digit string read in base 10.
pub open spec fn digits_val(s: Seq<char>) -> nat
    decreases s.len(),
{
    if s.len() == 0 {
        0
    } else {
        digits_val(s.drop_last()) * 10 + digit_val(s.last())
    }
}

/// The digits of an unsigned-integer token: an optional leading `'+'` is not
/// part of the value.
pub open spec fn num_body(s: Seq<char>) -> Seq<char> {
    if s.len() > 0 && s[0] == '+' {
        s.skip(1)
    } else {
        s
    }
}

/// What parsing `s` as an unsigned integer yields: the base-10 value of its
/// digits, or the first reason it is not an unsigned-integer token.
pub open spec fn num_spec(s: Seq<char>) -> Result<usize, NumParseError> {
    if s.len() == 0 {
        Err(NumParseError::Empty)
    } else if num_body(s).len() == 0 {
        Err(NumParseError::InvalidDigit)
    } else if !all_digits(num_body(s)) {
        Err(NumParseError::InvalidDigit)
    } else if digits_val(num_body(s)) > usize::MAX {
        Err(NumParseError::Overflow)
    } else {
        Ok(digits_val(num_body(s)) as usize)
    }
}

/// Appending a digit multiplies the value by ten and adds the digit.
proof fn lemma_digits_val_push(s: Seq<char>, c: char)
    ensures
        digits_val(s.push(c)) == digits_val(s) * 10 + digit_val(c),
{
    assert(s.push(c).drop_last() =~= s);
    assert(s.push(c).last() == c);
}

/// Parse `s` as a base-10 unsigned integer, as an optional `'+'` followed by
/// one or more digits.
pub fn parse_uint(s: &str) -> (r: Result<usize, NumParseError>)
    ensures
        r == num_spec(s@),
{
    let n = s.unicode_len();
    if n == 0 {
        return Err(NumParseError::Empty);
    }
    let off: usize = if s.get_char(0) == '+' {
        1
    } else {
        0
    };
    proof {
        assert(num_body(s@) =~= s@.skip(off as int));
    }
    if n == off {
        return Err(NumParseError::InvalidDigit);
    }
    let mut i: usize = off;
    let mut val: usize = 0;
    let mut over: bool = false;
    while i < n
        invariant
            off <= i <= n,
            n == s@.len(),
            num_body(s@) =~= s@.skip(off as int),
            all_digits(s@.subrange(off as int, i as int)),
            !over ==> val == digits_val(s@.subrange(off as int, i as int)),
            over ==> digits_val(s@.subrange(off as int, i as int)) > usize::MAX,
        decreases n - i,
    {
        let c = s.get_char(i);
        let code = c as u32;
        if code < 48 || code > 57 {
            proof {
                assert(!is_digit(s@[i as int]));
                assert(num_body(s@)[i - off] == s@[i as int]);
                assert(!all_digits(num_body(s@)));
            }
            return Err(NumParseError::InvalidDigit);
        }
        let d = (code - 48) as usize;
        let ghost prefix = s@.subrange(off as int, i as int);
        proof {
            assert(s@.subrange(off as int, i as int + 1) =~= prefix.push(s@[i as int]));
            lemma_digits_val_push(prefix, s@[i as int]);
            vstd::arithmetic::div_mod::lemma_fundamental_div_mod(usize::MAX as int, 10);
        }
        if over {
        } else if val > usize::MAX / 10 || (val == usize::MAX / 10 && d > usize::MAX % 10) {
            over = true;
        } else {
            val = val * 10 + d;
        }
        i = i + 1;
    }
    proof {
        assert(s@.subrange(off as int, n as int) =~= num_body(s@));
    }
    if over {
        Err(NumParseError::Overflow)
    } else {
        Ok(val)
    }
}

/// The index of the first `'-'` in `s`, or `s.len()` if there is none.
pub open spec fn dash_pos(s: Seq<char>) -> int
    decreases s.len(),
{
    if s.len() == 0 {
        0
    } else if s[0] == '-' {
        0
    } else {
        1 + dash_pos(s.skip(1))
    }
}

/// `dash_pos` points at the first dash: nothing before it is a dash, and it
/// is a dash unless the whole string is dash-free.
pub proof fn lemma_dash_pos(s: Seq<char>)
    ensures
        0 <= dash_pos(s) <= s.len(),
        dash_pos(s) < s.len() ==> s[dash_pos(s)] == '-',
        forall|i: int| 0 <= i < dash_pos(s) ==> #[trigger] s[i] != '-',
    decreases s.len(),
{
    if s.len() == 0 {
    } else if s[0] == '-' {
    } else {
        lemma_dash_pos(s.skip(1));
        assert forall|i: int| 0 <= i < dash_pos(s) implies #[trigger] s[i] != '-' by {
            if i > 0 {
                assert(s.skip(1)[i - 1] == s[i]);
            }
        }
        if dash_pos(s) < s.len() {
            assert(s.skip(1)[dash_pos(s) - 1] == s[dash_pos(s)]);
        }
    }
}

/// The index of the first `'-'` in `s`, or its length if there is none.
fn find_dash(s: &str) -> (d: usize)
    ensures
        d == dash_pos(s@),
{
    let n = s.unicode_len();
    let mut i: usize = 0;
    while i < n
        invariant
            i <= n,
            n == s@.len(),
            forall|j: int| 0 <= j < i ==> #[trigger] s@[j] != '-',
        decreases n - i,
    {
        if s.get_char(i) == '-' {
            proof {
                lemma_dash_pos(s@);
                assert(dash_pos(s@) == i);
            }
            return i;
        }
        i = i + 1;
    }
    proof {
        lemma_dash_pos(s@);
    }
    n
}

/// What parsing `s` as a range token yields, mirroring the validation order:
/// an empty first field or a second dash is a format error; then each numeric
/// field must parse; then the start must be positive and no greater than the
/// end. A valid token `"N"` or `"N-M"` yields the half-open pair
/// `(N, M + 1)` (with `M = N` when there is no second field).
pub open spec fn range_spec(s: Seq<char>) -> Result<(usize, usize), BedMapError> {
    let d = dash_pos(s);
    if d == 0 {
        Err(BedMapError::RangeFormat)
    } else if d < s.len() && dash_pos(s.skip(d + 1)) < s.len() - (d + 1) {
        Err(BedMapError::RangeFormat)
    } else {
        match num_spec(s.subrange(0, d)) {
            Err(e) => Err(BedMapError::RangeParse(e)),
            Ok(start) => if d == s.len() {
                if start == 0 {
                    Err(BedMapError::RangeFormat)
                } else if start == usize::MAX {
                    Err(BedMapError::RangeParse(NumParseError::Overflow))
                } else {
                    Ok((start, (start + 1) as usize))
                }
            } else if s.len() == d + 1 {
                Err(BedMapError::RangeFormat)
            } else {
                match num_spec(s.skip(d + 1)) {
                    Err(e) => Err(BedMapError::RangeParse(e)),
                    Ok(end) => if start == 0 || end < start {
                        Err(BedMapError::RangeFormat)
                    } else if end == usize::MAX {
                        Err(BedMapError::RangeParse(NumParseError::Overflow))
                    } else {
                        Ok((start, (end + 1) as usize))
                    },
                }
            },
        }
    }
}

/// A successfully parsed range is a non-empty interval of positive line
/// numbers.
pub proof fn lemma_range_spec_ok(s: Seq<char>)
    ensures
        range_spec(s) matches Ok(p) ==> 1 <= p.0 < p.1,
{
}

/// A string of digits holds no dash.
proof fn lemma_no_dash_in_digits(s: Seq<char>)
    requires
        all_digits(s),
    ensures
        dash_pos(s) == s.len(),
{
    lemma_dash_pos(s);
    if dash_pos(s) < s.len() {
        assert(is_digit(s[dash_pos(s)]));
    }
}

/// Law: every valid single-number token selects exactly that line. For a
/// digit string of value `n` with `1 <= n < usize::MAX`, the parser yields
/// the half-open pair `(n, n + 1)`.
pub proof fn lemma_parse_single_number(s: Seq<char>)
    requires
        all_digits(s),
        s.len() > 0,
        1 <= digits_val(s),
        digits_val(s) < usize::MAX,
    ensures
        range_spec(s) == Ok::<(usize, usize), BedMapError>(
            (digits_val(s) as usize, (digits_val(s) + 1) as usize),
        ),
{
    lemma_no_dash_in_digits(s);
    assert(is_digit(s[0]));
    assert(s[0] != '+');
    assert(num_body(s) == s);
    assert(s.subrange(0, s.len() as int) =~= s);
}

/// Law: every valid two-number token `"N-M"` with `1 <= N <= M` selects the
/// lines `N` through `M` inclusive: for digit strings of values `n <= m`
/// with `n >= 1` and `m < usize::MAX`, the parser yields `(n, m + 1)`.
pub proof fn lemma_parse_pair(a: Seq<char>, b: Seq<char>)
    requires
        all_digits(a),
        a.len() > 0,
        all_digits(b),
        b.len() > 0,
        1 <= digits_val(a),
        digits_val(a) <= digits_val(b),
        digits_val(b) < usize::MAX,
    ensures
        range_spec(a + seq!['-'] + b) == Ok::<(usize, usize), BedMapError>(
            (digits_val(a) as usize, (digits_val(b) + 1) as usize),
        ),
{
    let s = a + seq!['-'] + b;
    lemma_dash_pos(s);
    assert(s[a.len() as int] == '-');
    assert forall|i: int| 0 <= i < a.len() implies #[trigger] s[i] != '-' by {
        assert(s[i] == a[i]);
        assert(is_digit(a[i]));
    }
    assert(dash_pos(s) == a.len());
    let d = dash_pos(s);
    assert(s.subrange(0, d) =~= a);
    assert(s.skip(d + 1) =~= b);
    lemma_no_dash_in_digits(b);
    assert(is_digit(a[0]));
    assert(a[0] != '+');
    assert(num_body(a) == a);
    assert(is_digit(b[0]));
    assert(b[0] != '+');
    assert(num_body(b) == b);
}

/// Parse one range token: `"N"` selects the single line `N`, `"N-M"` selects
/// lines `N` through `M` inclusive; the result is the half-open pair
/// `(start, end_exclusive)`.
pub fn parse_range(range: &str) -> (r: Result<(usize, usize), BedMapError>)
    ensures
        r == range_spec(range@),
        r matches Ok(p) ==> 1 <= p.0 < p.1,
{
    proof {
        lemma_range_spec_ok(range@);
        lemma_dash_pos(range@);
    }
    let n = range.unicode_len();
    let d = find_dash(range);
    if d == 0 {
        return Err(BedMapError::RangeFormat);
    }
    if d < n {
        let rest = range.substring_char(d + 1, n);
        proof {
            assert(rest@ =~= range@.skip(d + 1));
        }
        let rest_len = rest.unicode_len();
        let d2 = find_dash(rest);
        if d2 < rest_len {
            return Err(BedMapError::RangeFormat);
        }
    }
    let f1 = range.substring_char(0, d);
    proof {
        assert(f1@ =~= range@.subrange(0, d as int));
    }
    let start = match parse_uint(f1) {
        Ok(v) => v,
        Err(e) => {
            return Err(BedMapError::RangeParse(e));
        },
    };
    if d == n {
        if start == 0 {
            Err(BedMapError::RangeFormat)
        } else if start == usize::MAX {
            Err(BedMapError::RangeParse(NumParseError::Overflow))
        } else {
            Ok((start, start + 1))
        }
    } else if d + 1 == n {
        Err(BedMapError::RangeFormat)
    } else {
        let f2 = range.substring_char(d + 1, n);
        proof {
            assert(f2@ =~= range@.skip(d + 1));
        }
        let end = match parse_uint(f2) {
            Ok(v) => v,
            Err(e) => {
                return Err(BedMapError::RangeParse(e));
            },
        };
        if start == 0 || end < start {
            Err(BedMapError::RangeFormat)
        } else if end == usize::MAX {
            Err(BedMapError::RangeParse(NumParseError::Overflow))
        } else {
            Ok((start, end + 1))
        }
    }
}

} // verus!

