//! Decimal numerals as `str::parse` reads them for `isize` and `usize`.
use vstd::prelude::*;

verus! {

pub open spec fn is_digit(c: char) -> bool {
    '0' <= c && c <= '9'
}

pub open spec fn digit_value(c: char) -> int {
    c as int - '0' as int
}

pub open spec fn all_digits(s: Seq<char>) -> bool {
    forall|i: int| 0 <= i < s.len() ==> is_digit(#[trigger] s[i])
}

/// The value of a string of decimal digits, most significant first.
pub open spec fn digits_value(s: Seq<char>) -> int
    decreases s.len(),
{
    if s.len() == 0 {
        0
    } else {
        digits_value(s.drop_last()) * 10 + digit_value(s.last())
    }
}

/// The digits that follow an optional sign: `+` for any number, `-` only
/// for a signed one.
pub open spec fn unsigned_part(s: Seq<char>, signed: bool) -> Seq<char> {
    if s.len() > 0 && (s[0] == '+' || (signed && s[0] == '-')) {
        s.drop_first()
    } else {
        s
    }
}

pub open spec fn is_negative(s: Seq<char>, signed: bool) -> bool {
    signed && s.len() > 0 && s[0] == '-'
}

/// What `s.parse::<isize>()` gives: a sign, then at least one ASCII digit and
/// nothing else, and a value that fits.
pub open spec fn parse_isize_spec(s: Seq<char>) -> Option<isize> {
    let digits = unsigned_part(s, true);
    let magnitude = digits_value(digits);
    let v = if is_negative(s, true) { -magnitude } else { magnitude };
    if digits.len() == 0 || !all_digits(digits) || v < isize::MIN || v > isize::MAX {
        None
    } else {
        Some(v as isize)
    }
}

/// What `s.parse::<usize>()` gives: an optional `+`, then at least one ASCII
/// digit and nothing else, and a value that fits.
pub open spec fn parse_usize_spec(s: Seq<char>) -> Option<usize> {
    let digits = unsigned_part(s, false);
    let v = digits_value(digits);
    if digits.len() == 0 || !all_digits(digits) || v > usize::MAX {
        None
    } else {
        Some(v as usize)
    }
}

pub proof fn lemma_digits_value_nonneg(s: Seq<char>)
    requires
        all_digits(s),
    ensures
        digits_value(s) >= 0,
    decreases s.len(),
{
    if s.len() > 0 {
        assert(all_digits(s.drop_last()));
        lemma_digits_value_nonneg(s.drop_last());
        assert(is_digit(s[s.len() - 1]));
    }
}

/// A prefix of a numeral is worth no more than the whole numeral.
pub proof fn lemma_digits_value_prefix(s: Seq<char>, i: int)
    requires
        all_digits(s),
        0 <= i <= s.len(),
    ensures
        0 <= digits_value(s.take(i)) <= digits_value(s),
    decreases s.len(),
{
    if i == s.len() {
        assert(s.take(i) =~= s);
        lemma_digits_value_nonneg(s);
    } else {
        let t = s.drop_last();
        assert(all_digits(t));
        assert(t.take(i) =~= s.take(i));
        lemma_digits_value_prefix(t, i);
        assert(is_digit(s[s.len() - 1]));
    }
}

pub proof fn lemma_digits_value_step(s: Seq<char>, i: int)
    requires
        0 <= i < s.len(),
    ensures
        digits_value(s.take(i + 1)) == digits_value(s.take(i)) * 10 + digit_value(s[i]),
{
    assert(s.take(i + 1).drop_last() =~= s.take(i));
}

/// Reads `text` as `str::parse` reads an `isize` (`signed`) or a `usize`:
/// gives the sign and the magnitude, or `None` where the text is no numeral or
/// the magnitude exceeds `limit`.
fn read_numeral(text: &str, signed: bool, limit: u128) -> (r: Option<(bool, u128)>)
    requires
        limit >= 10,
    ensures
        match r {
            Some((neg, m)) => {
                &&& unsigned_part(text@, signed).len() > 0
                &&& all_digits(unsigned_part(text@, signed))
                &&& neg == is_negative(text@, signed)
                &&& m as int == digits_value(unsigned_part(text@, signed))
                &&& m <= limit
            },
            None => unsigned_part(text@, signed).len() == 0 || !all_digits(
                unsigned_part(text@, signed),
            ) || digits_value(unsigned_part(text@, signed)) > limit,
        },
{
    let len = text.unicode_len();
    let mut start: usize = 0;
    let mut neg = false;
    if len > 0 {
        let first = text.get_char(0);
        if first == '+' || (signed && first == '-') {
            start = 1;
            neg = first == '-';
        }
    }
    let ghost digits = unsigned_part(text@, signed);
    assert(digits =~= text@.skip(start as int));
    if start == len {
        return None;
    }
    let mut acc: u128 = 0;
    let mut i: usize = start;
    while i < len
        invariant
            start <= i <= len,
            len == text@.len(),
            digits =~= text@.skip(start as int),
            digits == unsigned_part(text@, signed),
            neg == is_negative(text@, signed),
            limit >= 10,
            acc as int == digits_value(digits.take(i - start)),
            acc <= limit,
            all_digits(digits.take(i - start)),
        decreases len - i,
    {
        let c = text.get_char(i);
        proof {
            lemma_digits_value_step(digits, i - start);
            assert(digits[i - start] == c);
        }
        if !('0' <= c && c <= '9') {
            assert(!all_digits(digits));
            return None;
        }
        let d = (c as u32 - '0' as u32) as u128;
        assert(digits.take(i - start + 1) =~= digits.take(i - start).push(c));
        if acc > (limit - d) / 10 {
            proof {
                assert(all_digits(digits.take(i - start + 1)));
                if all_digits(digits) {
                    lemma_digits_value_prefix(digits, i - start + 1);
                }
            }
            return None;
        }
        acc = acc * 10 + d;
        i = i + 1;
    }
    assert(digits.take(i - start) =~= digits);
    Some((neg, acc))
}

/// `text.parse::<isize>().ok()`, read one character at a time.
pub fn parse_isize(text: &str) -> (r: Option<isize>)
    ensures
        r == parse_isize_spec(text@),
{
    let limit: u128 = isize::MAX as u128 + 1;
    match read_numeral(text, true, limit) {
        None => None,
        Some((neg, m)) => {
            if neg {
                let v: i128 = -(m as i128);
                if v < isize::MIN as i128 {
                    None
                } else {
                    Some(v as isize)
                }
            } else if m > isize::MAX as u128 {
                None
            } else {
                Some(m as isize)
            }
        },
    }
}

/// `text.parse::<usize>().ok()`, read one character at a time.
pub fn parse_usize(text: &str) -> (r: Option<usize>)
    ensures
        r == parse_usize_spec(text@),
{
    match read_numeral(text, false, usize::MAX as u128) {
        None => None,
        Some((_, m)) => Some(m as usize),
    }
}

} // verus!
