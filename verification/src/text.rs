//! Character-level helpers shared by the tabular codec and the geocoding
//! client: digit strings for the numeric columns, and the plain-decimal
//! shape that latitude and longitude cells must have.

use vstd::prelude::*;
use vstd::string::StrSliceExecFns;

verus! {

/// Appends one character to a string.
///
/// Relies on std's String::push: it appends exactly the given character.
#[verifier::external_body]
pub fn push_char(s: &mut String, c: char)
    ensures
        final(s)@ == old(s)@.push(c),
{
    s.push(c);
}

/// The characters of `s`, in order, as a vector.
pub fn chars_of(s: &str) -> (r: Vec<char>)
    ensures
        r@ == s@,
{
    let n = s.unicode_len();
    let mut r: Vec<char> = Vec::new();
    let mut i: usize = 0;
    while i < n
        invariant
            i <= n,
            n == s@.len(),
            r@ == s@.take(i as int),
        decreases n - i,
    {
        r.push(s.get_char(i));
        i += 1;
        proof {
            assert(r@ =~= s@.take(i as int));
        }
    }
    proof {
        assert(s@.take(n as int) =~= s@);
    }
    r
}

/// The string holding exactly the characters of `v`, in order.
pub fn string_of(v: &Vec<char>) -> (r: String)
    ensures
        r@ == v@,
{
    let mut r = String::new();
    let mut i: usize = 0;
    while i < v.len()
        invariant
            i <= v@.len(),
            r@ == v@.take(i as int),
        decreases v@.len() - i,
    {
        push_char(&mut r, v[i]);
        i += 1;
        proof {
            assert(r@ =~= v@.take(i as int));
        }
    }
    proof {
        assert(v@.take(v@.len() as int) =~= v@);
    }
    r
}

pub open spec fn is_digit(c: char) -> bool {
    48 <= c as int && c as int <= 57
}

pub open spec fn digit_val(c: char) -> int {
    c as int - 48
}

/// The digit denoted by `c`, if any.
pub fn digit_of(c: char) -> (r: Option<u32>)
    ensures
        match r {
            Some(d) => is_digit(c) && d as int == digit_val(c),
            None => !is_digit(c),
        },
{
    match c {
        '0' => Some(0),
        '1' => Some(1),
        '2' => Some(2),
        '3' => Some(3),
        '4' => Some(4),
        '5' => Some(5),
        '6' => Some(6),
        '7' => Some(7),
        '8' => Some(8),
        '9' => Some(9),
        _ => None,
    }
}

pub open spec fn digit_char(d: int) -> char {
    if d == 0 {
        '0'
    } else if d == 1 {
        '1'
    } else if d == 2 {
        '2'
    } else if d == 3 {
        '3'
    } else if d == 4 {
        '4'
    } else if d == 5 {
        '5'
    } else if d == 6 {
        '6'
    } else if d == 7 {
        '7'
    } else if d == 8 {
        '8'
    } else {
        '9'
    }
}

/// The character denoting digit `d`.
pub fn char_of_digit(d: u32) -> (r: char)
    requires
        d < 10,
    ensures
        r == digit_char(d as int),
{
    if d == 0 {
        '0'
    } else if d == 1 {
        '1'
    } else if d == 2 {
        '2'
    } else if d == 3 {
        '3'
    } else if d == 4 {
        '4'
    } else if d == 5 {
        '5'
    } else if d == 6 {
        '6'
    } else if d == 7 {
        '7'
    } else if d == 8 {
        '8'
    } else {
        '9'
    }
}

pub open spec fn all_digits(s: Seq<char>) -> bool {
    forall|i: int| 0 <= i < s.len() ==> is_digit(#[trigger] s[i])
}

/// Numeric value of a digit string, most significant digit first.
pub open spec fn u32_value(s: Seq<char>) -> int
    decreases s.len(),
{
    if s.len() == 0 {
        0
    } else {
        u32_value(s.drop_last()) * 10 + digit_val(s.last())
    }
}

/// A cell that denotes a u32: at least one digit, digits only, in range.
pub open spec fn is_u32_numeral(s: Seq<char>) -> bool {
    s.len() > 0 && all_digits(s) && u32_value(s) <= u32::MAX
}

/// Canonical decimal rendering of a non-negative integer.
pub open spec fn u32_numeral(n: int) -> Seq<char>
    decreases n,
{
    if n < 10 {
        seq![digit_char(n)]
    } else {
        u32_numeral(n / 10).push(digit_char(n % 10))
    }
}

pub proof fn lemma_u32_value_nonneg(s: Seq<char>)
    requires
        all_digits(s),
    ensures
        u32_value(s) >= 0,
    decreases s.len(),
{
    if s.len() > 0 {
        lemma_u32_value_nonneg(s.drop_last());
    }
}

pub proof fn lemma_u32_numeral_wf(n: int)
    requires
        0 <= n,
    ensures
        u32_numeral(n).len() > 0,
        all_digits(u32_numeral(n)),
        u32_value(u32_numeral(n)) == n,
    decreases n,
{
    if n < 10 {
        assert(u32_numeral(n) =~= seq![digit_char(n)]);
        assert(u32_numeral(n).drop_last() =~= Seq::<char>::empty());
        assert(u32_numeral(n).last() == digit_char(n));
        assert(digit_val(digit_char(n)) == n);
        assert(u32_value(u32_numeral(n)) == u32_value(Seq::<char>::empty()) * 10 + digit_val(
            digit_char(n),
        ));
    } else {
        lemma_u32_numeral_wf(n / 10);
        assert(u32_numeral(n) == u32_numeral(n / 10).push(digit_char(n % 10)));
        assert(u32_numeral(n).drop_last() =~= u32_numeral(n / 10));
        assert(u32_numeral(n).last() == digit_char(n % 10));
        assert(0 <= n % 10 < 10);
        assert(digit_val(digit_char(n % 10)) == n % 10);
        assert(n / 10 * 10 + n % 10 == n);
        assert forall|i: int| 0 <= i < u32_numeral(n).len() implies is_digit(
            #[trigger] u32_numeral(n)[i],
        ) by {
            if i < u32_numeral(n).len() - 1 {
                assert(u32_numeral(n)[i] == u32_numeral(n / 10)[i]);
            }
        }
    }
}

/// Renders `n` in decimal.
pub fn u32_to_string(n: u32) -> (r: String)
    ensures
        r@ == u32_numeral(n as int),
    decreases n,
{
    if n < 10 {
        let mut r = String::new();
        push_char(&mut r, char_of_digit(n));
        proof {
            assert(r@ =~= seq![digit_char(n as int)]);
        }
        r
    } else {
        let mut r = u32_to_string(n / 10);
        push_char(&mut r, char_of_digit(n % 10));
        r
    }
}

proof fn lemma_u32_value_take_step(s: Seq<char>, i: int)
    requires
        0 <= i < s.len(),
    ensures
        u32_value(s.take(i + 1)) == u32_value(s.take(i)) * 10 + digit_val(s[i]),
{
    assert(s.take(i + 1).drop_last() =~= s.take(i));
    assert(s.take(i + 1).last() == s[i]);
}

proof fn lemma_u32_value_take_monotone(s: Seq<char>, i: int)
    requires
        all_digits(s),
        0 <= i <= s.len(),
    ensures
        u32_value(s.take(i)) <= u32_value(s),
    decreases s.len() - i,
{
    if i < s.len() {
        lemma_u32_value_take_step(s, i);
        assert(is_digit(s[i]));
        lemma_u32_value_nonneg(s.take(i));
        lemma_u32_value_take_monotone(s, i + 1);
    } else {
        assert(s.take(i) =~= s);
    }
}

/// Reads a u32 from a cell of decimal digits; reports exactly when the cell
/// is not a numeral in range.
pub fn parse_u32_str(s: &str) -> (r: Option<u32>)
    ensures
        match r {
            Some(n) => is_u32_numeral(s@) && n as int == u32_value(s@),
            None => !is_u32_numeral(s@),
        },
{
    let v = chars_of(s);
    if v.len() == 0 {
        return None;
    }
    let mut acc: u32 = 0;
    let mut i: usize = 0;
    while i < v.len()
        invariant
            0 <= i <= v@.len(),
            v@ == s@,
            v@.len() > 0,
            all_digits(v@.take(i as int)),
            acc as int == u32_value(v@.take(i as int)),
        decreases v@.len() - i,
    {
        let c = v[i];
        let d: u32 = match digit_of(c) {
            Some(d) => d,
            None => {
                assert(!is_digit(s@[i as int]));
                return None;
            },
        };
        proof {
            lemma_u32_value_take_step(v@, i as int);
            assert(is_digit(v@[i as int]));
            assert(digit_val(v@[i as int]) == d as int);
            assert forall|k: int| 0 <= k < i as int + 1 implies is_digit(
                #[trigger] v@.take(i as int + 1)[k],
            ) by {
                if k < i as int {
                    assert(v@.take(i as int + 1)[k] == v@.take(i as int)[k]);
                } else {
                    assert(v@.take(i as int + 1)[k] == v@[i as int]);
                }
            }
            assert(all_digits(v@.take(i as int + 1)));
        }
        let limit: u32 = u32::MAX / 10;
        let rem: u32 = u32::MAX % 10;
        if acc > limit || (acc == limit && d > rem) {
            proof {
                assert(acc as int * 10 + d as int > u32::MAX);
                if all_digits(v@) {
                    lemma_u32_value_take_monotone(v@, i as int + 1);
                }
            }
            return None;
        }
        acc = acc * 10 + d;
        i += 1;
    }
    proof {
        assert(v@.take(v@.len() as int) =~= v@);
    }
    Some(acc)
}

/// One scan state for the plain-decimal shape: digits, at most one dot,
/// at least one digit on each side of the dot.
pub open spec fn scan_decimal(s: Seq<char>, seen_digit: bool, seen_dot: bool) -> bool
    decreases s.len(),
{
    if s.len() == 0 {
        seen_digit
    } else if is_digit(s[0]) {
        scan_decimal(s.drop_first(), true, seen_dot)
    } else if s[0] == '.' && seen_digit && !seen_dot {
        scan_decimal(s.drop_first(), false, true)
    } else {
        false
    }
}

/// A plain decimal number: optional leading minus, then digits with at most
/// one dot, at least one digit before and after any dot.
pub open spec fn is_decimal_chars(s: Seq<char>) -> bool {
    if s.len() > 0 && s[0] == '-' {
        scan_decimal(s.drop_first(), false, false)
    } else {
        scan_decimal(s, false, false)
    }
}

proof fn lemma_skip_one_more(s: Seq<char>, i: int)
    requires
        0 <= i < s.len(),
    ensures
        s.skip(i).drop_first() =~= s.skip(i + 1),
{
}

/// Decides the plain-decimal shape of a cell.
pub fn is_decimal_str(s: &str) -> (r: bool)
    ensures
        r == is_decimal_chars(s@),
{
    let v = chars_of(s);
    let mut i: usize = 0;
    if v.len() > 0 && v[0] == '-' {
        i = 1;
    }
    let mut seen_digit: bool = false;
    let mut seen_dot: bool = false;
    proof {
        if v@.len() > 0 && v@[0] == '-' {
            assert(v@.skip(1) =~= v@.drop_first());
        } else {
            assert(v@.skip(0) =~= v@);
        }
    }
    while i < v.len()
        invariant
            0 <= i as int <= v@.len(),
            v@ == s@,
            is_decimal_chars(s@) == scan_decimal(v@.skip(i as int), seen_digit, seen_dot),
        decreases v@.len() - i,
    {
        let c = v[i];
        let ghost sd0 = seen_digit;
        let ghost dot0 = seen_dot;
        let ghost i0: int = i as int;
        proof {
            lemma_skip_one_more(v@, i0);
            assert(v@.skip(i0).len() == v@.len() - i0);
            assert(v@.skip(i0)[0] == v@[i0]);
        }
        if digit_of(c).is_some() {
            seen_digit = true;
        } else if c == '.' && seen_digit && !seen_dot {
            seen_digit = false;
            seen_dot = true;
        } else {
            proof {
                assert(!is_digit(v@[i0]));
                assert(!scan_decimal(v@.skip(i0), sd0, dot0));
            }
            return false;
        }
        i += 1;
        proof {
            assert(scan_decimal(v@.skip(i0), sd0, dot0) == scan_decimal(
                v@.skip(i as int),
                seen_digit,
                seen_dot,
            ));
        }
    }
    proof {
        assert(v@.skip(v@.len() as int) =~= Seq::<char>::empty());
    }
    seen_digit
}

} // verus!
