//! The texts that `str::parse` accepts as an `i64`, and as a 64-bit float, as
//! the standard library documents them.

use vstd::prelude::*;

use crate::text::{find, find_in, lemma_find_spec};

verus! {

pub open spec fn is_digit(c: char) -> bool {
    '0' <= c <= '9'
}

pub open spec fn all_digits(s: Seq<char>) -> bool {
    forall|i: int| 0 <= i < s.len() ==> is_digit(#[trigger] s[i])
}

/// The number written by the decimal digits `s`.
pub open spec fn digits_value(s: Seq<char>) -> nat
    decreases s.len(),
{
    if s.len() == 0 {
        0
    } else {
        digits_value(s.drop_last()) * 10 + (s.last() as int - '0' as int) as nat
    }
}

/// `s` without one leading `+` or `-`.
pub open spec fn strip_sign(s: Seq<char>) -> Seq<char> {
    if s.len() > 0 && (s[0] == '+' || s[0] == '-') {
        s.drop_first()
    } else {
        s
    }
}

/// What `str::parse::<i64>` accepts: an optional sign, then one or more ASCII
/// digits, whose value lies in the range of `i64`.
pub open spec fn is_i64_text(s: Seq<char>) -> bool {
    let digits = strip_sign(s);
    let bound: nat = if s.len() > 0 && s[0] == '-' {
        9223372036854775808
    } else {
        9223372036854775807
    };
    &&& digits.len() > 0
    &&& all_digits(digits)
    &&& digits_value(digits) <= bound
}

/// ASCII upper case letters made lower case; other characters unchanged.
pub open spec fn ascii_lower(c: char) -> char {
    if 'A' <= c <= 'Z' {
        ((c as u32) + 32) as char
    } else {
        c
    }
}

pub open spec fn lower_text(s: Seq<char>) -> Seq<char> {
    s.map_values(|c: char| ascii_lower(c))
}

/// `Digit+`, `Digit+ '.' Digit*` or `Digit* '.' Digit+`.
pub open spec fn is_mantissa(m: Seq<char>) -> bool {
    match find(m, '.') {
        None => m.len() > 0 && all_digits(m),
        Some(p) => all_digits(m.take(p)) && all_digits(m.skip(p + 1)) && (p > 0 || m.len() > p
            + 1),
    }
}

/// `Sign? Digit+`.
pub open spec fn is_exponent(x: Seq<char>) -> bool {
    strip_sign(x).len() > 0 && all_digits(strip_sign(x))
}

/// `Number ::= ( Digit+ | Digit+ '.' Digit* | Digit* '.' Digit+ ) Exp?`, with
/// `Exp ::= 'e' Sign? Digit+`.
pub open spec fn is_number(t: Seq<char>) -> bool {
    match find(t, 'e') {
        None => is_mantissa(t),
        Some(p) => is_mantissa(t.take(p)) && is_exponent(t.skip(p + 1)),
    }
}

/// What `str::parse` accepts as a 64-bit float: the texts that, ASCII letters
/// lowered, match `Sign? ( 'inf' | 'infinity' | 'nan' | Number )`.
pub open spec fn is_float_text(s: Seq<char>) -> bool {
    let t = strip_sign(lower_text(s));
    ||| t == "inf"@
    ||| t == "infinity"@
    ||| t == "nan"@
    ||| is_number(t)
}

fn is_digit_char(c: char) -> (b: bool)
    ensures
        b == is_digit(c),
{
    '0' <= c && c <= '9'
}

/// Whether `cs[lo..hi]` holds digits only.
fn all_digits_in(cs: &Vec<char>, lo: usize, hi: usize) -> (b: bool)
    requires
        lo <= hi <= cs@.len(),
    ensures
        b == all_digits(cs@.subrange(lo as int, hi as int)),
{
    let mut i = lo;
    while i < hi
        invariant
            lo <= i <= hi <= cs@.len(),
            forall|j: int| lo <= j < i ==> is_digit(cs@[j]),
        decreases hi - i,
    {
        if !is_digit_char(cs[i]) {
            assert(cs@.subrange(lo as int, hi as int)[i - lo] == cs@[i as int]);
            return false;
        }
        i = i + 1;
    }
    assert forall|j: int| 0 <= j < hi - lo implies is_digit(
        #[trigger] cs@.subrange(lo as int, hi as int)[j],
    ) by {
        assert(cs@.subrange(lo as int, hi as int)[j] == cs@[lo + j]);
    }
    true
}

/// Whether `s` is the text of an `i64`.
pub fn is_i64_str(s: &Vec<char>) -> (b: bool)
    ensures
        b == is_i64_text(s@),
{
    let n = s.len();
    let lo: usize = if n > 0 && (s[0] == '+' || s[0] == '-') {
        1
    } else {
        0
    };
    let ghost digits = strip_sign(s@);
    assert(digits =~= s@.subrange(lo as int, n as int));
    if lo == n {
        return false;
    }
    if !all_digits_in(s, lo, n) {
        return false;
    }
    let bound: u128 = if n > 0 && s[0] == '-' {
        9223372036854775808
    } else {
        9223372036854775807
    };
    let mut acc: u128 = 0;
    let mut i = lo;
    assert(digits.take(0) =~= Seq::<char>::empty());
    while i < n
        invariant
            lo <= i <= n == s@.len(),
            digits == s@.subrange(lo as int, n as int),
            all_digits(digits),
            bound <= 9223372036854775808,
            acc == (if digits_value(digits.take(i - lo)) > bound {
                bound + 1
            } else {
                digits_value(digits.take(i - lo)) as int
            }),
        decreases n - i,
    {
        let c = s[i];
        assert(digits[i - lo] == c);
        assert(is_digit(digits[i - lo]));
        let d = (c as u32 - '0' as u32) as u128;
        proof {
            assert(digits.take(i - lo + 1).drop_last() =~= digits.take(i - lo));
            assert(digits.take(i - lo + 1).last() == c);
        }
        if acc <= bound {
            let next = acc * 10 + d;
            acc = if next > bound {
                bound + 1
            } else {
                next
            };
        }
        i = i + 1;
    }
    assert(digits.take(n - lo) =~= digits);
    acc <= bound
}

/// `cs` with ASCII letters lowered.
fn lower_chars(cs: &Vec<char>) -> (r: Vec<char>)
    ensures
        r@ == lower_text(cs@),
{
    let mut r: Vec<char> = Vec::new();
    let mut i: usize = 0;
    while i < cs.len()
        invariant
            i <= cs@.len(),
            r@ == lower_text(cs@.take(i as int)),
        decreases cs.len() - i,
    {
        let c = cs[i];
        let l = if 'A' <= c && c <= 'Z' {
            ((c as u8) + 32) as char
        } else {
            c
        };
        r.push(l);
        assert(lower_text(cs@.take(i + 1)) =~= lower_text(cs@.take(i as int)).push(
            ascii_lower(c),
        ));
        i = i + 1;
    }
    assert(cs@.take(i as int) =~= cs@);
    r
}

/// Whether `cs[lo..hi]` equals `word`.
fn range_eq(cs: &Vec<char>, lo: usize, hi: usize, word: &Vec<char>) -> (b: bool)
    requires
        lo <= hi <= cs@.len(),
    ensures
        b == (cs@.subrange(lo as int, hi as int) == word@),
{
    if hi - lo != word.len() {
        return false;
    }
    let mut i: usize = 0;
    while i < word.len()
        invariant
            hi - lo == word@.len(),
            lo <= hi <= cs@.len(),
            i <= word@.len(),
            forall|j: int| 0 <= j < i ==> cs@[lo + j] == word@[j],
        decreases word.len() - i,
    {
        if cs[lo + i] != word[i] {
            assert(cs@.subrange(lo as int, hi as int)[i as int] != word@[i as int]);
            return false;
        }
        i = i + 1;
    }
    assert(cs@.subrange(lo as int, hi as int) =~= word@);
    true
}

/// Whether `cs[lo..hi]` is a mantissa.
fn is_mantissa_in(cs: &Vec<char>, lo: usize, hi: usize) -> (b: bool)
    requires
        lo <= hi <= cs@.len(),
    ensures
        b == is_mantissa(cs@.subrange(lo as int, hi as int)),
{
    let ghost m = cs@.subrange(lo as int, hi as int);
    match find_in(cs, lo, hi, '.') {
        None => lo < hi && all_digits_in(cs, lo, hi),
        Some(p) => {
            assert(m.take(p - lo) =~= cs@.subrange(lo as int, p as int));
            assert(m.skip(p - lo + 1) =~= cs@.subrange(p + 1, hi as int));
            all_digits_in(cs, lo, p) && all_digits_in(cs, p + 1, hi) && (p > lo || hi > p + 1)
        },
    }
}

/// Whether `cs[lo..hi]` is a number in the sense of `is_number`.
fn is_number_in(cs: &Vec<char>, lo: usize, hi: usize) -> (b: bool)
    requires
        lo <= hi <= cs@.len(),
    ensures
        b == is_number(cs@.subrange(lo as int, hi as int)),
{
    let ghost t = cs@.subrange(lo as int, hi as int);
    match find_in(cs, lo, hi, 'e') {
        None => is_mantissa_in(cs, lo, hi),
        Some(p) => {
            assert(t.take(p - lo) =~= cs@.subrange(lo as int, p as int));
            assert(t.skip(p - lo + 1) =~= cs@.subrange(p + 1, hi as int));
            if !is_mantissa_in(cs, lo, p) {
                return false;
            }
            let x_lo = p + 1;
            let d_lo = if x_lo < hi && (cs[x_lo] == '+' || cs[x_lo] == '-') {
                x_lo + 1
            } else {
                x_lo
            };
            assert(strip_sign(cs@.subrange(x_lo as int, hi as int)) =~= cs@.subrange(
                d_lo as int,
                hi as int,
            ));
            d_lo < hi && all_digits_in(cs, d_lo, hi)
        },
    }
}

/// Whether `s` is the text of a 64-bit float.
pub fn is_float_str(s: &Vec<char>) -> (b: bool)
    ensures
        b == is_float_text(s@),
{
    let l = lower_chars(s);
    let n = l.len();
    let lo: usize = if n > 0 && (l[0] == '+' || l[0] == '-') {
        1
    } else {
        0
    };
    assert(strip_sign(l@) =~= l@.subrange(lo as int, n as int));
    let inf = crate::text::to_chars("inf");
    let infinity = crate::text::to_chars("infinity");
    let nan = crate::text::to_chars("nan");
    range_eq(&l, lo, n, &inf) || range_eq(&l, lo, n, &infinity) || range_eq(&l, lo, n, &nan)
        || is_number_in(&l, lo, n)
}

/// Lowering changes exactly the ASCII upper-case letters, each to its
/// lower-case letter, and keeps every other character, and the length.
pub proof fn lemma_lower_text(s: Seq<char>, i: int)
    requires
        0 <= i < s.len(),
    ensures
        lower_text(s).len() == s.len(),
        !('A' <= s[i] <= 'Z') ==> lower_text(s)[i] == s[i],
        ('A' <= s[i] <= 'Z') ==> lower_text(s)[i] as u32 == s[i] as u32 + 32,
{
    assert(lower_text(s)[i] == ascii_lower(s[i]));
}

proof fn lemma_comma_no_mantissa(m: Seq<char>, j: int)
    requires
        0 <= j < m.len(),
        m[j] == ',',
    ensures
        !is_mantissa(m),
{
    lemma_find_spec(m, '.');
    match find(m, '.') {
        None => {
            assert(!is_digit(m[j]));
        },
        Some(p) => {
            if j < p {
                assert(m.take(p)[j] == ',');
                assert(!is_digit(m.take(p)[j]));
            } else {
                assert(m.skip(p + 1)[j - p - 1] == ',');
                assert(!is_digit(m.skip(p + 1)[j - p - 1]));
            }
        },
    }
}

proof fn lemma_comma_no_exponent(x: Seq<char>, j: int)
    requires
        0 <= j < x.len(),
        x[j] == ',',
    ensures
        !is_exponent(x),
{
    let d = strip_sign(x);
    if x.len() > 0 && (x[0] == '+' || x[0] == '-') {
        assert(d[j - 1] == ',');
        assert(!is_digit(d[j - 1]));
    } else {
        assert(d[j] == ',');
        assert(!is_digit(d[j]));
    }
}

/// A text with a comma is no float: the only decimal point that
/// `str::parse::<f64>` takes is `.`.
pub proof fn lemma_comma_is_no_float(s: Seq<char>, i: int)
    requires
        0 <= i < s.len(),
        s[i] == ',',
    ensures
        !is_float_text(s),
{
    let l = lower_text(s);
    lemma_lower_text(s, i);
    assert(l[i] == ',');
    let t = strip_sign(l);
    let j = if l.len() > 0 && (l[0] == '+' || l[0] == '-') {
        i - 1
    } else {
        i
    };
    assert(0 <= j < t.len() && t[j] == ',');
    reveal_strlit("inf");
    reveal_strlit("infinity");
    reveal_strlit("nan");
    assert(t != "inf"@) by {
        if t == "inf"@ {
            assert(t[j] == "inf"@[j]);
        }
    }
    assert(t != "infinity"@) by {
        if t == "infinity"@ {
            assert(t[j] == "infinity"@[j]);
        }
    }
    assert(t != "nan"@) by {
        if t == "nan"@ {
            assert(t[j] == "nan"@[j]);
        }
    }
    lemma_find_spec(t, 'e');
    match find(t, 'e') {
        None => lemma_comma_no_mantissa(t, j),
        Some(p) => {
            if j < p {
                assert(t.take(p)[j] == ',');
                lemma_comma_no_mantissa(t.take(p), j);
            } else {
                assert(t.skip(p + 1)[j - p - 1] == ',');
                lemma_comma_no_exponent(t.skip(p + 1), j - p - 1);
            }
        },
    }
}

/// `10` to the power `n`.
pub open spec fn ten_pow(n: nat) -> nat
    decreases n,
{
    if n == 0 {
        1
    } else {
        10 * ten_pow((n - 1) as nat)
    }
}

proof fn lemma_digits_value_below(s: Seq<char>)
    requires
        all_digits(s),
    ensures
        digits_value(s) < ten_pow(s.len()),
    decreases s.len(),
{
    if s.len() > 0 {
        let r = s.drop_last();
        assert forall|i: int| 0 <= i < r.len() implies is_digit(#[trigger] r[i]) by {
            assert(r[i] == s[i]);
        }
        lemma_digits_value_below(r);
        assert(is_digit(s[s.len() - 1]));
        let d = (s.last() as int - '0' as int) as nat;
        let v = digits_value(r);
        let t = ten_pow(r.len());
        assert(d <= 9);
        assert(v * 10 + d < t * 10) by (nonlinear_arith)
            requires
                v < t,
                d <= 9,
        ;
    }
}

/// Every text of one to eighteen decimal digits, with or without a sign, is an
/// `i64`: such a number lies well inside the range.
pub proof fn lemma_short_digit_texts_are_i64(s: Seq<char>)
    requires
        1 <= strip_sign(s).len() <= 18,
        all_digits(strip_sign(s)),
    ensures
        is_i64_text(s),
{
    let d = strip_sign(s);
    lemma_digits_value_below(d);
    assert(ten_pow(18) == 1000000000000000000) by {
        reveal_with_fuel(ten_pow, 19);
    }
    lemma_ten_pow_mono(d.len(), 18);
}

proof fn lemma_ten_pow_mono(a: nat, b: nat)
    requires
        a <= b,
    ensures
        ten_pow(a) <= ten_pow(b),
    decreases b,
{
    if a < b {
        lemma_ten_pow_mono(a, (b - 1) as nat);
    }
}

} // verus!
