//! Textual forms of the primitive payloads: the decimal grammar shared by
//! the integer tags, digit-by-digit rendering, the float-literal grammar,
//! and character-by-character string comparison.

use vstd::prelude::*;
use vstd::string::StrSliceExecFns;
use vstd::string::StringExecFns;

verus! {

/// A decimal digit.
pub open spec fn is_dec_digit(c: char) -> bool {
    '0' <= c && c <= '9'
}

/// Numeric value of one decimal digit.
pub open spec fn digit_val(c: char) -> nat
    recommends
        is_dec_digit(c),
{
    ((c as int) - ('0' as int)) as nat
}

/// The digit character for a value below ten.
pub open spec fn digit_char(d: nat) -> char
    recommends
        d < 10,
{
    if d == 0 {
        '0'
    } else if d == 1 {
        '1'
    } else if d == 2 {
        '2'
    } else if d == 3 {
        '3'
    } else if d == 4 {
        '4'
    } else if d == 5 {
        '5'
    } else if d == 6 {
        '6'
    } else if d == 7 {
        '7'
    } else if d == 8 {
        '8'
    } else {
        '9'
    }
}

/// Every character of `s` is a decimal digit.
pub open spec fn all_dec_digits(s: Seq<char>) -> bool {
    forall|i: int| 0 <= i < s.len() ==> is_dec_digit(#[trigger] s[i])
}

/// The numeric value of a digit string, most significant digit first.
pub open spec fn dec_val(s: Seq<char>) -> nat
    decreases s.len(),
{
    if s.len() == 0 {
        0
    } else {
        dec_val(s.drop_last()) * 10 + digit_val(s.last())
    }
}

/// The canonical decimal rendering of a value: no sign, and no leading
/// zeros except for the value zero itself.
pub open spec fn dec_text(n: nat) -> Seq<char>
    decreases n,
{
    if n < 10 {
        seq![digit_char(n)]
    } else {
        dec_text(n / 10).push(digit_char(n % 10))
    }
}

/// The decimal rendering of a signed value: a minus sign before the
/// digits of its magnitude when negative.
pub open spec fn int_text(v: int) -> Seq<char> {
    if v >= 0 {
        dec_text(v as nat)
    } else {
        seq!['-'] + dec_text((0 - v) as nat)
    }
}

/// The canonical decimal rendering is nonempty and holds digits only.
pub proof fn lemma_dec_text_digits(n: nat)
    ensures
        dec_text(n).len() > 0,
        all_dec_digits(dec_text(n)),
    decreases n,
{
    if n < 10 {
        assert(is_dec_digit(digit_char(n)));
        assert(dec_text(n)[0] == digit_char(n));
    } else {
        lemma_dec_text_digits(n / 10);
        let p = dec_text(n / 10);
        let s = p.push(digit_char(n % 10));
        assert(is_dec_digit(digit_char(n % 10)));
        assert forall|i: int| 0 <= i < s.len() implies is_dec_digit(#[trigger] s[i]) by {
            if i < p.len() {
                assert(s[i] == p[i]);
            }
        }
    }
}

/// Parsing the canonical decimal rendering gives the value back.
pub proof fn lemma_dec_text_value(n: nat)
    ensures
        dec_val(dec_text(n)) == n,
    decreases n,
{
    if n < 10 {
        let s = dec_text(n);
        assert(s.drop_last() =~= Seq::<char>::empty());
        assert(dec_val(s) == dec_val(s.drop_last()) * 10 + digit_val(s.last()));
        assert(digit_val(digit_char(n)) == n);
    } else {
        lemma_dec_text_value(n / 10);
        let p = dec_text(n / 10);
        let s = p.push(digit_char(n % 10));
        assert(s.drop_last() =~= p);
        assert(s.last() == digit_char(n % 10));
        assert(dec_val(s) == dec_val(p) * 10 + digit_val(digit_char(n % 10)));
        assert(digit_val(digit_char(n % 10)) == n % 10);
        assert((n / 10) * 10 + n % 10 == n);
    }
}

/// The one-character string for a digit value.
pub(crate) fn digit_str(d: u32) -> (r: &'static str)
    requires
        d < 10,
    ensures
        r@ == seq![digit_char(d as nat)],
{
    if d == 0 {
        proof { reveal_strlit("0"); }
        "0"
    } else if d == 1 {
        proof { reveal_strlit("1"); }
        "1"
    } else if d == 2 {
        proof { reveal_strlit("2"); }
        "2"
    } else if d == 3 {
        proof { reveal_strlit("3"); }
        "3"
    } else if d == 4 {
        proof { reveal_strlit("4"); }
        "4"
    } else if d == 5 {
        proof { reveal_strlit("5"); }
        "5"
    } else if d == 6 {
        proof { reveal_strlit("6"); }
        "6"
    } else if d == 7 {
        proof { reveal_strlit("7"); }
        "7"
    } else if d == 8 {
        proof { reveal_strlit("8"); }
        "8"
    } else {
        proof { reveal_strlit("9"); }
        "9"
    }
}

/// Renders a value in canonical decimal.
pub fn render_dec(v: u32) -> (r: String)
    ensures
        r@ == dec_text(v as nat),
    decreases v,
{
    if v < 10 {
        digit_str(v).to_owned()
    } else {
        let mut prefix = render_dec(v / 10);
        prefix.append(digit_str(v % 10));
        proof {
            assert(prefix@ =~= dec_text(v as nat));
        }
        prefix
    }
}

/// The first position at or after `i` that does not hold a decimal digit.
pub open spec fn digit_run_end(s: Seq<char>, i: int) -> int
    recommends
        0 <= i <= s.len(),
    decreases s.len() - i,
{
    if i < 0 || i >= s.len() {
        i
    } else if !is_dec_digit(s[i]) {
        i
    } else {
        digit_run_end(s, i + 1)
    }
}

/// Finds the end of the digit run that starts at `i`.
pub(crate) fn digit_run_end_text(s: &str, i: usize) -> (r: usize)
    requires
        i as int <= s@.len(),
    ensures
        r == digit_run_end(s@, i as int),
        i <= r <= s@.len(),
{
    let n = s.unicode_len();
    let mut j: usize = i;
    while j < n
        invariant
            i <= j <= n,
            n == s@.len(),
            digit_run_end(s@, i as int) == digit_run_end(s@, j as int),
        decreases n - j,
    {
        let c = s.get_char(j);
        if c < '0' || c > '9' {
            return j;
        }
        j += 1;
    }
    j
}

/// Parses the digit run that spans from `start` to the end of the text.
/// `None` when that span is empty or holds a non-digit; otherwise the
/// value, saturated just above the unsigned 32-bit range so that a caller
/// can test any bound within it.
pub(crate) fn dec_digits_val(s: &str, start: usize) -> (r: Option<u64>)
    requires
        start as int <= s@.len(),
    ensures
        ({
            let b = s@.subrange(start as int, s@.len() as int);
            &&& (r is Some <==> (b.len() > 0 && all_dec_digits(b)))
            &&& (r matches Some(v) ==> if dec_val(b) <= u32::MAX as nat {
                v == dec_val(b)
            } else {
                v == 0x1_0000_0000u64
            })
        }),
{
    let ghost b = s@.subrange(start as int, s@.len() as int);
    let n = s.unicode_len();
    if start >= n {
        return None;
    }
    let mut j: usize = start;
    let mut val: u64 = 0;
    let mut over: bool = false;
    while j < n
        invariant
            start <= j <= n,
            n == s@.len(),
            b == s@.subrange(start as int, s@.len() as int),
            forall|k: int| start <= k < j ==> is_dec_digit(#[trigger] s@[k]),
            !over ==> val == dec_val(s@.subrange(start as int, j as int)),
            !over ==> val <= u32::MAX,
            over ==> dec_val(s@.subrange(start as int, j as int)) > u32::MAX,
        decreases n - j,
    {
        let c = s.get_char(j);
        if c < '0' || c > '9' {
            proof {
                assert(b[j - start] == s@[j as int]);
                assert(!all_dec_digits(b));
            }
            return None;
        }
        let d: u64 = (c as u64) - ('0' as u64);
        proof {
            assert(s@.subrange(start as int, (j + 1) as int).drop_last() =~= s@.subrange(
                start as int,
                j as int,
            ));
            assert(s@.subrange(start as int, (j + 1) as int).last() == s@[j as int]);
        }
        if !over {
            val = val * 10 + d;
            if val > 0xFFFF_FFFF {
                over = true;
            }
        }
        j += 1;
    }
    proof {
        assert(b =~= s@.subrange(start as int, n as int));
    }
    if over {
        Some(0x1_0000_0000u64)
    } else {
        Some(val)
    }
}

/// Digits with an optional leading `+`: the grammar of unsigned decimal
/// text, and its value when within the unsigned 32-bit range.
pub open spec fn parse_u32(s: Seq<char>) -> Option<u32> {
    let b = if s.len() > 0 && s[0] == '+' {
        s.subrange(1, s.len() as int)
    } else {
        s
    };
    if b.len() > 0 && all_dec_digits(b) && dec_val(b) <= u32::MAX as nat {
        Some(dec_val(b) as u32)
    } else {
        None
    }
}

/// Digits with an optional leading sign: the grammar of signed decimal
/// text, and its value when within the signed 32-bit range.
pub open spec fn parse_i32(s: Seq<char>) -> Option<i32> {
    if s.len() > 0 && s[0] == '-' {
        let b = s.subrange(1, s.len() as int);
        if b.len() > 0 && all_dec_digits(b) && dec_val(b) <= 0x8000_0000nat {
            Some((0 - dec_val(b) as int) as i32)
        } else {
            None
        }
    } else {
        let b = if s.len() > 0 && s[0] == '+' {
            s.subrange(1, s.len() as int)
        } else {
            s
        };
        if b.len() > 0 && all_dec_digits(b) && dec_val(b) <= i32::MAX as nat {
            Some(dec_val(b) as i32)
        } else {
            None
        }
    }
}

/// Parses unsigned decimal text.
pub fn parse_u32_text(s: &str) -> (r: Option<u32>)
    ensures
        r == parse_u32(s@),
{
    let n = s.unicode_len();
    let start: usize = if n > 0 && s.get_char(0) == '+' {
        1
    } else {
        0
    };
    proof {
        if start == 0 {
            assert(s@.subrange(0, s@.len() as int) =~= s@);
        }
    }
    match dec_digits_val(s, start) {
        None => None,
        Some(v) => if v <= 0xFFFF_FFFF {
            Some(v as u32)
        } else {
            None
        },
    }
}

/// Parses signed decimal text.
pub fn parse_i32_text(s: &str) -> (r: Option<i32>)
    ensures
        r == parse_i32(s@),
{
    let n = s.unicode_len();
    let negative = n > 0 && s.get_char(0) == '-';
    let start: usize = if negative || (n > 0 && s.get_char(0) == '+') {
        1
    } else {
        0
    };
    proof {
        if start == 0 {
            assert(s@.subrange(0, s@.len() as int) =~= s@);
        }
    }
    match dec_digits_val(s, start) {
        None => None,
        Some(v) => if negative {
            if v <= 0x8000_0000 {
                Some((0 - v as i64) as i32)
            } else {
                None
            }
        } else {
            if v <= 0x7FFF_FFFF {
                Some(v as i32)
            } else {
                None
            }
        },
    }
}

/// One character, compared against its two cases.
pub open spec fn ci_eq(c: char, lower: char, upper: char) -> bool {
    c == lower || c == upper
}

/// `inf`, `infinity` or `nan`, in any mix of cases.
pub open spec fn is_special_float_word(s: Seq<char>) -> bool {
    ||| (s.len() == 3 && ci_eq(s[0], 'i', 'I') && ci_eq(s[1], 'n', 'N') && ci_eq(s[2], 'f', 'F'))
    ||| (s.len() == 8 && ci_eq(s[0], 'i', 'I') && ci_eq(s[1], 'n', 'N') && ci_eq(s[2], 'f', 'F')
        && ci_eq(s[3], 'i', 'I') && ci_eq(s[4], 'n', 'N') && ci_eq(s[5], 'i', 'I')
        && ci_eq(s[6], 't', 'T') && ci_eq(s[7], 'y', 'Y'))
    ||| (s.len() == 3 && ci_eq(s[0], 'n', 'N') && ci_eq(s[1], 'a', 'A') && ci_eq(s[2], 'n', 'N'))
}

/// An exponent part that starts at `i` and reaches the end of the text:
/// `e` or `E`, an optional sign, then one or more digits.
pub open spec fn is_exponent_from(s: Seq<char>, i: int) -> bool
    recommends
        0 <= i <= s.len(),
{
    &&& i < s.len()
    &&& (s[i] == 'e' || s[i] == 'E')
    &&& ({
        let j = if i + 1 < s.len() && (s[i + 1] == '+' || s[i + 1] == '-') {
            i + 2
        } else {
            i + 1
        };
        j < s.len() && digit_run_end(s, j) == s.len()
    })
}

/// The unsigned body of a float literal, starting at `i`: digits with an
/// optional fraction point and an optional exponent, holding at least
/// one digit in the number part.
pub open spec fn is_float_body_from(s: Seq<char>, i: int) -> bool
    recommends
        0 <= i <= s.len(),
{
    let p = digit_run_end(s, i);
    if p == s.len() {
        p > i
    } else if s[p] == '.' {
        let q = digit_run_end(s, p + 1);
        &&& (p > i || q > p + 1)
        &&& (q == s.len() || is_exponent_from(s, q))
    } else {
        p > i && is_exponent_from(s, p)
    }
}

/// The grammar of a float literal, as std documents it for float parsing:
/// an optional sign, then `inf`, `infinity` or `nan` in any case, or a
/// decimal number with optional fraction and exponent.
pub open spec fn is_float_literal(s: Seq<char>) -> bool {
    let i: int = if s.len() > 0 && (s[0] == '+' || s[0] == '-') {
        1
    } else {
        0
    };
    is_special_float_word(s.subrange(i, s.len() as int)) || is_float_body_from(s, i)
}

/// Decides `is_special_float_word` for the text from `i` on.
pub(crate) fn is_special_word_from_text(s: &str, i: usize) -> (r: bool)
    requires
        i as int <= s@.len(),
    ensures
        r == is_special_float_word(s@.subrange(i as int, s@.len() as int)),
{
    let ghost b = s@.subrange(i as int, s@.len() as int);
    let n = s.unicode_len();
    let rem = n - i;
    if rem == 3 {
        let c0 = s.get_char(i);
        let c1 = s.get_char(i + 1);
        let c2 = s.get_char(i + 2);
        proof {
            assert(b[0] == s@[i as int]);
            assert(b[1] == s@[i + 1]);
            assert(b[2] == s@[i + 2]);
        }
        ((c0 == 'i' || c0 == 'I') && (c1 == 'n' || c1 == 'N') && (c2 == 'f' || c2 == 'F')) || ((c0
            == 'n' || c0 == 'N') && (c1 == 'a' || c1 == 'A') && (c2 == 'n' || c2 == 'N'))
    } else if rem == 8 {
        let c0 = s.get_char(i);
        let c1 = s.get_char(i + 1);
        let c2 = s.get_char(i + 2);
        let c3 = s.get_char(i + 3);
        let c4 = s.get_char(i + 4);
        let c5 = s.get_char(i + 5);
        let c6 = s.get_char(i + 6);
        let c7 = s.get_char(i + 7);
        proof {
            assert(b[0] == s@[i as int]);
            assert(b[1] == s@[i + 1]);
            assert(b[2] == s@[i + 2]);
            assert(b[3] == s@[i + 3]);
            assert(b[4] == s@[i + 4]);
            assert(b[5] == s@[i + 5]);
            assert(b[6] == s@[i + 6]);
            assert(b[7] == s@[i + 7]);
        }
        (c0 == 'i' || c0 == 'I') && (c1 == 'n' || c1 == 'N') && (c2 == 'f' || c2 == 'F') && (c3
            == 'i' || c3 == 'I') && (c4 == 'n' || c4 == 'N') && (c5 == 'i' || c5 == 'I') && (c6
            == 't' || c6 == 'T') && (c7 == 'y' || c7 == 'Y')
    } else {
        false
    }
}

/// Decides `is_exponent_from` at `i`.
pub(crate) fn is_exponent_from_text(s: &str, i: usize) -> (r: bool)
    requires
        i as int <= s@.len(),
    ensures
        r == is_exponent_from(s@, i as int),
{
    let n = s.unicode_len();
    if i >= n {
        return false;
    }
    let c = s.get_char(i);
    if !(c == 'e' || c == 'E') {
        return false;
    }
    let j: usize = if i + 1 < n {
        let c1 = s.get_char(i + 1);
        if c1 == '+' || c1 == '-' {
            i + 2
        } else {
            i + 1
        }
    } else {
        i + 1
    };
    let e = digit_run_end_text(s, j);
    j < n && e == n
}

/// Decides whether the text is a float literal.
pub fn is_float_literal_text(s: &str) -> (r: bool)
    ensures
        r == is_float_literal(s@),
{
    let n = s.unicode_len();
    let i: usize = if n > 0 {
        let c0 = s.get_char(0);
        if c0 == '+' || c0 == '-' {
            1
        } else {
            0
        }
    } else {
        0
    };
    if is_special_word_from_text(s, i) {
        return true;
    }
    let p = digit_run_end_text(s, i);
    if p == n {
        p > i
    } else if s.get_char(p) == '.' {
        let q = digit_run_end_text(s, p + 1);
        if !(p > i || q > p + 1) {
            return false;
        }
        if q == n {
            true
        } else {
            is_exponent_from_text(s, q)
        }
    } else {
        if p <= i {
            return false;
        }
        is_exponent_from_text(s, p)
    }
}

/// Relies on the `Display` impl for `char`, which std documents as
/// writing exactly the one character.
#[verifier::external_body]
pub(crate) fn char_text(c: char) -> (r: String)
    ensures
        r@ == seq![c],
{
    format!("{}", c)
}

/// Character-by-character string equality.
pub fn str_eq(a: &str, b: &str) -> (r: bool)
    ensures
        r == (a@ == b@),
{
    let alen = a.unicode_len();
    let blen = b.unicode_len();
    if alen != blen {
        return false;
    }
    let mut i: usize = 0;
    while i < alen
        invariant
            alen == a@.len(),
            alen == b@.len(),
            i <= alen,
            forall|j: int| 0 <= j < i ==> a@[j] == b@[j],
        decreases alen - i,
    {
        if a.get_char(i) != b.get_char(i) {
            return false;
        }
        i += 1;
    }
    proof {
        assert(a@ =~= b@);
    }
    true
}

} // verus!
