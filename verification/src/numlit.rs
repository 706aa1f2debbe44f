//! Syntax of signed-integer and floating-point literals, as the `int` and
//! `float` variable types accept them: an optional sign followed by base-10
//! digits within the 64-bit signed range, and the decimal / exponent /
//! `inf` / `infinity` / `nan` forms of a floating-point literal.

use vstd::prelude::*;
use vstd::string::StrSliceExecFns;

verus! {

/// ASCII decimal digit.
pub open spec fn is_digit(c: char) -> bool {
    0x30 <= c as u32 <= 0x39
}

/// Numeric value of an ASCII digit.
pub open spec fn digit_val(c: char) -> nat {
    (c as u32 - 0x30) as nat
}

/// Non-empty and all digits.
pub open spec fn is_digits(s: Seq<char>) -> bool {
    s.len() >= 1 && forall|i: int| 0 <= i < s.len() ==> is_digit(s[i])
}

/// Value of a digit string read in base 10.
pub open spec fn dec_val(s: Seq<char>) -> nat
    decreases s.len(),
{
    if s.len() == 0 {
        0
    } else {
        dec_val(s.drop_last()) * 10 + digit_val(s.last())
    }
}

/// One leading `+` or `-` removed, if present.
pub open spec fn strip_sign(s: Seq<char>) -> Seq<char> {
    if s.len() > 0 && (s[0] == '+' || s[0] == '-') {
        s.skip(1)
    } else {
        s
    }
}

/// The string is a base-10 signed integer in the 64-bit range: an optional
/// sign, then one or more digits, with the magnitude bounded by `2^63` for
/// negative values and `2^63 - 1` otherwise.
pub open spec fn is_int_str(s: Seq<char>) -> bool {
    let d = strip_sign(s);
    &&& is_digits(d)
    &&& dec_val(d) <= if s.len() > 0 && s[0] == '-' {
        0x8000_0000_0000_0000nat
    } else {
        0x7fff_ffff_ffff_ffffnat
    }
}

/// Digits with at most one `.` among them and at least one digit:
/// the part of a floating-point literal before any exponent.
pub open spec fn is_mantissa(s: Seq<char>) -> bool {
    &&& exists|i: int| 0 <= i < s.len() && is_digit(s[i])
    &&& forall|i: int| 0 <= i < s.len() ==> (is_digit(s[i]) || s[i] == '.')
    &&& forall|i: int, j: int| 0 <= i < j < s.len() && s[i] == '.' ==> s[j] != '.'
}

/// What may follow the exponent marker: an optional sign, then digits.
pub open spec fn is_exp_tail(s: Seq<char>) -> bool {
    is_digits(strip_sign(s))
}

/// Exponent marker.
pub open spec fn is_e(c: char) -> bool {
    c == 'e' || c == 'E'
}

/// Index of the first exponent marker at or after `from`, or `s.len()`.
pub open spec fn first_e(s: Seq<char>, from: int) -> int
    decreases s.len() - from,
{
    if from < 0 || from >= s.len() {
        s.len() as int
    } else if is_e(s[from]) {
        from
    } else {
        first_e(s, from + 1)
    }
}

/// A decimal floating-point number without sign: a mantissa, optionally
/// followed by an exponent marker and an exponent tail.
pub open spec fn is_decimal_number(s: Seq<char>) -> bool {
    let k = first_e(s, 0);
    if k == s.len() {
        is_mantissa(s)
    } else {
        is_mantissa(s.take(k)) && is_exp_tail(s.skip(k + 1))
    }
}

/// `a` equals `b` up to ASCII case, where `b` is a lowercase letter.
pub open spec fn ci_eq(a: char, b: char) -> bool {
    a as u32 == b as u32 || a as u32 + 0x20 == b as u32
}

/// Case-insensitive equality against a lowercase word.
pub open spec fn eq_ci(s: Seq<char>, w: Seq<char>) -> bool {
    s.len() == w.len() && forall|i: int| 0 <= i < s.len() ==> ci_eq(s[i], w[i])
}

/// The named non-finite forms a floating-point literal may take.
pub open spec fn is_special_float(s: Seq<char>) -> bool {
    ||| eq_ci(s, seq!['i', 'n', 'f'])
    ||| eq_ci(s, seq!['i', 'n', 'f', 'i', 'n', 'i', 't', 'y'])
    ||| eq_ci(s, seq!['n', 'a', 'n'])
}

/// The string is a floating-point literal: an optional sign, then either a
/// named non-finite form or a decimal number.
pub open spec fn is_float_str(s: Seq<char>) -> bool {
    let b = strip_sign(s);
    is_special_float(b) || is_decimal_number(b)
}

/// A longer digit string never reads as a smaller value.
proof fn lemma_dec_val_prefix(s: Seq<char>, k: int)
    requires
        0 <= k <= s.len(),
    ensures
        dec_val(s) >= dec_val(s.take(k)),
    decreases s.len() - k,
{
    if k < s.len() {
        assert(s.take(k + 1).drop_last() =~= s.take(k));
        assert(dec_val(s.take(k + 1)) == dec_val(s.take(k)) * 10 + digit_val(s.take(k + 1).last()));
        assert(dec_val(s.take(k)) * 10 >= dec_val(s.take(k))) by (nonlinear_arith);
        lemma_dec_val_prefix(s, k + 1);
    } else {
        assert(s.take(k) =~= s);
    }
}

/// Runtime check for [`is_int_str`].
pub fn check_int(s: &str) -> (r: bool)
    ensures
        r == is_int_str(s@),
{
    let n = s.unicode_len();
    let mut i: usize = 0;
    let mut neg = false;
    if n > 0 {
        let c = s.get_char(0);
        if c == '+' || c == '-' {
            i = 1;
            neg = c == '-';
        }
    }
    let ghost d = strip_sign(s@);
    proof {
        assert(d =~= s@.subrange(i as int, n as int));
    }
    if i == n {
        return false;
    }
    let bound: u128 = if neg {
        0x8000_0000_0000_0000
    } else {
        0x7fff_ffff_ffff_ffff
    };
    let mut acc: u128 = 0;
    let mut j: usize = i;
    while j < n
        invariant
            i <= j <= n,
            n == s@.len(),
            d == s@.subrange(i as int, n as int),
            d == strip_sign(s@),
            neg == (s@.len() > 0 && s@[0] == '-'),
            bound == if neg {
                0x8000_0000_0000_0000u128
            } else {
                0x7fff_ffff_ffff_ffffu128
            },
            acc == dec_val(s@.subrange(i as int, j as int)),
            acc <= bound,
            forall|k: int| i <= k < j ==> is_digit(s@[k]),
        decreases n - j,
    {
        let c = s.get_char(j);
        let u = c as u32;
        if !(0x30 <= u && u <= 0x39) {
            assert(d[j - i] == s@[j as int]);
            assert(!is_digits(d));
            return false;
        }
        proof {
            assert(s@.subrange(i as int, j + 1).drop_last() =~= s@.subrange(i as int, j as int));
            assert(s@.subrange(i as int, j + 1).last() == s@[j as int]);
        }
        acc = acc * 10 + ((u - 0x30) as u128);
        if acc > bound {
            proof {
                if is_digits(d) {
                    assert(d.take(j + 1 - i) =~= s@.subrange(i as int, j + 1));
                    lemma_dec_val_prefix(d, j + 1 - i);
                }
            }
            return false;
        }
        j = j + 1;
    }
    proof {
        assert(d =~= s@.subrange(i as int, j as int));
        assert(forall|k: int| 0 <= k < d.len() ==> d[k] == s@[i + k] && is_digit(d[k]));
        assert(is_digits(d));
    }
    true
}

/// Characterizes `first_e` by the position of the first exponent marker.
proof fn lemma_first_e_is(s: Seq<char>, from: int, k: int)
    requires
        0 <= from <= k <= s.len(),
        forall|m: int| from <= m < k ==> !is_e(s[m]),
        k < s.len() ==> is_e(s[k]),
    ensures
        first_e(s, from) == k,
    decreases k - from,
{
    if from < k {
        lemma_first_e_is(s, from + 1, k);
    }
}

/// Digit run within `[from, to)`: returns the first index at or after `from`
/// that is not a digit, capped at `to`.
fn digit_run(s: &str, from: usize, to: usize) -> (e: usize)
    requires
        from <= to <= s@.len(),
    ensures
        from <= e <= to,
        forall|k: int| from <= k < e ==> is_digit(s@[k]),
        e < to ==> !is_digit(s@[e as int]),
{
    let mut e = from;
    while e < to
        invariant
            from <= e <= to,
            to <= s@.len(),
            forall|k: int| from <= k < e ==> is_digit(s@[k]),
        decreases to - e,
    {
        let u = s.get_char(e) as u32;
        if !(0x30 <= u && u <= 0x39) {
            return e;
        }
        e = e + 1;
    }
    e
}

/// Runtime check of `is_mantissa` on the slice `[from, to)` of `s`.
fn check_mantissa(s: &str, from: usize, to: usize) -> (r: bool)
    requires
        from <= to <= s@.len(),
    ensures
        r == is_mantissa(s@.subrange(from as int, to as int)),
{
    let ghost m = s@.subrange(from as int, to as int);
    let d1 = digit_run(s, from, to);
    if d1 == to {
        proof {
            if d1 > from {
                assert(m[0] == s@[from as int]);
                assert(is_digit(m[0]));
                assert(forall|i: int| 0 <= i < m.len() ==> m[i] == s@[from + i]);
            } else {
                assert(m.len() == 0);
            }
        }
        return d1 > from;
    }
    if s.get_char(d1) != '.' {
        proof {
            assert(m[d1 - from] == s@[d1 as int]);
            assert(!(is_digit(m[d1 - from]) || m[d1 - from] == '.'));
        }
        return false;
    }
    let d2 = digit_run(s, d1 + 1, to);
    if d2 < to {
        let c2 = s.get_char(d2);
        proof {
            assert(m[d2 - from] == s@[d2 as int]);
            assert(m[d1 - from] == s@[d1 as int]);
            if c2 == '.' {
                assert(m[d1 - from] == '.' && m[d2 - from] == '.' && d1 - from < d2 - from);
            } else {
                assert(!(is_digit(m[d2 - from]) || m[d2 - from] == '.'));
            }
        }
        return false;
    }
    let r = d1 > from || d2 > d1 + 1;
    proof {
        assert(forall|i: int| 0 <= i < m.len() ==> m[i] == s@[from + i]);
        if r {
            if d1 > from {
                assert(is_digit(m[0]));
            } else {
                assert(is_digit(m[d1 + 1 - from]));
            }
            assert forall|i: int, j: int|
                0 <= i < j < m.len() && m[i] == '.' implies m[j] != '.' by {
                assert(m[i] == s@[from + i]);
                assert(m[j] == s@[from + j]);
            }
        } else {
            assert(d1 == from && d2 == d1 + 1);
            assert forall|i: int| 0 <= i < m.len() implies !is_digit(m[i]) by {
                assert(m[i] == s@[from + i]);
            }
        }
    }
    r
}

/// Runtime check of `eq_ci` between the tail of `s` from `from` and a
/// lowercase word.
fn eq_ci_from(s: &str, from: usize, w: &Vec<char>) -> (r: bool)
    requires
        from <= s@.len(),
    ensures
        r == eq_ci(s@.skip(from as int), w@),
{
    let ghost t = s@.skip(from as int);
    let n = s.unicode_len();
    if n - from != w.len() {
        return false;
    }
    let mut i: usize = 0;
    while i < w.len()
        invariant
            0 <= i <= w.len(),
            from + w.len() == n,
            n == s@.len(),
            t == s@.skip(from as int),
            forall|j: int| 0 <= j < i ==> ci_eq(t[j], w@[j]),
        decreases w.len() - i,
    {
        let a = s.get_char(from + i) as u32;
        let b = w[i] as u32;
        proof {
            assert(t[i as int] == s@[from + i]);
        }
        if !(a == b || a + 0x20 == b) {
            return false;
        }
        i = i + 1;
    }
    true
}

/// Runtime check for [`is_float_str`].
pub fn check_float(s: &str) -> (r: bool)
    ensures
        r == is_float_str(s@),
{
    let n = s.unicode_len();
    let mut i: usize = 0;
    if n > 0 {
        let c = s.get_char(0);
        if c == '+' || c == '-' {
            i = 1;
        }
    }
    let ghost b = strip_sign(s@);
    proof {
        assert(b =~= s@.skip(i as int));
    }
    let winf = vec!['i', 'n', 'f'];
    let winfinity = vec!['i', 'n', 'f', 'i', 'n', 'i', 't', 'y'];
    let wnan = vec!['n', 'a', 'n'];
    if eq_ci_from(s, i, &winf) || eq_ci_from(s, i, &winfinity) || eq_ci_from(s, i, &wnan) {
        proof {
            assert(winf@ =~= seq!['i', 'n', 'f']);
            assert(winfinity@ =~= seq!['i', 'n', 'f', 'i', 'n', 'i', 't', 'y']);
            assert(wnan@ =~= seq!['n', 'a', 'n']);
        }
        return true;
    }
    proof {
        assert(winf@ =~= seq!['i', 'n', 'f']);
        assert(winfinity@ =~= seq!['i', 'n', 'f', 'i', 'n', 'i', 't', 'y']);
        assert(wnan@ =~= seq!['n', 'a', 'n']);
        assert(!is_special_float(b));
    }
    // find the first exponent marker at or after `i`
    let mut k: usize = i;
    let mut found = false;
    while !found && k < n
        invariant
            i <= k <= n,
            n == s@.len(),
            forall|m: int| i <= m < k ==> !is_e(s@[m]),
            found ==> k < n && is_e(s@[k as int]),
        decreases n - k + (if found { 0int } else { 1int }),
    {
        let c = s.get_char(k);
        if c == 'e' || c == 'E' {
            found = true;
        } else {
            k = k + 1;
        }
    }
    proof {
        assert forall|m: int| 0 <= m < k - i implies !is_e(b[m]) by {
            assert(b[m] == s@[i + m]);
        }
        if k < n {
            assert(b[k - i] == s@[k as int]);
        }
        lemma_first_e_is(b, 0, k - i);
    }
    let mant_ok = check_mantissa(s, i, k);
    proof {
        assert(b.take(k - i) =~= s@.subrange(i as int, k as int));
    }
    if k == n {
        proof {
            assert(b.take(k - i) =~= b);
        }
        return mant_ok;
    }
    // exponent tail: optional sign, then digits, reaching the end
    let ghost t = b.skip(k + 1 - i);
    proof {
        assert(t =~= s@.skip(k + 1));
    }
    let mut j: usize = k + 1;
    if j < n {
        let c = s.get_char(j);
        if c == '+' || c == '-' {
            j = j + 1;
        }
    }
    proof {
        assert(strip_sign(t) =~= s@.subrange(j as int, n as int));
    }
    let e2 = digit_run(s, j, n);
    let exp_ok = j < n && e2 == n;
    proof {
        let st = strip_sign(t);
        if exp_ok {
            assert(forall|m: int| 0 <= m < st.len() ==> st[m] == s@[j + m] && is_digit(st[m]));
            assert(is_digits(st));
        } else {
            if j == n {
                assert(st.len() == 0);
            } else {
                assert(st[e2 - j] == s@[e2 as int]);
                assert(!is_digits(st));
            }
        }
    }
    mant_ok && exp_ok
}

} // verus!
