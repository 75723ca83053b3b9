//! Validation of the numeric cells of a record.
//!
//! An unsigned-integer cell must parse completely as a decimal `u32`: an
//! optional leading `+`, then one or more digits, and a value that fits. A
//! floating-point cell must match, in full, the grammar that std's
//! floating-point parser accepts: an optional sign, then either a special
//! word (`inf`, `infinity`, `nan`, case-insensitive) or a number made of
//! digits with at most one dot and an optional exponent part. The value of a
//! floating-point cell is never computed here; only its well-formedness is
//! decided, and the record keeps the validated text.

use vstd::prelude::*;

verus! {

/// The byte `+`.
pub const PLUS: u8 = 43;

/// The byte `-`.
pub const MINUS: u8 = 45;

/// The byte `.`.
pub const DOT: u8 = 46;

/// Whether `b` is a decimal digit, `0` to `9`.
pub open spec fn is_digit(b: u8) -> bool {
    48 <= b <= 57
}

/// Whether every byte of `s` is a decimal digit.
pub open spec fn all_digits(s: Seq<u8>) -> bool {
    forall|i: int| 0 <= i < s.len() ==> is_digit(s[i])
}

/// The value of `s` read as a decimal numeral. Meaningful when `s` is all
/// digits.
pub open spec fn dec_value(s: Seq<u8>) -> int
    decreases s.len(),
{
    if s.len() == 0 {
        0
    } else {
        dec_value(s.drop_last()) * 10 + (s.last() - 48)
    }
}

/// The digits of an unsigned numeral: everything after one optional leading
/// `+`.
pub open spec fn digits_part(s: Seq<u8>) -> Seq<u8> {
    if s.len() > 0 && s[0] == PLUS {
        s.skip(1)
    } else {
        s
    }
}

/// What `s` parses to as a `u32`: an optional leading `+`, then one or more
/// digits whose value fits in a `u32`; anything else is rejected.
pub open spec fn parse_u32_spec(s: Seq<u8>) -> Option<u32> {
    let d = digits_part(s);
    if d.len() > 0 && all_digits(d) && dec_value(d) <= u32::MAX {
        Some(dec_value(d) as u32)
    } else {
        None
    }
}

/// A numeral of digits is worth at least zero.
proof fn lemma_dec_value_nonneg(s: Seq<u8>)
    requires
        all_digits(s),
    ensures
        dec_value(s) >= 0,
    decreases s.len(),
{
    if s.len() > 0 {
        assert(all_digits(s.drop_last()));
        lemma_dec_value_nonneg(s.drop_last());
    }
}

/// Appending digits to a numeral of digits never shrinks its value.
proof fn lemma_dec_value_prefix_le(s: Seq<u8>, m: int)
    requires
        all_digits(s),
        0 <= m <= s.len(),
    ensures
        dec_value(s.take(m)) <= dec_value(s),
    decreases s.len() - m,
{
    if m < s.len() {
        lemma_dec_value_prefix_le(s, m + 1);
        let p = s.take(m);
        let q = s.take(m + 1);
        assert(q.drop_last() =~= p);
        assert(all_digits(p));
        lemma_dec_value_nonneg(p);
        assert(dec_value(q) == dec_value(p) * 10 + (q.last() - 48));
        assert(dec_value(p) * 10 >= dec_value(p)) by (nonlinear_arith)
            requires dec_value(p) >= 0;
    } else {
        assert(s.take(m) =~= s);
    }
}

/// Reads `s` as a decimal `u32`.
///
/// Returns `Some` exactly when `s` is an optional leading `+` followed by one
/// or more digits whose value fits in a `u32`, and then returns that value.
pub fn parse_u32(s: &[u8]) -> (r: Option<u32>)
    ensures
        r == parse_u32_spec(s@),
{
    let start: usize = if s.len() > 0 && s[0] == PLUS {
        1
    } else {
        0
    };
    let ghost d = digits_part(s@);
    proof {
        assert(d =~= s@.skip(start as int));
    }
    if start >= s.len() {
        return None;
    }
    let mut acc: u32 = 0;
    let mut i: usize = start;
    while i < s.len()
        invariant
            start <= i <= s.len(),
            d == s@.skip(start as int),
            d == digits_part(s@),
            all_digits(d.take(i - start)),
            acc == dec_value(d.take(i - start)),
        decreases s.len() - i,
    {
        let b = s[i];
        if b < 48 || b > 57 {
            // a non-digit byte rejects the whole cell
            assert(!all_digits(d)) by {
                assert(d[i - start] == s@[i as int]);
            }
            return None;
        }
        let dig: u32 = (b - 48) as u32;
        let ghost p = d.take(i - start);
        let ghost q = d.take(i - start + 1);
        proof {
            assert(q.drop_last() =~= p);
            assert(q.last() == b);
            assert(dec_value(q) == dec_value(p) * 10 + dig);
        }
        if acc > (u32::MAX - dig) / 10 {
            // the value no longer fits in a u32
            proof {
                if all_digits(d) {
                    lemma_dec_value_prefix_le(d, i - start + 1);
                    assert(acc * 10 + dig > u32::MAX) by (nonlinear_arith)
                        requires acc > (u32::MAX - dig) / 10, dig <= 9, acc <= u32::MAX;
                }
            }
            return None;
        }
        proof {
            assert(acc * 10 + dig <= u32::MAX) by (nonlinear_arith)
                requires acc <= (u32::MAX - dig) / 10, dig <= 9;
        }
        acc = acc * 10 + dig;
        i = i + 1;
    }
    proof {
        assert(d.take(i - start) =~= d);
    }
    Some(acc)
}

/// A cell holding any byte that is not a digit — apart from one optional
/// leading `+` — never parses as a `u32`.
pub proof fn lemma_non_digit_rejects_u32(s: Seq<u8>, j: int)
    requires
        0 <= j < s.len(),
        !is_digit(s[j]),
        !(j == 0 && s[j] == PLUS),
    ensures
        parse_u32_spec(s) is None,
{
    let d = digits_part(s);
    if s.len() > 0 && s[0] == PLUS {
        assert(d[j - 1] == s[j]);
    } else {
        assert(d[j] == s[j]);
    }
}

/// The byte `e`.
pub const E_LOWER: u8 = 101;

/// The byte `E`.
pub const E_UPPER: u8 = 69;

/// `b` with an upper-case letter folded to lower case.
pub open spec fn lower_byte(b: u8) -> u8 {
    if 65 <= b <= 90 {
        (b + 32) as u8
    } else {
        b
    }
}

/// Everything after one optional leading `+` or `-`.
pub open spec fn strip_sign(s: Seq<u8>) -> Seq<u8> {
    if s.len() > 0 && (s[0] == PLUS || s[0] == MINUS) {
        s.skip(1)
    } else {
        s
    }
}

/// Whether `s` is one of the special floating-point words `inf`, `infinity`
/// or `nan`, in any case.
pub open spec fn is_special(s: Seq<u8>) -> bool {
    ||| (s.len() == 3 && lower_byte(s[0]) == 105 && lower_byte(s[1]) == 110 && lower_byte(s[2])
        == 102)  // inf
    ||| (s.len() == 8 && lower_byte(s[0]) == 105 && lower_byte(s[1]) == 110 && lower_byte(s[2])
        == 102 && lower_byte(s[3]) == 105 && lower_byte(s[4]) == 110 && lower_byte(s[5]) == 105
        && lower_byte(s[6]) == 116 && lower_byte(s[7]) == 121)  // infinity
    ||| (s.len() == 3 && lower_byte(s[0]) == 110 && lower_byte(s[1]) == 97 && lower_byte(s[2])
        == 110)  // nan
}

/// Whether `s` is the digit part of a floating-point number: digits with at
/// most one dot, holding at least one digit.
pub open spec fn is_mantissa(s: Seq<u8>) -> bool {
    ||| (s.len() > 0 && all_digits(s))
    ||| (s.len() >= 2 && exists|i: int|
        0 <= i < s.len() && s[i] == DOT && (forall|j: int|
            0 <= j < s.len() && j != i ==> is_digit(s[j])))
}

/// Whether `s` is an exponent part: `e` or `E`, an optional sign, then one
/// or more digits.
pub open spec fn is_exponent(s: Seq<u8>) -> bool {
    &&& s.len() > 0
    &&& (s[0] == E_LOWER || s[0] == E_UPPER)
    &&& strip_sign(s.skip(1)).len() > 0
    &&& all_digits(strip_sign(s.skip(1)))
}

/// Whether `s` is an unsigned floating-point number: a mantissa followed by
/// an optional exponent part.
pub open spec fn is_number(s: Seq<u8>) -> bool {
    exists|k: int|
        0 <= k <= s.len() && is_mantissa(s.take(k)) && (k == s.len() || is_exponent(s.skip(k)))
}

/// Whether `s` parses, in full, as a floating-point number: an optional
/// sign, then a special word or a number.
pub open spec fn is_float_text(s: Seq<u8>) -> bool {
    is_special(strip_sign(s)) || is_number(strip_sign(s))
}

/// Folds an upper-case letter to lower case.
fn lower(b: u8) -> (r: u8)
    ensures
        r == lower_byte(b),
{
    if 65 <= b && b <= 90 {
        b + 32
    } else {
        b
    }
}

/// Decides whether `s[from..]` is a special floating-point word.
fn check_special(s: &[u8], from: usize) -> (r: bool)
    requires
        from <= s.len(),
    ensures
        r == is_special(s@.skip(from as int)),
{
    let n = s.len() - from;
    if n == 3 {
        let b0 = lower(s[from]);
        let b1 = lower(s[from + 1]);
        let b2 = lower(s[from + 2]);
        (b0 == 105 && b1 == 110 && b2 == 102) || (b0 == 110 && b1 == 97 && b2 == 110)
    } else if n == 8 {
        let b0 = lower(s[from]);
        let b1 = lower(s[from + 1]);
        let b2 = lower(s[from + 2]);
        let b3 = lower(s[from + 3]);
        let b4 = lower(s[from + 4]);
        let b5 = lower(s[from + 5]);
        let b6 = lower(s[from + 6]);
        let b7 = lower(s[from + 7]);
        b0 == 105 && b1 == 110 && b2 == 102 && b3 == 105 && b4 == 110 && b5 == 105 && b6 == 116
            && b7 == 121
    } else {
        false
    }
}

/// Decides whether `s[from..to]` is a mantissa.
fn check_mantissa(s: &[u8], from: usize, to: usize) -> (r: bool)
    requires
        from <= to <= s.len(),
    ensures
        r == is_mantissa(s@.subrange(from as int, to as int)),
{
    let ghost t = s@.subrange(from as int, to as int);
    let mut dots: usize = 0;
    let ghost mut dotpos: int = 0;
    let mut j: usize = from;
    while j < to
        invariant
            from <= j <= to <= s.len(),
            t == s@.subrange(from as int, to as int),
            dots <= 1,
            dots == 0 ==> forall|p: int| 0 <= p < j - from ==> is_digit(t[p]),
            dots == 1 ==> 0 <= dotpos < j - from && t[dotpos] == DOT,
            dots == 1 ==> forall|p: int| 0 <= p < j - from && p != dotpos ==> is_digit(t[p]),
        decreases to - j,
    {
        let b = s[j];
        if b == DOT {
            if dots == 1 {
                // a second dot: neither all digits nor a single-dot mantissa
                proof {
                    let snd = j - from;
                    assert(t[snd] == DOT);
                    assert(!is_digit(t[dotpos]));
                    assert(!is_digit(t[snd]));
                    assert forall|i: int|
                        0 <= i < t.len() && t[i] == DOT implies !(forall|q: int|
                        0 <= q < t.len() && q != i ==> is_digit(t[q])) by {
                        if i != dotpos {
                            assert(!is_digit(t[dotpos]));
                        } else {
                            assert(!is_digit(t[snd]));
                        }
                    }
                }
                return false;
            }
            dots = 1;
            proof {
                dotpos = j - from;
            }
        } else if b < 48 || b > 57 {
            // a byte that is neither a digit nor a dot
            proof {
                let bad = j - from;
                assert(t[bad] == b);
                assert(!is_digit(t[bad]));
                assert(t[bad] != DOT);
                assert forall|i: int|
                    0 <= i < t.len() && t[i] == DOT implies !(forall|q: int|
                    0 <= q < t.len() && q != i ==> is_digit(t[q])) by {
                    assert(!is_digit(t[bad]));
                }
            }
            return false;
        }
        j = j + 1;
    }
    if dots == 0 {
        to - from > 0
    } else {
        proof {
            if to - from >= 2 {
                assert(t[dotpos] == DOT);
            } else {
                // the single byte is the dot, so there is no digit at all
                assert(t[dotpos] == DOT);
                assert(!is_digit(t[0]));
            }
        }
        to - from >= 2
    }
}

/// Decides whether `s[from..]` is an exponent part.
fn check_exponent(s: &[u8], from: usize) -> (r: bool)
    requires
        from <= s.len(),
    ensures
        r == is_exponent(s@.skip(from as int)),
{
    let ghost u = s@.skip(from as int);
    if from >= s.len() {
        return false;
    }
    let b0 = s[from];
    if b0 != E_LOWER && b0 != E_UPPER {
        return false;
    }
    let j: usize = if from + 1 < s.len() && (s[from + 1] == PLUS || s[from + 1] == MINUS) {
        from + 2
    } else {
        from + 1
    };
    proof {
        assert(u.skip(1) =~= s@.skip(from + 1));
        assert(strip_sign(u.skip(1)) =~= s@.skip(j as int));
    }
    if j >= s.len() {
        return false;
    }
    let mut p: usize = j;
    while p < s.len()
        invariant
            j <= p <= s.len(),
            u == s@.skip(from as int),
            strip_sign(u.skip(1)) == s@.skip(j as int),
            j > from,
            forall|q: int| j <= q < p ==> is_digit(s@[q]),
        decreases s.len() - p,
    {
        let b = s[p];
        if b < 48 || b > 57 {
            proof {
                assert(s@.skip(j as int)[p - j] == s@[p as int]);
            }
            return false;
        }
        p = p + 1;
    }
    proof {
        assert forall|q: int| 0 <= q < s@.skip(j as int).len() implies is_digit(
            s@.skip(j as int)[q],
        ) by {
            assert(s@.skip(j as int)[q] == s@[q + j]);
        }
    }
    true
}

/// No byte of a mantissa is `e` or `E`.
proof fn lemma_mantissa_no_exp_byte(s: Seq<u8>, p: int)
    requires
        is_mantissa(s),
        0 <= p < s.len(),
    ensures
        s[p] != E_LOWER,
        s[p] != E_UPPER,
{
    if s.len() > 0 && all_digits(s) {
        assert(is_digit(s[p]));
    } else {
        let i = choose|i: int|
            0 <= i < s.len() && s[i] == DOT && (forall|j: int|
                0 <= j < s.len() && j != i ==> is_digit(s[j]));
        if p != i {
            assert(is_digit(s[p]));
        }
    }
}

/// Decides whether `s` parses, in full, as a floating-point number.
pub fn check_float_text(s: &[u8]) -> (r: bool)
    ensures
        r == is_float_text(s@),
{
    let start: usize = if s.len() > 0 && (s[0] == PLUS || s[0] == MINUS) {
        1
    } else {
        0
    };
    let ghost body = strip_sign(s@);
    proof {
        assert(body =~= s@.skip(start as int));
    }
    if check_special(s, start) {
        return true;
    }
    // find the first exponent marker, if any
    let mut k: usize = start;
    while k < s.len() && s[k] != E_LOWER && s[k] != E_UPPER
        invariant
            start <= k <= s.len(),
            forall|q: int| start <= q < k ==> s@[q] != E_LOWER && s@[q] != E_UPPER,
        decreases s.len() - k,
    {
        k = k + 1;
    }
    let ghost m = k - start;
    proof {
        assert(body.take(m) =~= s@.subrange(start as int, k as int));
        assert(body.skip(m) =~= s@.skip(k as int));
    }
    let mant_ok = check_mantissa(s, start, k);
    let exp_ok = if k < s.len() {
        check_exponent(s, k)
    } else {
        true
    };
    proof {
        // a valid split can only be at the first exponent marker
        if is_number(body) {
            let w = choose|w: int|
                0 <= w <= body.len() && is_mantissa(body.take(w)) && (w == body.len()
                    || is_exponent(body.skip(w)));
            if w < m {
                assert(is_exponent(body.skip(w)));
                assert(body.skip(w)[0] == s@[start + w]);
            } else if w > m {
                lemma_mantissa_no_exp_byte(body.take(w), m);
                assert(body.take(w)[m] == s@[k as int]);
            }
            assert(w == m);
        }
        if mant_ok && (k >= s.len() || is_exponent(body.skip(m))) {
            assert(0 <= m <= body.len() && is_mantissa(body.take(m)) && (m == body.len()
                || is_exponent(body.skip(m))));
        }
    }
    mant_ok && exp_ok
}

} // verus!
