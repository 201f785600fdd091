//! Decimal text: reading amounts and whole numbers from text and writing
//! amounts back.

use vstd::prelude::*;
use crate::amount::{clamp, magnitude, magnitude_of, Amount};
use crate::text::{chars_of, scan, slice_of, string_of};

verus! {

/// Whether `c` is one of the ten decimal digits.
pub open spec fn is_digit(c: char) -> bool {
    48 <= c as int <= 57
}

/// The number that the digit `c` stands for.
pub open spec fn digit_value(c: char) -> int {
    c as int - 48
}

/// Whether every character of `s` is a decimal digit.
pub open spec fn all_digits(s: Seq<char>) -> bool {
    forall|i: int| 0 <= i < s.len() ==> is_digit(#[trigger] s[i])
}

/// The number that a run of digits denotes; zero for the empty run.
pub open spec fn digits_value(s: Seq<char>) -> int
    decreases s.len(),
{
    if s.len() == 0 {
        0
    } else {
        digits_value(s.drop_last()) * 10 + digit_value(s.last())
    }
}

/// Ten to the power `k`.
pub open spec fn pow10(k: nat) -> int
    decreases k,
{
    if k == 0 {
        1
    } else {
        10 * pow10((k - 1) as nat)
    }
}

/// Whether `c` marks the exponent of a number: `e` or `E`.
pub open spec fn is_exponent_mark(c: char) -> bool {
    c == 'e' || c == 'E'
}

/// The first position at or after `i` where `s` holds an exponent mark; the
/// length of `s` (or `i`, if that is larger) when there is none.
pub open spec fn scan_mark(s: Seq<char>, i: int) -> int
    decreases s.len() - i,
{
    if i < 0 || i >= s.len() || is_exponent_mark(s[i]) {
        i
    } else {
        scan_mark(s, i + 1)
    }
}

/// The whole number that a run of digits stands for once its point, which
/// stands behind the last digit, is moved `shift` places to the right, or
/// to the left where `shift` is negative. Digits that come to stand behind
/// the point are dropped.
pub open spec fn shifted_value(digits: Seq<char>, shift: int) -> int {
    if shift >= 0 {
        digits_value(digits) * pow10(shift as nat)
    } else if digits.len() + shift <= 0 {
        0
    } else {
        digits_value(digits.take(digits.len() + shift))
    }
}

/// The exponent that the text behind an exponent mark denotes: an optional
/// sign and at least one digit. `None` for any other text.
pub open spec fn exponent_value(s: Seq<char>) -> Option<int> {
    let negative = s.len() > 0 && s[0] == '-';
    let signed = negative || (s.len() > 0 && s[0] == '+');
    let digits = if signed {
        s.skip(1)
    } else {
        s
    };
    if digits.len() > 0 && all_digits(digits) {
        Some(
            if negative {
                -digits_value(digits)
            } else {
                digits_value(digits)
            },
        )
    } else {
        None
    }
}

/// The digits before the point of a mantissa: all of it where it has no
/// point.
pub open spec fn whole_part(m: Seq<char>) -> Seq<char> {
    m.take(scan(m, '.', 0))
}

/// The digits behind the point of a mantissa: none where it has no point.
pub open spec fn fraction_part(m: Seq<char>) -> Seq<char> {
    if scan(m, '.', 0) < m.len() {
        m.skip(scan(m, '.', 0) + 1)
    } else {
        Seq::<char>::empty()
    }
}

/// Whether `m` is a mantissa: digits, optionally a point and more digits,
/// with at least one digit in all.
pub open spec fn is_mantissa(m: Seq<char>) -> bool {
    all_digits(whole_part(m)) && all_digits(fraction_part(m)) && whole_part(m).len()
        + fraction_part(m).len() > 0
}

/// The millionths denoted by an unsigned decimal literal: a mantissa, and
/// optionally an exponent mark and an exponent, which moves the point. What
/// comes to stand beyond the sixth place behind the point is dropped.
pub open spec fn unsigned_micros(s: Seq<char>) -> Option<int> {
    let mark = scan_mark(s, 0);
    let mantissa = s.take(mark);
    let exponent = if mark < s.len() {
        exponent_value(s.skip(mark + 1))
    } else {
        Some(0int)
    };
    if is_mantissa(mantissa) {
        match exponent {
            Some(e) => Some(
                shifted_value(
                    whole_part(mantissa) + fraction_part(mantissa),
                    e + 6 - fraction_part(mantissa).len(),
                ),
            ),
            None => None,
        }
    } else {
        None
    }
}

/// The amount, in millionths, that a decimal literal with an optional sign
/// and an optional exponent denotes, brought into the range of an amount.
/// `None` for any other text.
pub open spec fn text_micros(s: Seq<char>) -> Option<int> {
    if s.len() > 0 && s[0] == '-' {
        match unsigned_micros(s.skip(1)) {
            Some(m) => Some(clamp(-m)),
            None => None,
        }
    } else if s.len() > 0 && s[0] == '+' {
        match unsigned_micros(s.skip(1)) {
            Some(m) => Some(clamp(m)),
            None => None,
        }
    } else {
        match unsigned_micros(s) {
            Some(m) => Some(clamp(m)),
            None => None,
        }
    }
}

/// The value of `c` as a decimal digit, if it is one.
pub fn digit_of(c: char) -> (d: Option<u8>)
    ensures
        d is Some <==> is_digit(c),
        d matches Some(v) ==> v == digit_value(c),
{
    let code: u32 = c as u32;
    assert(code as int == c as int);
    if code >= 48 && code <= 57 {
        Some((code - 48) as u8)
    } else {
        None
    }
}

/// The largest value that the digit reader counts up to.
pub const DIGITS_CAP: u128 = 0x10_0000_0000_0000_0000_0000_0000;

/// The smaller of two numbers.
pub open spec fn least(a: int, b: int) -> int {
    if a <= b {
        a
    } else {
        b
    }
}

proof fn lemma_digits_step(s: Seq<char>, i: int)
    requires
        0 <= i < s.len(),
    ensures
        digits_value(s.take(i + 1)) == digits_value(s.take(i)) * 10 + digit_value(s[i]),
{
    assert(s.take(i + 1).drop_last() =~= s.take(i));
    assert(s.take(i + 1).last() == s[i]);
}

/// A run of at most `n` digits denotes less than ten to the `n`.
pub proof fn lemma_digits_bound(s: Seq<char>)
    requires
        all_digits(s),
    ensures
        0 <= digits_value(s) < pow10(s.len()),
    decreases s.len(),
{
    if s.len() > 0 {
        assert(all_digits(s.drop_last())) by {
            assert forall|i: int| 0 <= i < s.drop_last().len() implies is_digit(
                #[trigger] s.drop_last()[i],
            ) by {
                assert(s.drop_last()[i] == s[i]);
            }
        }
        lemma_digits_bound(s.drop_last());
        assert(is_digit(s[s.len() - 1]));
    }
}

/// Whether `chars[from..to]` holds digits only.
pub(crate) fn digits_only(chars: &Vec<char>, from: usize, to: usize) -> (ok: bool)
    requires
        from <= to <= chars.len(),
    ensures
        ok == all_digits(chars@.subrange(from as int, to as int)),
{
    let ghost sub = chars@.subrange(from as int, to as int);
    let mut i: usize = from;
    while i < to
        invariant
            from <= i <= to <= chars.len(),
            sub == chars@.subrange(from as int, to as int),
            forall|j: int| 0 <= j < i - from ==> is_digit(#[trigger] sub[j]),
        decreases to - i,
    {
        assert(sub[i - from] == chars@[i as int]);
        if digit_of(chars[i]).is_none() {
            return false;
        }
        i += 1;
    }
    true
}

/// The number that the digits `chars[from..to]` denote, counted up to
/// `DIGITS_CAP` at most.
pub(crate) fn digits_number(chars: &Vec<char>, from: usize, to: usize) -> (n: u128)
    requires
        from <= to <= chars.len(),
        all_digits(chars@.subrange(from as int, to as int)),
    ensures
        n == least(digits_value(chars@.subrange(from as int, to as int)), DIGITS_CAP as int),
{
    let ghost sub = chars@.subrange(from as int, to as int);
    let mut n: u128 = 0;
    let mut i: usize = from;
    assert(sub.take(0) =~= Seq::<char>::empty());
    while i < to
        invariant
            from <= i <= to <= chars.len(),
            sub == chars@.subrange(from as int, to as int),
            all_digits(sub),
            n == least(digits_value(sub.take(i - from)), DIGITS_CAP as int),
        decreases to - i,
    {
        let digit: Option<u8> = digit_of(chars[i]);
        proof {
            assert(is_digit(sub[i - from]));
            assert(sub[i - from] == chars@[i as int]);
            lemma_digits_step(sub, i - from);
            assert(all_digits(sub.take(i - from))) by {
                assert forall|j: int| 0 <= j < sub.take(i - from).len() implies is_digit(
                    #[trigger] sub.take(i - from)[j],
                ) by {
                    assert(sub.take(i - from)[j] == sub[j]);
                }
            }
            lemma_digits_bound(sub.take(i - from));
        }
        if n < DIGITS_CAP {
            n = n * 10 + digit.unwrap() as u128;
            if n > DIGITS_CAP {
                n = DIGITS_CAP;
            }
        }
        i += 1;
    }
    assert(sub.take(to - from) =~= sub);
    n
}

/// Powers of ten are at least one and grow with the exponent.
pub proof fn lemma_pow10_grows(a: nat, b: nat)
    requires
        a <= b,
    ensures
        1 <= pow10(a) <= pow10(b),
    decreases b,
{
    if b == 0 {
    } else if a == b {
        lemma_pow10_grows((a - 1) as nat, (b - 1) as nat);
    } else {
        lemma_pow10_grows(a, (b - 1) as nat);
    }
}

fn power_of_ten(k: usize) -> (p: u128)
    requires
        k <= 18,
    ensures
        p == pow10(k as nat),
        1 <= p <= 1_000_000_000_000_000_000,
{
    let mut p: u128 = 1;
    let mut i: usize = 0;
    while i < k
        invariant
            i <= k <= 18,
            p == pow10(i as nat),
        decreases k - i,
    {
        proof {
            lemma_pow10_grows((i + 1) as nat, 18);
            reveal_with_fuel(pow10, 20);
        }
        p = p * 10;
        i += 1;
    }
    proof {
        lemma_pow10_grows(k as nat, 18);
        reveal_with_fuel(pow10, 20);
    }
    p
}

fn exponent_mark(c: char) -> (b: bool)
    ensures
        b == is_exponent_mark(c),
{
    c == 'e' || c == 'E'
}

/// The largest number of millionths that an amount holds.
const MOST: u128 = 0x7fff_ffff_ffff_ffff;

/// The value that stands for every number larger than `MOST`.
const BEYOND: u128 = 0x8000_0000_0000_0000;

/// The value of the digits `digits[..keep]`, or `BEYOND` where it is larger
/// than any amount.
fn digits_amount(digits: &Vec<char>, keep: usize) -> (v: u128)
    requires
        keep <= digits.len(),
        all_digits(digits@),
    ensures
        0 <= digits_value(digits@.take(keep as int)),
        digits_value(digits@.take(keep as int)) <= MOST ==> v == digits_value(
            digits@.take(keep as int),
        ),
        digits_value(digits@.take(keep as int)) > MOST ==> v == BEYOND,
{
    proof {
        let part = digits@.take(keep as int);
        assert(part =~= digits@.subrange(0, keep as int));
        assert(all_digits(part)) by {
            assert forall|i: int| 0 <= i < part.len() implies is_digit(#[trigger] part[i]) by {
                assert(part[i] == digits@[i]);
            }
        }
        lemma_digits_bound(part);
    }
    let n: u128 = digits_number(digits, 0, keep);
    if n > MOST {
        BEYOND
    } else {
        n
    }
}

/// The digits of the mantissa `chars[from..to]` without its point, and how
/// many of them stand behind the point; none where it is no mantissa.
fn read_mantissa(chars: &Vec<char>, from: usize, to: usize) -> (r: Option<(Vec<char>, usize)>)
    requires
        from <= to <= chars.len(),
    ensures
        r is Some <==> is_mantissa(chars@.subrange(from as int, to as int)),
        r matches Some((digits, places)) ==> {
            let m = chars@.subrange(from as int, to as int);
            &&& digits@ == whole_part(m) + fraction_part(m)
            &&& places == fraction_part(m).len()
            &&& all_digits(digits@)
        },
{
    let ghost m = chars@.subrange(from as int, to as int);
    let mut dot: usize = from;
    while dot < to && chars[dot] != '.'
        invariant
            from <= dot <= to <= chars.len(),
            m == chars@.subrange(from as int, to as int),
            scan(m, '.', 0) == scan(m, '.', dot - from),
        decreases to - dot,
    {
        assert(m[dot - from] == chars@[dot as int]);
        dot += 1;
    }
    proof {
        if dot < to {
            assert(m[dot - from] == chars@[dot as int]);
        }
        assert(scan(m, '.', 0) == dot - from);
    }
    let behind_from: usize = if dot < to {
        dot + 1
    } else {
        to
    };
    let ghost whole = whole_part(m);
    let ghost frac = fraction_part(m);
    assert(whole =~= chars@.subrange(from as int, dot as int));
    assert(frac =~= chars@.subrange(behind_from as int, to as int));
    if !digits_only(chars, from, dot) || !digits_only(chars, behind_from, to) {
        return None;
    }
    if (dot - from) + (to - behind_from) == 0 {
        return None;
    }
    let mut digits: Vec<char> = slice_of(chars, from, dot);
    let mut behind: Vec<char> = slice_of(chars, behind_from, to);
    digits.append(&mut behind);
    proof {
        assert(digits@ =~= whole + frac);
        assert forall|i: int| 0 <= i < digits@.len() implies is_digit(#[trigger] digits@[i]) by {
            if i < whole.len() {
                assert(digits@[i] == whole[i]);
            } else {
                assert(digits@[i] == frac[i - whole.len()]);
            }
        }
    }
    Some((digits, to - behind_from))
}

/// Whether the exponent `exponent` was read as `size` downwards or upwards:
/// in full where it is smaller than `DIGITS_CAP`, else as `DIGITS_CAP`.
pub open spec fn counted(exponent: int, downwards: bool, size: int) -> bool {
    &&& size == least(magnitude_of(exponent) as int, DIGITS_CAP as int)
    &&& downwards ==> exponent <= 0
    &&& !downwards ==> exponent >= 0
}

/// The exponent in `chars[from..]`, counted up to `DIGITS_CAP` at most, and
/// whether it points downwards; none where the text is no exponent.
fn read_exponent(chars: &Vec<char>, from: usize) -> (r: Option<(bool, u128)>)
    requires
        from <= chars.len(),
    ensures
        r is Some <==> exponent_value(chars@.skip(from as int)) is Some,
        r matches Some((downwards, size)) ==> counted(
            exponent_value(chars@.skip(from as int))->0,
            downwards,
            size as int,
        ),
{
    let ghost tail = chars@.skip(from as int);
    let len: usize = chars.len();
    let negative: bool = from < len && chars[from] == '-';
    let signed: bool = negative || (from < len && chars[from] == '+');
    let digits_from: usize = if signed {
        from + 1
    } else {
        from
    };
    proof {
        if from < len {
            assert(tail[0] == chars@[from as int]);
        }
        let run = if signed {
            tail.skip(1)
        } else {
            tail
        };
        assert(run =~= chars@.subrange(digits_from as int, len as int));
    }
    if digits_from == len || !digits_only(chars, digits_from, len) {
        return None;
    }
    proof {
        lemma_digits_bound(chars@.subrange(digits_from as int, len as int));
    }
    let size: u128 = digits_number(chars, digits_from, len);
    Some((negative, size))
}

/// The value of `digits` with the point moved by `exponent + 6 - places`,
/// or `BEYOND` where it is larger than any amount.
fn shift_digits(
    digits: &Vec<char>,
    places: usize,
    downwards: bool,
    size: u128,
    Ghost(exponent): Ghost<int>,
) -> (v: u128)
    requires
        all_digits(digits@),
        places <= digits.len(),
        counted(exponent, downwards, size as int),
    ensures
        0 <= shifted_value(digits@, exponent + 6 - places),
        shifted_value(digits@, exponent + 6 - places) <= MOST ==> v == shifted_value(
            digits@,
            exponent + 6 - places,
        ),
        shifted_value(digits@, exponent + 6 - places) > MOST ==> v == BEYOND,
{
    let count: usize = digits.len();
    let ghost shift_true: int = exponent + 6 - places;
    let shift: i128 = if downwards {
        6 - (size as i128) - (places as i128)
    } else {
        size as i128 + 6 - (places as i128)
    };
    proof {
        assert(digits@.take(count as int) =~= digits@);
        // Where the exponent was counted in full, the shift is exact; where
        // it was not, the shift is far out on the same side.
        if size < DIGITS_CAP {
            assert(shift == shift_true);
        } else if downwards {
            assert(shift_true <= shift);
            assert(shift + count < 0);
        } else {
            assert(shift_true >= shift);
            assert(shift >= 19);
        }
    }
    if shift >= 0 {
        let v: u128 = digits_amount(digits, count);
        proof {
            lemma_pow10_grows(0, shift_true as nat);
        }
        if v == 0 {
            assert(digits_value(digits@) * pow10(shift_true as nat) == 0) by (nonlinear_arith)
                requires
                    digits_value(digits@) == 0,
            ;
            0
        } else if v == BEYOND {
            assert(digits_value(digits@) * pow10(shift_true as nat) > MOST) by (nonlinear_arith)
                requires
                    digits_value(digits@) > MOST,
                    pow10(shift_true as nat) >= 1,
            ;
            BEYOND
        } else if shift >= 19 {
            proof {
                lemma_pow10_grows(19, shift_true as nat);
                reveal_with_fuel(pow10, 20);
            }
            assert(digits_value(digits@) * pow10(shift_true as nat) > MOST) by (nonlinear_arith)
                requires
                    digits_value(digits@) >= 1,
                    pow10(shift_true as nat) >= 10_000_000_000_000_000_000,
            ;
            BEYOND
        } else {
            let p: u128 = power_of_ten(shift as usize);
            assert(v * p <= 0x7fff_ffff_ffff_ffff * 1_000_000_000_000_000_000) by (nonlinear_arith)
                requires
                    0 <= v <= 0x7fff_ffff_ffff_ffff,
                    0 <= p <= 1_000_000_000_000_000_000,
            ;
            let product: u128 = v * p;
            if product > MOST {
                BEYOND
            } else {
                product
            }
        }
    } else {
        let drop: i128 = 0 - shift;
        if drop >= count as i128 {
            0
        } else {
            let keep: usize = count - (drop as usize);
            digits_amount(digits, keep)
        }
    }
}

/// Reads an unsigned decimal literal from `chars[from..]`. A value that is
/// larger than any amount is given as `BEYOND`.
fn read_unsigned(chars: &Vec<char>, from: usize) -> (m: Option<u128>)
    requires
        from <= chars.len(),
    ensures
        m is Some <==> unsigned_micros(chars@.skip(from as int)) is Some,
        m matches Some(v) ==> {
            let exact = unsigned_micros(chars@.skip(from as int))->0;
            &&& 0 <= exact
            &&& (exact <= i64::MAX ==> v == exact)
            &&& (exact > i64::MAX ==> v == 0x8000_0000_0000_0000)
        },
{
    let ghost s = chars@.skip(from as int);
    let len: usize = chars.len();
    let mut mark: usize = from;
    while mark < len && !exponent_mark(chars[mark])
        invariant
            from <= mark <= len,
            len == chars.len(),
            s == chars@.skip(from as int),
            scan_mark(s, 0) == scan_mark(s, mark - from),
        decreases len - mark,
    {
        assert(s[mark - from] == chars@[mark as int]);
        mark += 1;
    }
    proof {
        if mark < len {
            assert(s[mark - from] == chars@[mark as int]);
        }
        assert(scan_mark(s, 0) == mark - from);
        assert(s.take(mark - from) =~= chars@.subrange(from as int, mark as int));
        if mark < len {
            assert(s.skip(mark - from + 1) =~= chars@.skip(mark + 1));
        }
    }
    let (digits, places) = match read_mantissa(chars, from, mark) {
        Some(x) => x,
        None => {
            return None;
        },
    };
    if mark < len {
        match read_exponent(chars, mark + 1) {
            Some((downwards, size)) => {
                let ghost exponent = exponent_value(chars@.skip(mark + 1))->0;
                Some(shift_digits(&digits, places, downwards, size, Ghost(exponent)))
            },
            None => None,
        }
    } else {
        Some(shift_digits(&digits, places, false, 0, Ghost(0int)))
    }
}

/// Reads a decimal literal with an optional sign.
pub fn amount_from_chars(chars: &Vec<char>) -> (r: Option<Amount>)
    ensures
        r is Some <==> text_micros(chars@) is Some,
        r matches Some(a) ==> a.micros == text_micros(chars@)->0,
{
    let negative: bool = chars.len() > 0 && chars[0] == '-';
    let signed: bool = chars.len() > 0 && (chars[0] == '-' || chars[0] == '+');
    let from: usize = if signed {
        1
    } else {
        0
    };
    assert(chars@.skip(0) =~= chars@);
    match read_unsigned(chars, from) {
        None => None,
        Some(m) => {
            if negative {
                if m > 0x8000_0000_0000_0000 {
                    Some(Amount { micros: i64::MIN })
                } else {
                    Some(Amount { micros: (0 - (m as i128)) as i64 })
                }
            } else if m > 0x7fff_ffff_ffff_ffff {
                Some(Amount { micros: i64::MAX })
            } else {
                Some(Amount { micros: m as i64 })
            }
        },
    }
}

/// The number that a run of digits with an optional sign denotes, if it
/// fits in 32 bits. `None` for any other text.
pub open spec fn text_i32(s: Seq<char>) -> Option<int> {
    let negative = s.len() > 0 && s[0] == '-';
    let signed = negative || (s.len() > 0 && s[0] == '+');
    let digits = if signed {
        s.skip(1)
    } else {
        s
    };
    let value = if negative {
        -digits_value(digits)
    } else {
        digits_value(digits)
    };
    if digits.len() > 0 && all_digits(digits) && i32::MIN <= value <= i32::MAX {
        Some(value)
    } else {
        None
    }
}

/// Reads a whole number with an optional sign.
pub fn i32_from_chars(chars: &Vec<char>) -> (r: Option<i32>)
    ensures
        r is Some <==> text_i32(chars@) is Some,
        r matches Some(v) ==> v == text_i32(chars@)->0,
{
    let negative: bool = chars.len() > 0 && chars[0] == '-';
    let signed: bool = negative || (chars.len() > 0 && chars[0] == '+');
    let from: usize = if signed {
        1
    } else {
        0
    };
    assert(chars@.skip(from as int) =~= chars@.subrange(from as int, chars.len() as int));
    assert(chars@.subrange(0, chars.len() as int) =~= chars@);
    if from == chars.len() || !digits_only(chars, from, chars.len()) {
        return None;
    }
    proof {
        lemma_digits_bound(chars@.subrange(from as int, chars.len() as int));
    }
    let n: u128 = digits_number(chars, from, chars.len());
    if negative {
        if n > 0x8000_0000 {
            None
        } else {
            Some((0 - (n as i64)) as i32)
        }
    } else if n > 0x7fff_ffff {
        None
    } else {
        Some(n as i32)
    }
}

/// The character for the digit `d`.
pub open spec fn digit_char(d: int) -> char {
    (d + 48) as char
}

/// The decimal digits of `n`, without leading zeros.
pub open spec fn nat_text(n: nat) -> Seq<char>
    decreases n,
{
    if n < 10 {
        seq![digit_char(n as int)]
    } else {
        nat_text(n / 10).push(digit_char((n % 10) as int))
    }
}

/// The last `width` decimal digits of `n`, with leading zeros.
pub open spec fn padded_text(n: nat, width: nat) -> Seq<char>
    decreases width,
{
    if width == 0 {
        Seq::<char>::empty()
    } else {
        padded_text(n / 10, (width - 1) as nat).push(digit_char((n % 10) as int))
    }
}

/// The digits of the fraction `f / 10^width`, without trailing zeros.
pub open spec fn fraction_text(f: nat, width: nat) -> Seq<char>
    decreases width,
{
    if width == 0 || f == 0 {
        Seq::<char>::empty()
    } else if f % 10 == 0 {
        fraction_text(f / 10, (width - 1) as nat)
    } else {
        padded_text(f, width)
    }
}

/// A minus sign for a negative number, nothing otherwise.
pub open spec fn sign_text(x: int) -> Seq<char> {
    if x < 0 {
        seq!['-']
    } else {
        Seq::<char>::empty()
    }
}

/// An amount written in full: the whole part, and the fraction without
/// trailing zeros if there is one.
pub open spec fn plain_text(micros: int) -> Seq<char> {
    let m = magnitude_of(micros);
    let frac = m % 1_000_000;
    sign_text(micros) + nat_text(m / 1_000_000) + if frac == 0 {
        Seq::<char>::empty()
    } else {
        seq!['.'] + fraction_text(frac, 6)
    }
}

/// The number of tenths nearest to `m` millionths; a tie goes to the even
/// number.
pub open spec fn nearest_tenths(m: nat) -> nat {
    let q = m / 100_000;
    let r = m % 100_000;
    if r > 50_000 || (r == 50_000 && q % 2 == 1) {
        q + 1
    } else {
        q
    }
}

/// An amount written with one digit after the point.
pub open spec fn rounded_text(micros: int) -> Seq<char> {
    let t = nearest_tenths(magnitude_of(micros));
    sign_text(micros) + nat_text(t / 10) + seq!['.', digit_char((t % 10) as int)]
}

/// A whole number written out, with a minus sign if it is negative.
pub open spec fn int_text(n: int) -> Seq<char> {
    sign_text(n) + nat_text(magnitude_of(n))
}

/// The characters of a whole number written out.
pub fn int_chars(n: i32) -> (out: Vec<char>)
    ensures
        out@ == int_text(n as int),
{
    let mut out: Vec<char> = Vec::new();
    if n < 0 {
        out.push('-');
    }
    push_nat(&mut out, magnitude(n as i64));
    assert(out@ =~= int_text(n as int));
    out
}

fn digit_char_of(d: u8) -> (c: char)
    requires
        d < 10,
    ensures
        c == digit_char(d as int),
{
    (d + 48) as char
}

fn push_nat(out: &mut Vec<char>, n: u128)
    ensures
        final(out)@ == old(out)@ + nat_text(n as nat),
    decreases n,
{
    if n >= 10 {
        push_nat(out, n / 10);
    }
    out.push(digit_char_of((n % 10) as u8));
    assert(final(out)@ =~= old(out)@ + nat_text(n as nat));
}

fn push_padded(out: &mut Vec<char>, n: u128, width: usize)
    ensures
        final(out)@ == old(out)@ + padded_text(n as nat, width as nat),
    decreases width,
{
    if width > 0 {
        push_padded(out, n / 10, width - 1);
        out.push(digit_char_of((n % 10) as u8));
    }
    assert(final(out)@ =~= old(out)@ + padded_text(n as nat, width as nat));
}

fn push_fraction(out: &mut Vec<char>, f: u128, width: usize)
    ensures
        final(out)@ == old(out)@ + fraction_text(f as nat, width as nat),
    decreases width,
{
    if width == 0 || f == 0 {
    } else if f % 10 == 0 {
        push_fraction(out, f / 10, width - 1);
    } else {
        push_padded(out, f, width);
    }
    assert(final(out)@ =~= old(out)@ + fraction_text(f as nat, width as nat));
}

impl Amount {
    /// The amount written in full, as `plain_text` gives it.
    pub fn to_text(&self) -> (text: String)
        ensures
            text@ == plain_text(self.micros as int),
    {
        string_of(&self.plain_chars())
    }

    /// The amount rounded to one digit after the point, as `rounded_text`
    /// gives it.
    pub fn to_rounded_text(&self) -> (text: String)
        ensures
            text@ == rounded_text(self.micros as int),
    {
        string_of(&self.rounded_chars())
    }

    /// The characters of the amount written in full.
    pub fn plain_chars(&self) -> (out: Vec<char>)
        ensures
            out@ == plain_text(self.micros as int),
    {
        let m: u128 = magnitude(self.micros);
        let mut out: Vec<char> = Vec::new();
        if self.micros < 0 {
            out.push('-');
        }
        push_nat(&mut out, m / 1_000_000);
        let frac: u128 = m % 1_000_000;
        if frac != 0 {
            out.push('.');
            push_fraction(&mut out, frac, 6);
        }
        assert(out@ =~= plain_text(self.micros as int));
        out
    }

    /// The characters of the amount rounded to one digit after the point.
    pub fn rounded_chars(&self) -> (out: Vec<char>)
        ensures
            out@ == rounded_text(self.micros as int),
    {
        let m: u128 = magnitude(self.micros);
        let q: u128 = m / 100_000;
        let r: u128 = m % 100_000;
        let tenths: u128 = if r > 50_000 || (r == 50_000 && q % 2 == 1) {
            q + 1
        } else {
            q
        };
        let mut out: Vec<char> = Vec::new();
        if self.micros < 0 {
            out.push('-');
        }
        push_nat(&mut out, tenths / 10);
        out.push('.');
        out.push(digit_char_of((tenths % 10) as u8));
        assert(out@ =~= rounded_text(self.micros as int));
        out
    }

    /// Reads a decimal literal: an optional sign, digits, and optionally a
    /// point and more digits. Digits beyond the sixth after the point are
    /// dropped, and a number too large to hold becomes the nearest amount.
    pub fn parse(text: &str) -> (r: Option<Amount>)
        ensures
            r is Some <==> text_micros(text@) is Some,
            r matches Some(a) ==> a.micros == text_micros(text@)->0,
    {
        let chars = chars_of(text);
        amount_from_chars(&chars)
    }
}

} // verus!
