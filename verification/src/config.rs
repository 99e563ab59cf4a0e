//! The scale configuration: parsing of configuration text into fixed-point
//! milli-unit scale factors, clamping into the valid range, and the
//! resolution order that turns the five configuration values into the one
//! `ScaleCfg` the entry points consult.

use vstd::prelude::*;
use vstd::arithmetic::div_mod::lemma_basic_div;
use vstd::arithmetic::mul::lemma_mul_inequality;
use vstd::arithmetic::mul::lemma_mul_is_commutative;

verus! {

/// Smallest accepted scale factor, in thousandths (0.05).
pub const SCALE_MIN_MILLI: u32 = 50;

/// Largest accepted scale factor, in thousandths (20.0).
pub const SCALE_MAX_MILLI: u32 = 20000;

/// Neutral scale factor applied when nothing is configured (1.0).
pub const SCALE_DEFAULT_MILLI: u32 = 1000;

/// Strict upper bound on the mantissa accumulator: digits stop being
/// absorbed once the accumulator reaches `SAT_LIMIT`, so it never grows to
/// this value.
pub const MANTISSA_CAP: u64 = 1000000000000000;

/// Threshold at which the mantissa accumulator stops absorbing digits. At
/// least fourteen significant digits are always absorbed — precision far
/// finer than the thousandths the factors carry — and the digits beyond it
/// are dropped without disturbing the value's scale: a dropped fractional
/// digit no longer narrows the shift, a dropped integer digit still widens
/// it by one place.
pub const SAT_LIMIT: u64 = 100000000000000;

/// Bound at which the count of integer digits dropped after saturation
/// itself saturates. Any such count drives the magnitude past its cap
/// whatever the exponent, so this saturation never changes the result.
pub const EXTRA_CAP: u64 = 100000000;

/// Bound at which the digits of a parsed exponent saturate. Any exponent
/// this large drives the value to the magnitude cap (or to zero when
/// negative) whatever the mantissa, so saturation never changes the result.
pub const EXP_CAP: u64 = 1000000;

/// Bound at which the count of absorbed fractional digits saturates. A
/// count this large shifts any mantissa to zero even against the largest
/// accepted exponent, so this saturation never changes the result.
pub const FRAC_LEN_CAP: u64 = 100000000;

/// Bound at which a parsed magnitude saturates, in thousandths (a factor of
/// one million). Far beyond `SCALE_MAX_MILLI`, so the clamped result is
/// unchanged; the infinity words parse to exactly this magnitude.
pub const MILLI_MAGNITUDE_CAP: u64 = 1000000000;

/// ASCII code of the decimal point.
pub const DOT: u8 = 46;

/// ASCII code of the lower-case exponent marker.
pub const EXP_LOWER: u8 = 101;

/// ASCII code of the upper-case exponent marker.
pub const EXP_UPPER: u8 = 69;

/// ASCII code of the plus sign.
pub const PLUS: u8 = 43;

/// ASCII code of the minus sign.
pub const MINUS: u8 = 45;

/// ASCII code of the digit zero.
pub const ZERO: u8 = 48;

/// ASCII code of the digit nine.
pub const NINE: u8 = 57;

/// Whether a byte is an ASCII decimal digit.
pub open spec fn is_ascii_digit(b: u8) -> bool {
    ZERO <= b && b <= NINE
}

/// Numeric value of an ASCII digit byte.
pub open spec fn digit_value(b: u8) -> int {
    b - ZERO
}

/// Whether every byte of the sequence is an ASCII digit.
pub open spec fn all_digits(s: Seq<u8>) -> bool {
    forall|i: int| 0 <= i < s.len() ==> is_ascii_digit(s[i])
}

/// Value of a digit string read as a base-ten number.
pub open spec fn digits_value(s: Seq<u8>) -> int
    decreases s.len(),
{
    if s.len() == 0 {
        0
    } else {
        digits_value(s.drop_last()) * 10 + digit_value(s.last())
    }
}

/// Whether the text starts with an explicit sign.
pub open spec fn has_sign(s: Seq<u8>) -> bool {
    s.len() > 0 && (s[0] == PLUS || s[0] == MINUS)
}

/// Whether the text denotes a negative number.
pub open spec fn is_negative(s: Seq<u8>) -> bool {
    s.len() > 0 && s[0] == MINUS
}

/// The text with a leading sign removed.
pub open spec fn unsigned_part(s: Seq<u8>) -> Seq<u8> {
    if has_sign(s) {
        s.skip(1)
    } else {
        s
    }
}

/// Index of the first decimal point, or the length when there is none.
pub open spec fn dot_index(t: Seq<u8>) -> int
    decreases t.len(),
{
    if t.len() == 0 {
        0
    } else if t[0] == DOT {
        0
    } else {
        1 + dot_index(t.skip(1))
    }
}

/// The digits before the decimal point.
pub open spec fn int_digits(t: Seq<u8>) -> Seq<u8> {
    t.take(dot_index(t))
}

/// The digits after the decimal point; empty when there is no point.
pub open spec fn frac_digits(t: Seq<u8>) -> Seq<u8> {
    if dot_index(t) < t.len() {
        t.skip(dot_index(t) + 1)
    } else {
        Seq::empty()
    }
}

/// Whether a byte is an exponent marker.
pub open spec fn is_exp_marker(b: u8) -> bool {
    b == EXP_LOWER || b == EXP_UPPER
}

/// Index of the first exponent marker, or the length when there is none.
pub open spec fn exp_index(t: Seq<u8>) -> int
    decreases t.len(),
{
    if t.len() == 0 {
        0
    } else if is_exp_marker(t[0]) {
        0
    } else {
        1 + exp_index(t.skip(1))
    }
}

/// The mantissa: everything before the first exponent marker.
pub open spec fn mantissa_part(t: Seq<u8>) -> Seq<u8> {
    t.take(exp_index(t))
}

/// The exponent text after the marker; empty when there is no marker.
pub open spec fn exp_part(t: Seq<u8>) -> Seq<u8> {
    if exp_index(t) < t.len() {
        t.skip(exp_index(t) + 1)
    } else {
        Seq::empty()
    }
}

/// Whether the exponent text denotes a negative exponent.
pub open spec fn exp_negative(e: Seq<u8>) -> bool {
    e.len() > 0 && e[0] == MINUS
}

/// The exponent digits, with a leading sign removed.
pub open spec fn exp_digits(e: Seq<u8>) -> Seq<u8> {
    if e.len() > 0 && (e[0] == PLUS || e[0] == MINUS) {
        e.skip(1)
    } else {
        e
    }
}

/// Whether exponent text is well formed: an optional sign and then at least
/// one digit, nothing else.
pub open spec fn exp_ok(e: Seq<u8>) -> bool {
    exp_digits(e).len() >= 1 && all_digits(exp_digits(e))
}

/// Whether mantissa text is well formed: digits around at most one decimal
/// point, with at least one digit somewhere.
pub open spec fn mantissa_ok(m: Seq<u8>) -> bool {
    &&& all_digits(int_digits(m))
    &&& all_digits(frac_digits(m))
    &&& int_digits(m).len() + frac_digits(m).len() >= 1
}

/// Whether unsigned text is a well-formed decimal literal: a well-formed
/// mantissa, optionally followed by an exponent marker and a well-formed
/// exponent.
pub open spec fn decimal_ok(t: Seq<u8>) -> bool {
    &&& mantissa_ok(mantissa_part(t))
    &&& (exp_index(t) == t.len() || exp_ok(exp_part(t)))
}

/// A value saturated at a cap.
pub open spec fn capped_at(v: int, cap: int) -> int {
    if v > cap {
        cap
    } else {
        v
    }
}

/// Ten to the `k`th power.
pub open spec fn pow10(k: nat) -> int
    decreases k,
{
    if k == 0 {
        1
    } else {
        10 * pow10((k - 1) as nat)
    }
}

/// A magnitude shifted by `k` decimal places: multiplied for a shift to the
/// left, divided with truncation for a shift to the right.
pub open spec fn shift10(m: int, k: int) -> int {
    if k >= 0 {
        m * pow10(k as nat)
    } else {
        m / pow10((-k) as nat)
    }
}

/// The signed exponent value, with its digits saturated at `EXP_CAP`; zero
/// when there is no exponent.
pub open spec fn exp_value_capped(t: Seq<u8>) -> int {
    if exp_index(t) == t.len() {
        0
    } else {
        let v = capped_at(digits_value(exp_digits(exp_part(t))), EXP_CAP as int);
        if exp_negative(exp_part(t)) {
            -v
        } else {
            v
        }
    }
}

/// A left-to-right scan of the integer digits: the accumulator absorbs
/// digits while it is below `SAT_LIMIT`; each digit after that is dropped
/// and counted instead, since it widens the value by one decimal place.
/// The result is the pair of the accumulator and that count.
pub open spec fn int_scan(d: Seq<u8>) -> (int, int)
    decreases d.len(),
{
    if d.len() == 0 {
        (0, 0)
    } else {
        let prev = int_scan(d.drop_last());
        if prev.0 < SAT_LIMIT {
            (prev.0 * 10 + digit_value(d.last()), prev.1)
        } else {
            (prev.0, prev.1 + 1)
        }
    }
}

/// A left-to-right scan of the fractional digits, continuing from the
/// integer scan's accumulator: a digit absorbed while the accumulator is
/// below `SAT_LIMIT` narrows the shift by one decimal place and is counted;
/// a digit after that is dropped entirely, since it no longer changes the
/// accumulator. The result is the pair of the accumulator and the count of
/// absorbed digits.
pub open spec fn frac_scan(st: (int, int), f: Seq<u8>) -> (int, int)
    decreases f.len(),
{
    if f.len() == 0 {
        st
    } else {
        let prev = frac_scan(st, f.drop_last());
        if prev.0 < SAT_LIMIT {
            (prev.0 * 10 + digit_value(f.last()), prev.1 + 1)
        } else {
            prev
        }
    }
}

/// Magnitude of a well-formed unsigned decimal literal, in thousandths: the
/// scanned mantissa accumulator, shifted by the exponent, widened by the
/// dropped integer digits and narrowed by the absorbed fractional digits,
/// saturated at `MILLI_MAGNITUDE_CAP`. Anything finer than a thousandth
/// truncates.
pub open spec fn magnitude_milli(t: Seq<u8>) -> int {
    let m = mantissa_part(t);
    let ints = int_scan(int_digits(m));
    let fr = frac_scan((ints.0, 0), frac_digits(m));
    capped_at(shift10(fr.0, 3 + exp_value_capped(t) + ints.1 - fr.1), MILLI_MAGNITUDE_CAP as int)
}

/// Case-insensitive match of one byte against a lower-case letter.
pub open spec fn ci_eq(b: u8, lower: u8) -> bool {
    b == lower || b == lower - 32
}

/// Whether unsigned text is one of the infinity words, in any case.
pub open spec fn is_inf_word(t: Seq<u8>) -> bool {
    ||| (t.len() == 3 && ci_eq(t[0], 105) && ci_eq(t[1], 110) && ci_eq(t[2], 102))
    ||| (t.len() == 8 && ci_eq(t[0], 105) && ci_eq(t[1], 110) && ci_eq(t[2], 102) && ci_eq(
        t[3],
        105,
    ) && ci_eq(t[4], 110) && ci_eq(t[5], 105) && ci_eq(t[6], 116) && ci_eq(t[7], 121))
}

/// What parsing configuration text yields: the saturated magnitude for an
/// infinity word, the signed magnitude in thousandths for a well-formed
/// decimal literal, and nothing otherwise. The words for not-a-number are
/// deliberately rejected: a factor that is not a number would break the
/// range invariant the clamp maintains, so such a value falls back like any
/// other unparseable text.
pub open spec fn parse_scale_spec(s: Seq<u8>) -> Option<int> {
    let t = unsigned_part(s);
    if is_inf_word(t) {
        Some(
            if is_negative(s) {
                -(MILLI_MAGNITUDE_CAP as int)
            } else {
                MILLI_MAGNITUDE_CAP as int
            },
        )
    } else if decimal_ok(t) {
        Some(
            if is_negative(s) {
                -magnitude_milli(t)
            } else {
                magnitude_milli(t)
            },
        )
    } else {
        None
    }
}

/// The clamp that keeps every configured factor inside the valid range.
pub open spec fn clamp_milli_spec(v: int) -> int {
    if v < SCALE_MIN_MILLI {
        SCALE_MIN_MILLI as int
    } else if v > SCALE_MAX_MILLI {
        SCALE_MAX_MILLI as int
    } else {
        v
    }
}

/// Clamps a parsed factor into the valid range; values outside it are
/// pulled to the nearer bound, never rejected.
pub fn clamp_milli(v: i64) -> (r: u32)
    ensures
        r == clamp_milli_spec(v as int),
{
    if v < SCALE_MIN_MILLI as i64 {
        SCALE_MIN_MILLI
    } else if v > SCALE_MAX_MILLI as i64 {
        SCALE_MAX_MILLI
    } else {
        v as u32
    }
}

/// The clamp always lands inside the valid range, keeps in-range values
/// unchanged, and pulls out-of-range values to the nearer bound.
pub proof fn lemma_clamp_bounds(v: int)
    ensures
        SCALE_MIN_MILLI <= clamp_milli_spec(v) <= SCALE_MAX_MILLI,
        SCALE_MIN_MILLI <= v <= SCALE_MAX_MILLI ==> clamp_milli_spec(v) == v,
        v > SCALE_MAX_MILLI ==> clamp_milli_spec(v) == SCALE_MAX_MILLI,
        v < SCALE_MIN_MILLI ==> clamp_milli_spec(v) == SCALE_MIN_MILLI,
{
}

/// Characterises `dot_index`: it lies within the text, points at a decimal
/// point whenever one exists, and nothing before it is a decimal point.
proof fn lemma_dot_index_props(t: Seq<u8>)
    ensures
        0 <= dot_index(t) <= t.len(),
        dot_index(t) < t.len() ==> t[dot_index(t)] == DOT,
        forall|j: int| 0 <= j < dot_index(t) ==> t[j] != DOT,
    decreases t.len(),
{
    if t.len() == 0 {
    } else if t[0] == DOT {
    } else {
        lemma_dot_index_props(t.skip(1));
        assert forall|j: int| 0 <= j < dot_index(t) implies t[j] != DOT by {
            if j > 0 {
                assert(t.skip(1)[j - 1] == t[j]);
            }
        }
    }
}

/// A digit string read as a number is never negative.
proof fn lemma_digits_value_nonneg(d: Seq<u8>)
    requires
        all_digits(d),
    ensures
        digits_value(d) >= 0,
    decreases d.len(),
{
    if d.len() > 0 {
        assert(all_digits(d.drop_last()));
        lemma_digits_value_nonneg(d.drop_last());
    }
}

/// Characterises `exp_index`: it lies within the text, points at an
/// exponent marker whenever one exists, and nothing before it is a marker.
proof fn lemma_exp_index_props(t: Seq<u8>)
    ensures
        0 <= exp_index(t) <= t.len(),
        exp_index(t) < t.len() ==> is_exp_marker(t[exp_index(t)]),
        forall|j: int| 0 <= j < exp_index(t) ==> !is_exp_marker(t[j]),
    decreases t.len(),
{
    if t.len() == 0 {
    } else if is_exp_marker(t[0]) {
    } else {
        lemma_exp_index_props(t.skip(1));
        assert forall|j: int| 0 <= j < exp_index(t) implies !is_exp_marker(t[j]) by {
            if j > 0 {
                assert(t.skip(1)[j - 1] == t[j]);
            }
        }
    }
}

/// Appending one digit to a saturated accumulator keeps it equal to the
/// saturated value of the digit string.
proof fn lemma_sat_append(p: Seq<u8>, b: u8, cap: int, acc: int)
    requires
        all_digits(p),
        is_ascii_digit(b),
        cap >= 0,
        acc == capped_at(digits_value(p), cap),
    ensures
        capped_at(digits_value(p.push(b)), cap) == capped_at(acc * 10 + digit_value(b), cap),
    decreases p.len(),
{
    assert(p.push(b).drop_last() =~= p);
    assert(p.push(b).last() == b);
    lemma_digits_value_nonneg(p);
    assert(digits_value(p.push(b)) == digits_value(p) * 10 + digit_value(b));
    if digits_value(p) > cap {
        assert(digits_value(p) * 10 >= (cap + 1) * 10);
    }
}

/// Bounds of the integer-digit scan: the accumulator stays within its
/// strict bound, the dropped-digit count is never negative, and digits are
/// only dropped once the accumulator has saturated.
proof fn lemma_int_scan_props(d: Seq<u8>)
    requires
        all_digits(d),
    ensures
        0 <= int_scan(d).0 < MANTISSA_CAP,
        int_scan(d).1 >= 0,
        int_scan(d).1 > 0 ==> int_scan(d).0 >= SAT_LIMIT,
    decreases d.len(),
{
    if d.len() > 0 {
        assert(all_digits(d.drop_last()));
        lemma_int_scan_props(d.drop_last());
    }
}

/// Bounds of the fractional-digit scan: the accumulator stays within its
/// strict bound, the absorbed count never shrinks, and a scan that starts
/// saturated changes nothing.
proof fn lemma_frac_scan_props(st: (int, int), f: Seq<u8>)
    requires
        all_digits(f),
        0 <= st.0 < MANTISSA_CAP,
        st.1 >= 0,
    ensures
        0 <= frac_scan(st, f).0 < MANTISSA_CAP,
        frac_scan(st, f).1 >= st.1,
        st.0 >= SAT_LIMIT ==> frac_scan(st, f) == st,
        st.0 < SAT_LIMIT && f.len() > 0 ==> frac_scan(st, f).1 >= st.1 + 1,
    decreases f.len(),
{
    if f.len() > 0 {
        assert(all_digits(f.drop_last()));
        lemma_frac_scan_props(st, f.drop_last());
    }
}

/// Ten to any power is at least one.
proof fn lemma_pow10_pos(k: nat)
    ensures
        pow10(k) >= 1,
    decreases k,
{
    if k > 0 {
        lemma_pow10_pos((k - 1) as nat);
    }
}

/// Powers of ten grow with the exponent.
proof fn lemma_pow10_mono(a: nat, b: nat)
    requires
        a <= b,
    ensures
        pow10(a) <= pow10(b),
    decreases b,
{
    if a < b {
        lemma_pow10_mono(a, (b - 1) as nat);
        lemma_pow10_pos((b - 1) as nat);
    }
}

/// The concrete powers of ten the parser's arithmetic rests on.
proof fn lemma_pow10_values()
    ensures
        pow10(9) == 1000000000,
        pow10(10) == 10000000000,
        pow10(15) == 1000000000000000,
        pow10(16) == 10000000000000000,
{
    reveal_with_fuel(pow10, 17);
}

/// Computes ten to the `k`th power.
fn pow10_u64(k: u64) -> (r: u64)
    requires
        k <= 15,
    ensures
        r as int == pow10(k as nat),
{
    let mut r: u64 = 1;
    let mut j: u64 = 0;
    while j < k
        invariant
            j <= k <= 15,
            r as int == pow10(j as nat),
        decreases k - j,
    {
        proof {
            lemma_pow10_mono((j + 1) as nat, 15 as nat);
            lemma_pow10_values();
            assert(pow10((j + 1) as nat) == 10 * pow10(j as nat));
        }
        r = r * 10;
        j = j + 1;
    }
    r
}

/// Case-insensitive comparison of one byte against a lower-case letter.
fn ci_is(b: u8, lower: u8) -> (r: bool)
    requires
        97 <= lower <= 122,
    ensures
        r == ci_eq(b, lower),
{
    b == lower || b == lower - 32
}
/// Parses configuration text as a decimal scale factor, in thousandths.
/// The grammar is the one the configuration source uses for floating-point
/// text: an optional sign, then an infinity word in any case, or mantissa
/// digits with at most one decimal point and at least one digit, optionally
/// followed by a decimal exponent. Anything finer than a thousandth
/// truncates; mantissa digits beyond the accumulator's saturation threshold
/// are dropped without disturbing the value's scale, and the exponent and
/// the magnitude saturate at their stated caps, all far beyond the clamp.
/// The words for not-a-number are
/// deliberately rejected — a factor that is not a number would break the
/// range invariant the clamp maintains — so they fall back like any other
/// unparseable text.
pub fn parse_scale_milli(s: &[u8]) -> (r: Option<i64>)
    ensures
        (match parse_scale_spec(s@) {
            Some(v) => r is Some && r.unwrap() == v,
            None => r is None,
        }),
{
    let n = s.len();
    let mut start: usize = 0;
    let mut neg = false;
    if n > 0 && (s[0] == PLUS || s[0] == MINUS) {
        neg = s[0] == MINUS;
        start = 1;
    }
    let ghost t = unsigned_part(s@);
    proof {
        assert(neg == is_negative(s@));
        if has_sign(s@) {
            assert(t =~= s@.subrange(1, s@.len() as int));
        }
        assert(t =~= s@.skip(start as int));
        assert(forall|k: int| 0 <= k < t.len() ==> t[k] == s@[k + start]);
    }
    // The infinity words parse to the saturated magnitude.
    let rem = n - start;
    let inf_short = rem == 3 && ci_is(s[start], 105) && ci_is(s[start + 1], 110) && ci_is(
        s[start + 2],
        102,
    );
    let inf_long = rem == 8 && ci_is(s[start], 105) && ci_is(s[start + 1], 110) && ci_is(
        s[start + 2],
        102,
    ) && ci_is(s[start + 3], 105) && ci_is(s[start + 4], 110) && ci_is(s[start + 5], 105) && ci_is(
        s[start + 6],
        116,
    ) && ci_is(s[start + 7], 121);
    if inf_short || inf_long {
        proof {
            assert(is_inf_word(t));
        }
        if neg {
            return Some(-(MILLI_MAGNITUDE_CAP as i64));
        }
        return Some(MILLI_MAGNITUDE_CAP as i64);
    }
    proof {
        assert(!is_inf_word(t));
    }
    match parse_decimal_milli(s, start) {
        Some(mag) => {
            let mr = mag as i64;
            if neg {
                Some(-mr)
            } else {
                Some(mr)
            }
        },
        None => None,
    }
}

/// Relates a finished scan of unsigned text to its lexical split: where the
/// exponent begins, what the mantissa's integer and fractional digits are,
/// and that they are all digits.
proof fn lemma_mantissa_structure(t: Seq<u8>, q2: int, qdot: int, had_dot: bool)
    requires
        0 <= q2 <= t.len(),
        forall|j: int| 0 <= j < q2 ==> !is_exp_marker(t[j]),
        q2 < t.len() ==> is_exp_marker(t[q2]),
        had_dot ==> 0 <= qdot < q2 && t[qdot] == DOT,
        had_dot ==> forall|j: int| 0 <= j < qdot ==> is_ascii_digit(t[j]),
        had_dot ==> forall|j: int| qdot < j < q2 ==> is_ascii_digit(t[j]),
        !had_dot ==> forall|j: int| 0 <= j < q2 ==> is_ascii_digit(t[j]),
    ensures
        exp_index(t) == q2,
        mantissa_part(t).len() == q2,
        int_digits(mantissa_part(t)) == (if had_dot {
            t.subrange(0, qdot)
        } else {
            t.subrange(0, q2)
        }),
        frac_digits(mantissa_part(t)) == (if had_dot {
            t.subrange(qdot + 1, q2)
        } else {
            Seq::<u8>::empty()
        }),
        all_digits(int_digits(mantissa_part(t))),
        all_digits(frac_digits(mantissa_part(t))),
        int_digits(mantissa_part(t)).len() == (if had_dot {
            qdot
        } else {
            q2
        }),
        frac_digits(mantissa_part(t)).len() == (if had_dot {
            q2 - qdot - 1
        } else {
            0int
        }),
{
    lemma_exp_index_props(t);
    if exp_index(t) < q2 {
        assert(is_exp_marker(t[exp_index(t)]));
        assert(false);
    }
    if exp_index(t) > q2 {
        assert(q2 < t.len());
        assert(!is_exp_marker(t[q2]));
        assert(false);
    }
    let m = mantissa_part(t);
    assert(m.len() == q2);
    assert(forall|j: int| 0 <= j < q2 ==> m[j] == t[j]);
    lemma_dot_index_props(m);
    if had_dot {
        assert(m[qdot] == DOT);
        if dot_index(m) < qdot {
            assert(is_ascii_digit(m[dot_index(m)]));
            assert(false);
        }
        if dot_index(m) > qdot {
            assert(m[qdot] != DOT);
            assert(false);
        }
        assert(int_digits(m) =~= t.subrange(0, qdot));
        assert(frac_digits(m) =~= t.subrange(qdot + 1, q2));
        assert(all_digits(int_digits(m))) by {
            assert(forall|j: int| 0 <= j < qdot ==> int_digits(m)[j] == t[j]);
        }
        assert(all_digits(frac_digits(m))) by {
            assert(forall|j: int|
                0 <= j < q2 - qdot - 1 ==> frac_digits(m)[j] == t[j + qdot + 1]);
        }
    } else {
        if dot_index(m) < q2 {
            assert(m[dot_index(m)] == DOT);
            assert(is_ascii_digit(m[dot_index(m)]));
            assert(false);
        }
        assert(int_digits(m) =~= t.subrange(0, q2));
        assert(frac_digits(m) =~= Seq::<u8>::empty());
        assert(all_digits(int_digits(m))) by {
            assert(forall|j: int| 0 <= j < q2 ==> int_digits(m)[j] == t[j]);
        }
    }
}

/// Relates a finished scan of exponent text to its lexical split: the sign
/// and the digits after the marker.
proof fn lemma_exp_structure(t: Seq<u8>, q2: int, sign_len: int)
    requires
        0 <= q2 < t.len(),
        exp_index(t) == q2,
        0 <= sign_len <= 1,
        sign_len == 1 ==> q2 + 1 < t.len() && (t[q2 + 1] == PLUS || t[q2 + 1] == MINUS),
        sign_len == 0 ==> (q2 + 1 < t.len() ==> !(t[q2 + 1] == PLUS || t[q2 + 1] == MINUS)),
    ensures
        exp_part(t) == t.skip(q2 + 1),
        exp_digits(exp_part(t)) == t.skip(q2 + 1 + sign_len),
        exp_negative(exp_part(t)) == (q2 + 1 < t.len() && t[q2 + 1] == MINUS),
{
    let e = t.skip(q2 + 1);
    assert(e.len() == t.len() - q2 - 1);
    if e.len() > 0 {
        assert(e[0] == t[q2 + 1]);
    }
    if sign_len == 1 {
        assert(exp_digits(e) =~= t.skip(q2 + 2));
    } else {
        assert(exp_digits(e) == e);
    }
}

/// Parses the tail of configuration text from `start` on as an unsigned
/// decimal literal — mantissa digits with at most one decimal point and at
/// least one digit, optionally followed by a decimal exponent — yielding
/// its magnitude in thousandths.
#[verifier::rlimit(100)]
fn parse_decimal_milli(s: &[u8], start: usize) -> (r: Option<u64>)
    requires
        start <= s@.len(),
    ensures
        (r is Some) == decimal_ok(s@.skip(start as int)),
        r is Some ==> r.unwrap() as int == magnitude_milli(s@.skip(start as int)),
        r is Some ==> r.unwrap() <= MILLI_MAGNITUDE_CAP,
{
    let n = s.len();
    let mut i: usize = start;
    let ghost t = s@.skip(start as int);
    proof {
        assert(t.len() == s@.len() - start);
        assert(forall|k: int| 0 <= k < t.len() ==> t[k] == s@[k + start]);
    }
    // Integer digits of the mantissa.
    let mut mv: u64 = 0;
    let mut extra: u64 = 0;
    while i < n && s[i] != DOT && s[i] != EXP_LOWER && s[i] != EXP_UPPER
        invariant
            n == s@.len(),
            start <= i <= n,
            t == s@.skip(start as int),
            t.len() == s@.len() - start,
            forall|k: int| 0 <= k < t.len() ==> t[k] == s@[k + start],
            forall|j: int| 0 <= j < i - start ==> is_ascii_digit(t[j]),
            mv < MANTISSA_CAP,
            extra <= EXTRA_CAP,
            mv as int == int_scan(t.subrange(0, i - start)).0,
            extra as int == capped_at(int_scan(t.subrange(0, i - start)).1, EXTRA_CAP as int),
        decreases n - i,
    {
        let b = s[i];
        proof {
            assert(t[i - start] == s@[i as int]);
        }
        if b < ZERO || b > NINE {
            proof {
                let j0 = i - start;
                lemma_exp_index_props(t);
                assert(exp_index(t) > j0);
                let m = mantissa_part(t);
                assert(forall|j: int| 0 <= j <= j0 ==> m[j] == t[j]);
                lemma_dot_index_props(m);
                assert(dot_index(m) > j0);
                assert(int_digits(m)[j0] == t[j0]);
                assert(!all_digits(int_digits(m))) by {
                    assert(!is_ascii_digit(int_digits(m)[j0]));
                }
            }
            return None;
        }
        let d = (b - ZERO) as u64;
        proof {
            let p = t.subrange(0, i - start);
            let p2 = t.subrange(0, i - start + 1);
            assert(p2.drop_last() =~= p);
            assert(p2.last() == t[i - start]);
        }
        if mv < SAT_LIMIT {
            mv = mv * 10 + d;
        } else if extra < EXTRA_CAP {
            extra = extra + 1;
        }
        i = i + 1;
    }
    let int_digit_count = i - start;
    let ghost qdot = i - start;
    let mut frac_digits_seen: u64 = 0;
    let had_dot = i < n && s[i] == DOT;
    if had_dot {
        i = i + 1;
        // Fractional digits of the mantissa.
        while i < n && s[i] != EXP_LOWER && s[i] != EXP_UPPER
            invariant
                n == s@.len(),
                t == s@.skip(start as int),
                t.len() == s@.len() - start,
                forall|k: int| 0 <= k < t.len() ==> t[k] == s@[k + start],
                0 <= qdot,
                start + qdot < n,
                t[qdot] == DOT,
                forall|j: int| 0 <= j < qdot ==> is_ascii_digit(t[j]),
                start + qdot + 1 <= i <= n,
                forall|j: int| qdot < j < i - start ==> is_ascii_digit(t[j]),
                mv < MANTISSA_CAP,
                mv as int == frac_scan(
                    (int_scan(t.subrange(0, qdot)).0, 0int),
                    t.subrange(qdot + 1, i - start),
                ).0,
                frac_digits_seen <= FRAC_LEN_CAP,
                frac_digits_seen as int == capped_at(
                    frac_scan(
                        (int_scan(t.subrange(0, qdot)).0, 0int),
                        t.subrange(qdot + 1, i - start),
                    ).1,
                    FRAC_LEN_CAP as int,
                ),
            decreases n - i,
        {
            let b = s[i];
            proof {
                assert(t[i - start] == s@[i as int]);
            }
            if b < ZERO || b > NINE {
                proof {
                    let j0 = i - start;
                    lemma_exp_index_props(t);
                    assert(exp_index(t) > j0);
                    let m = mantissa_part(t);
                    assert(forall|j: int| 0 <= j <= j0 ==> m[j] == t[j]);
                    lemma_dot_index_props(m);
                    assert(dot_index(m) == qdot);
                    assert(frac_digits(m)[j0 - qdot - 1] == m[j0]);
                    assert(!all_digits(frac_digits(m))) by {
                        assert(!is_ascii_digit(frac_digits(m)[j0 - qdot - 1]));
                    }
                }
                return None;
            }
            let d = (b - ZERO) as u64;
            proof {
                let fpfx = t.subrange(qdot + 1, i - start);
                let fpfx2 = t.subrange(qdot + 1, i - start + 1);
                assert(fpfx2.drop_last() =~= fpfx);
                assert(fpfx2.last() == t[i - start]);
            }
            if mv < SAT_LIMIT {
                mv = mv * 10 + d;
                if frac_digits_seen < FRAC_LEN_CAP {
                    frac_digits_seen = frac_digits_seen + 1;
                }
            }
            i = i + 1;
        }
    }
    // The whole mantissa is scanned; the cursor rests at the exponent
    // marker or at the end.
    let ghost q2 = i - start;
    let ghost mp = mantissa_part(t);
    proof {
        if i < n {
            assert(t[q2] == s@[i as int]);
        }
        assert forall|j: int| 0 <= j < q2 implies !is_exp_marker(t[j]) by {
            if had_dot && j == qdot {
                assert(t[j] == DOT);
            }
        }
        lemma_mantissa_structure(t, q2, qdot, had_dot);
    }
    let ghost ints = int_scan(int_digits(mp));
    let ghost fr = frac_scan((ints.0, 0), frac_digits(mp));
    proof {
        lemma_int_scan_props(int_digits(mp));
        lemma_frac_scan_props((ints.0, 0int), frac_digits(mp));
        assert(mv as int == fr.0);
        assert(extra as int == capped_at(ints.1, EXTRA_CAP as int));
        assert(frac_digits_seen as int == capped_at(fr.1, FRAC_LEN_CAP as int));
    }
    if int_digit_count == 0 && frac_digits_seen == 0 {
        // Nothing but a possible point: no mantissa digits at all. An
        // existing fractional digit would have been absorbed and counted,
        // since with no integer digits the accumulator starts at zero.
        proof {
            assert(int_digits(mp).len() == 0);
            assert(frac_digits(mp).len() == 0);
            assert(!mantissa_ok(mp));
        }
        return None;
    }
    proof {
        assert(mantissa_ok(mp));
    }
    // The optional exponent.
    let mut ev: u64 = 0;
    let mut eneg = false;
    let had_marker = i < n;
    if had_marker {
        i = i + 1;
        let mut esign_len: usize = 0;
        if i < n && (s[i] == PLUS || s[i] == MINUS) {
            eneg = s[i] == MINUS;
            esign_len = 1;
            i = i + 1;
        }
        let ghost qd0 = q2 + 1 + esign_len;
        proof {
            lemma_exp_structure(t, q2, esign_len as int);
            assert(eneg == exp_negative(exp_part(t)));
            assert(i - start == qd0);
        }
        if i == n {
            // A marker with no digits after it.
            proof {
                assert(exp_digits(exp_part(t)).len() == 0);
                assert(!exp_ok(exp_part(t)));
            }
            return None;
        }
        while i < n
            invariant
                n == s@.len(),
                t == s@.skip(start as int),
                t.len() == s@.len() - start,
                forall|k: int| 0 <= k < t.len() ==> t[k] == s@[k + start],
                exp_index(t) < t.len(),
                exp_digits(exp_part(t)) == t.skip(qd0),
                0 <= qd0,
                start + qd0 <= i <= n,
                forall|j: int| qd0 <= j < i - start ==> is_ascii_digit(t[j]),
                ev <= EXP_CAP,
                ev == capped_at(digits_value(t.subrange(qd0, i - start)), EXP_CAP as int),
            decreases n - i,
        {
            let b = s[i];
            proof {
                assert(t[i - start] == s@[i as int]);
            }
            if b < ZERO || b > NINE {
                proof {
                    let x = i - start - qd0;
                    assert(exp_digits(exp_part(t))[x] == t[i - start]);
                    assert(!all_digits(exp_digits(exp_part(t)))) by {
                        assert(!is_ascii_digit(exp_digits(exp_part(t))[x]));
                    }
                    assert(!exp_ok(exp_part(t)));
                    assert(!decimal_ok(t));
                }
                return None;
            }
            let d = (b - ZERO) as u64;
            let cand = ev * 10 + d;
            let ev_next = if cand > EXP_CAP {
                EXP_CAP
            } else {
                cand
            };
            proof {
                let p = t.subrange(qd0, i - start);
                assert(t.subrange(qd0, i - start + 1) =~= p.push(t[i - start]));
                assert(all_digits(p));
                lemma_sat_append(p, b, EXP_CAP as int, ev as int);
            }
            ev = ev_next;
            i = i + 1;
        }
        proof {
            assert(t.subrange(qd0, t.len() as int) =~= t.skip(qd0));
            assert(ev == capped_at(digits_value(exp_digits(exp_part(t))), EXP_CAP as int));
            assert(exp_digits(exp_part(t)).len() >= 1);
            assert(exp_ok(exp_part(t)));
        }
    }
    proof {
        assert(decimal_ok(t));
        assert(exp_value_capped(t) == (if eneg {
            -(ev as int)
        } else {
            ev as int
        }));
    }
    let mag = scaled_magnitude(mv, frac_digits_seen, extra, eneg, ev, Ghost(fr.1), Ghost(ints.1));
    proof {
        assert(mag as int == magnitude_milli(t));
    }
    Some(mag)
}

/// Combines the scanned mantissa accumulator, the count of absorbed
/// fractional digits, the count of dropped integer digits and a saturated
/// exponent into the saturated magnitude in thousandths.
fn scaled_magnitude(
    mv: u64,
    fl: u64,
    ex: u64,
    eneg: bool,
    ev: u64,
    Ghost(flt): Ghost<int>,
    Ghost(ext): Ghost<int>,
) -> (mag: u64)
    requires
        mv <= MANTISSA_CAP,
        ev <= EXP_CAP,
        flt >= 0,
        fl as int == capped_at(flt, FRAC_LEN_CAP as int),
        ext >= 0,
        ex as int == capped_at(ext, EXTRA_CAP as int),
        ext > 0 ==> flt == 0 && mv >= 1,
    ensures
        mag as int == capped_at(
            shift10(
                mv as int,
                3 + (if eneg {
                    -(ev as int)
                } else {
                    ev as int
                }) + ext - flt,
            ),
            MILLI_MAGNITUDE_CAP as int,
        ),
{
    let e_signed: i64 = if eneg {
        -(ev as i64)
    } else {
        ev as i64
    };
    let k: i64 = 3 + e_signed + (ex as i64) - (fl as i64);
    let ghost kk = 3 + (if eneg {
        -(ev as int)
    } else {
        ev as int
    }) + ext - flt;
    let ghost md = mv as int;
    proof {
        if ext > EXTRA_CAP {
            assert(flt == 0 && fl == 0);
            assert(kk > 9 && (k as int) > 9);
        } else if flt > FRAC_LEN_CAP {
            assert(ext == 0 && ex == 0);
            assert(kk < -15 && (k as int) < -15);
        } else {
            assert(kk == k as int);
        }
    }
    if mv == 0 {
        proof {
            if kk < 0 {
                lemma_pow10_pos((-kk) as nat);
                lemma_basic_div(0, pow10((-kk) as nat));
            }
            assert(shift10(0, kk) == 0);
        }
        0
    } else if k < -15 {
        // The shift drowns even the largest mantissa: the value truncates
        // to zero thousandths.
        proof {
            assert(kk < -15);
            lemma_pow10_values();
            lemma_pow10_mono(16 as nat, (-kk) as nat);
            lemma_basic_div(md, pow10((-kk) as nat));
            assert(shift10(md, kk) == 0);
        }
        0
    } else if k < 0 {
        let p = pow10_u64((-k) as u64);
        proof {
            assert(kk == k as int);
            lemma_pow10_pos((-kk) as nat);
        }
        let q = mv / p;
        if q > MILLI_MAGNITUDE_CAP {
            MILLI_MAGNITUDE_CAP
        } else {
            q
        }
    } else if k > 9 {
        // The shift carries any non-zero mantissa past the magnitude cap.
        proof {
            assert(kk > 9);
            lemma_pow10_values();
            lemma_pow10_mono(10 as nat, kk as nat);
            lemma_mul_inequality(1, md, pow10(kk as nat));
            assert(shift10(md, kk) > MILLI_MAGNITUDE_CAP);
        }
        MILLI_MAGNITUDE_CAP
    } else {
        let p = pow10_u64(k as u64);
        proof {
            assert(kk == k as int);
            lemma_pow10_values();
            lemma_pow10_mono(kk as nat, 9 as nat);
            lemma_pow10_pos(kk as nat);
        }
        if mv > MILLI_MAGNITUDE_CAP {
            proof {
                lemma_mul_inequality(1, pow10(kk as nat), md);
                lemma_mul_is_commutative(pow10(kk as nat), md);
                assert(md * pow10(kk as nat) >= md);
            }
            MILLI_MAGNITUDE_CAP
        } else {
            proof {
                lemma_mul_inequality(mv as int, 1000000000, p as int);
                lemma_mul_inequality(p as int, 1000000000, 1000000000);
                assert((mv as int) * (p as int) <= 1000000000000000000);
            }
            let prod = mv * p;
            if prod > MILLI_MAGNITUDE_CAP {
                MILLI_MAGNITUDE_CAP
            } else {
                prod
            }
        }
    }
}

/// The active scale configuration: per-axis factors, the opt-in wheel
/// factor, and the debug flag. Computed once per process from the external
/// configuration source and read-only thereafter.
#[derive(Clone, Copy, Debug, PartialEq, Eq)]
pub struct ScaleCfg {
    /// Horizontal scale factor, in thousandths.
    pub x_milli: u32,
    /// Vertical scale factor, in thousandths.
    pub y_milli: u32,
    /// Wheel scale factor, in thousandths; `None` means high-resolution
    /// wheel values are never touched.
    pub wheel_milli: Option<u32>,
    /// Whether diagnostic output is enabled.
    pub debug: bool,
}

/// The view of an optional configuration value as optional bytes.
pub open spec fn opt_bytes_view(o: Option<&[u8]>) -> Option<Seq<u8>> {
    match o {
        Some(s) => Some(s@),
        None => None,
    }
}

/// Parsing lifted to an absent-or-present configuration value.
pub open spec fn opt_parse(o: Option<Seq<u8>>) -> Option<int> {
    match o {
        Some(s) => parse_scale_spec(s),
        None => None,
    }
}

/// The per-axis resolution order: the dedicated value if it parses, else
/// the shared fallback if it parses, else the neutral default — clamped
/// into the valid range in every case.
pub open spec fn axis_scale_spec(primary: Option<Seq<u8>>, shared: Option<Seq<u8>>) -> int {
    clamp_milli_spec(
        match opt_parse(primary) {
            Some(v) => v,
            None => match opt_parse(shared) {
                Some(v) => v,
                None => SCALE_DEFAULT_MILLI as int,
            },
        },
    )
}

/// The opt-in wheel factor: present and clamped exactly when the dedicated
/// value is present and parses; there is no fallback and no default.
pub open spec fn wheel_scale_spec(wheel: Option<Seq<u8>>) -> Option<int> {
    match opt_parse(wheel) {
        Some(v) => Some(clamp_milli_spec(v)),
        None => None,
    }
}

/// The debug flag: set by any present value other than the literal "0".
pub open spec fn debug_flag_spec(dbg: Option<Seq<u8>>) -> bool {
    match dbg {
        Some(s) => s != seq![ZERO],
        None => false,
    }
}

/// The configuration that a given set of external values resolves to.
pub open spec fn resolve_cfg_spec(
    x: Option<Seq<u8>>,
    y: Option<Seq<u8>>,
    shared: Option<Seq<u8>>,
    wheel: Option<Seq<u8>>,
    dbg: Option<Seq<u8>>,
) -> ScaleCfg {
    ScaleCfg {
        x_milli: axis_scale_spec(x, shared) as u32,
        y_milli: axis_scale_spec(y, shared) as u32,
        wheel_milli: match wheel_scale_spec(wheel) {
            Some(v) => Some(v as u32),
            None => None,
        },
        debug: debug_flag_spec(dbg),
    }
}

impl ScaleCfg {
    /// Every factor a well-formed configuration carries lies inside the
    /// valid range.
    pub open spec fn wf(self) -> bool {
        &&& SCALE_MIN_MILLI <= self.x_milli <= SCALE_MAX_MILLI
        &&& SCALE_MIN_MILLI <= self.y_milli <= SCALE_MAX_MILLI
        &&& (self.wheel_milli matches Some(w) ==> SCALE_MIN_MILLI <= w <= SCALE_MAX_MILLI)
    }

    /// Computes the active configuration from the five external values:
    /// each axis takes its dedicated value, else the shared value, else the
    /// neutral default, all clamped; the wheel factor is opt-in only; the
    /// debug flag is set by any present value other than "0".
    pub fn resolve(
        x_env: Option<&[u8]>,
        y_env: Option<&[u8]>,
        shared_env: Option<&[u8]>,
        wheel_env: Option<&[u8]>,
        debug_env: Option<&[u8]>,
    ) -> (cfg: ScaleCfg)
        ensures
            cfg == resolve_cfg_spec(
                opt_bytes_view(x_env),
                opt_bytes_view(y_env),
                opt_bytes_view(shared_env),
                opt_bytes_view(wheel_env),
                opt_bytes_view(debug_env),
            ),
            cfg.wf(),
    {
        let x_milli = axis_scale(x_env, shared_env);
        let y_milli = axis_scale(y_env, shared_env);
        let wheel_milli = match parse_opt(wheel_env) {
            Some(v) => Some(clamp_milli(v)),
            None => None,
        };
        let debug = match debug_env {
            Some(s) => {
                let is_zero_literal = s.len() == 1 && s[0] == ZERO;
                proof {
                    if is_zero_literal {
                        assert(s@ =~= seq![ZERO]);
                    } else if s@ == seq![ZERO] {
                        assert(s@.len() == 1 && s@[0] == ZERO);
                    }
                }
                !is_zero_literal
            },
            None => false,
        };
        proof {
            lemma_clamp_bounds(SCALE_DEFAULT_MILLI as int);
        }
        ScaleCfg { x_milli, y_milli, wheel_milli, debug }
    }
}

/// Parsing lifted to an absent-or-present configuration value.
fn parse_opt(o: Option<&[u8]>) -> (r: Option<i64>)
    ensures
        (match opt_parse(opt_bytes_view(o)) {
            Some(v) => r is Some && r.unwrap() == v,
            None => r is None,
        }),
{
    match o {
        Some(s) => parse_scale_milli(s),
        None => None,
    }
}

/// Resolves one axis: the dedicated value if it parses, else the shared
/// fallback if it parses, else the neutral default, clamped.
fn axis_scale(primary: Option<&[u8]>, shared: Option<&[u8]>) -> (m: u32)
    ensures
        m == axis_scale_spec(opt_bytes_view(primary), opt_bytes_view(shared)),
{
    match parse_opt(primary) {
        Some(v) => clamp_milli(v),
        None => match parse_opt(shared) {
            Some(v) => clamp_milli(v),
            None => clamp_milli(SCALE_DEFAULT_MILLI as i64),
        },
    }
}

/// Every configuration the resolution produces is well formed: all its
/// factors lie inside the valid range, whatever the external values were.
pub proof fn lemma_resolved_cfg_wf(
    x: Option<Seq<u8>>,
    y: Option<Seq<u8>>,
    shared: Option<Seq<u8>>,
    wheel: Option<Seq<u8>>,
    dbg: Option<Seq<u8>>,
)
    ensures
        resolve_cfg_spec(x, y, shared, wheel, dbg).wf(),
{
    lemma_clamp_bounds(
        match opt_parse(x) {
            Some(v) => v,
            None => match opt_parse(shared) {
                Some(v) => v,
                None => SCALE_DEFAULT_MILLI as int,
            },
        },
    );
    lemma_clamp_bounds(
        match opt_parse(y) {
            Some(v) => v,
            None => match opt_parse(shared) {
                Some(v) => v,
                None => SCALE_DEFAULT_MILLI as int,
            },
        },
    );
    if opt_parse(wheel) is Some {
        lemma_clamp_bounds(opt_parse(wheel).unwrap());
    }
}

/// With no per-axis values configured, the shared fallback governs both
/// axes alike: horizontal and vertical resolve to one and the same factor.
pub proof fn lemma_shared_scale_applies_to_both_axes(
    shared: Option<Seq<u8>>,
    wheel: Option<Seq<u8>>,
    dbg: Option<Seq<u8>>,
)
    ensures
        resolve_cfg_spec(None, None, shared, wheel, dbg).x_milli == resolve_cfg_spec(
            None,
            None,
            shared,
            wheel,
            dbg,
        ).y_milli,
        resolve_cfg_spec(None, None, shared, wheel, dbg).x_milli == axis_scale_spec(None, shared),
{
}

/// A dedicated per-axis value that parses takes precedence over the shared
/// fallback on its own axis, and leaves the other axis to the fallback.
pub proof fn lemma_axis_value_takes_precedence(
    x: Seq<u8>,
    shared: Seq<u8>,
    wheel: Option<Seq<u8>>,
    dbg: Option<Seq<u8>>,
)
    requires
        parse_scale_spec(x) is Some,
    ensures
        resolve_cfg_spec(Some(x), None, Some(shared), wheel, dbg).x_milli == clamp_milli_spec(
            parse_scale_spec(x).unwrap(),
        ),
        resolve_cfg_spec(Some(x), None, Some(shared), wheel, dbg).y_milli == axis_scale_spec(
            None,
            Some(shared),
        ),
{
    lemma_clamp_bounds(parse_scale_spec(x).unwrap());
}

} // verus!
