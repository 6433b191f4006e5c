//! The size normalizer: turns a human-readable size such as "1.2 GiB"
//! into a single comparable integer. The text is split on spaces into a
//! decimal magnitude and an optional unit token; the magnitude is scaled
//! by 100 (keeping two decimal digits of precision, rounded half away
//! from zero) and multiplied by the unit's power-of-two byte count. A
//! magnitude that does not parse counts as 0; an unrecognized unit maps
//! to multiplier 1. The result saturates at the `i64` range; it is a
//! ranking key, never an exact byte count.
//!
//! The magnitude grammar follows a float parse: an optional sign,
//! digits with at most one point and at least one digit, then an
//! optional exponent part (`e` or `E`, an optional sign, digits) that
//! moves the decimal point; an infinity word in any letter case
//! saturates by sign. "nan" counts as unparsable and normalizes to 0,
//! exactly as its integer cast would.

use vstd::prelude::*;

use crate::text::{
    all_digits, digit_val, digits_val, int_body, int_sign, int_text_val, is_digit, is_int_text,
    lemma_digits_val_nonneg_of, lower_seq, str_eq, to_lowercase_ascii,
};
use crate::types::Torrent;

verus! {

/// `x` clamped to the `i64` range.
pub open spec fn clamp_i64(x: int) -> int {
    if x > i64::MAX {
        i64::MAX as int
    } else if x < i64::MIN {
        i64::MIN as int
    } else {
        x
    }
}

/// Index of the first occurrence of `c` in `s`, or `s.len()` if absent.
pub open spec fn first_index_of(s: Seq<char>, c: char) -> int
    decreases s.len(),
{
    if s.len() == 0 {
        0
    } else if s[0] == c {
        0
    } else {
        1 + first_index_of(s.drop_first(), c)
    }
}

pub proof fn lemma_first_index_of(s: Seq<char>, c: char)
    ensures
        0 <= first_index_of(s, c) <= s.len(),
        first_index_of(s, c) < s.len() ==> s[first_index_of(s, c)] == c,
        forall|j: int| 0 <= j < first_index_of(s, c) ==> s[j] != c,
    decreases s.len(),
{
    if s.len() > 0 && s[0] != c {
        lemma_first_index_of(s.drop_first(), c);
        assert forall|j: int| 0 <= j < first_index_of(s, c) implies s[j] != c by {
            if j > 0 {
                assert(s.drop_first()[j - 1] != c);
            }
        }
    }
}

/// Index of the first occurrence of `c` in `s`, or the length if absent.
pub fn find_char(s: &str, c: char) -> (r: usize)
    ensures
        r as int == first_index_of(s@, c),
        r <= s@.len(),
{
    let n: usize = s.unicode_len();
    let mut i: usize = 0;
    while i < n && s.get_char(i) != c
        invariant
            n == s@.len(),
            i <= n,
            forall|j: int| 0 <= j < i ==> s@[j] != c,
        decreases n - i,
    {
        i = i + 1;
    }
    proof {
        lemma_first_index_of(s@, c);
        let fs = first_index_of(s@, c);
        if fs < i {
            assert(s@[fs] == c);
            assert(false);
        }
        if fs > i {
            assert(i < s@.len());
            assert(s@[i as int] == c);
            assert(false);
        }
    }
    i
}

/// Sign carried by a magnitude text.
pub open spec fn mag_sign(m: Seq<char>) -> int {
    if m.len() > 0 && m[0] == '-' {
        -1
    } else {
        1
    }
}

/// The magnitude text behind its optional sign.
pub open spec fn mag_body(m: Seq<char>) -> Seq<char> {
    if m.len() > 0 && (m[0] == '-' || m[0] == '+') {
        m.drop_first()
    } else {
        m
    }
}

/// Digits before the decimal point.
pub open spec fn int_part(b: Seq<char>) -> Seq<char> {
    b.subrange(0, first_index_of(b, '.'))
}

/// Digits after the decimal point, empty when there is no point.
pub open spec fn frac_part(b: Seq<char>) -> Seq<char> {
    if first_index_of(b, '.') < b.len() {
        b.subrange(first_index_of(b, '.') + 1, b.len() as int)
    } else {
        Seq::empty()
    }
}

/// The `i`-th fractional digit, or 0 past the end.
pub open spec fn frac_digit(f: Seq<char>, i: int) -> int {
    if i < f.len() {
        digit_val(f[i])
    } else {
        0
    }
}

/// Rounding carry from the third fractional digit: half rounds away
/// from zero.
pub open spec fn round_carry(f: Seq<char>) -> int {
    if f.len() >= 3 && digit_val(f[2]) >= 5 {
        1
    } else {
        0
    }
}

/// Powers of ten.
pub open spec fn pow10(n: int) -> int
    decreases n,
{
    if n <= 0 {
        1
    } else {
        10 * pow10(n - 1)
    }
}

proof fn lemma_pow10_pos(n: int)
    ensures
        pow10(n) >= 1,
    decreases n,
{
    if n > 0 {
        lemma_pow10_pos(n - 1);
    }
}

proof fn lemma_pow10_mono(a: int, b: int)
    requires
        a <= b,
    ensures
        pow10(a) <= pow10(b),
    decreases b - a,
{
    if a < b {
        lemma_pow10_mono(a, b - 1);
        lemma_pow10_pos(b - 1);
    }
}

proof fn lemma_pow10_18()
    ensures
        pow10(18) == 1_000_000_000_000_000_000,
{
    reveal_with_fuel(pow10, 20);
}

proof fn lemma_pow10_19()
    ensures
        pow10(19) == 10_000_000_000_000_000_000,
{
    reveal_with_fuel(pow10, 21);
}

/// Splitting a digit string splits its value by place value.
proof fn lemma_digits_split(a: Seq<char>, b: Seq<char>)
    ensures
        digits_val(a + b) == digits_val(a) * pow10(b.len() as int) + digits_val(b),
    decreases b.len(),
{
    if b.len() == 0 {
        assert(a + b =~= a);
    } else {
        lemma_digits_split(a, b.drop_last());
        assert((a + b).drop_last() =~= a + b.drop_last());
        assert((a + b).last() == b.last());
        assert(digits_val(a) * pow10(b.len() - 1) * 10 == digits_val(a) * pow10(
            b.len() as int,
        )) by (nonlinear_arith)
            requires
                pow10(b.len() as int) == 10 * pow10(b.len() - 1),
        ;
    }
}

/// A digit string's value is zero exactly when every digit is zero.
proof fn lemma_digits_zero_iff(s: Seq<char>)
    requires
        all_digits(s),
    ensures
        (digits_val(s) == 0) <==> (forall|i: int| 0 <= i < s.len() ==> s[i] == '0'),
    decreases s.len(),
{
    if s.len() > 0 {
        lemma_digits_zero_iff(s.drop_last());
        lemma_digits_val_nonneg_of(s.drop_last());
        assert(is_digit(s[s.len() - 1]));
        if digits_val(s) == 0 {
            assert(digits_val(s.drop_last()) == 0 && digit_val(s.last()) == 0);
            assert forall|i: int| 0 <= i < s.len() implies s[i] == '0' by {
                if i < s.len() - 1 {
                    assert(s.drop_last()[i] == '0');
                }
            }
        }
        if forall|i: int| 0 <= i < s.len() ==> s[i] == '0' {
            assert forall|i: int| 0 <= i < s.drop_last().len() implies s.drop_last()[i] == '0' by {
                assert(s.drop_last()[i] == s[i]);
            }
            assert(s.last() == '0');
        }
    }
}

/// A run of zero digits.
pub open spec fn zero_digits(n: int) -> Seq<char> {
    Seq::new(
        if n >= 0 {
            n as nat
        } else {
            0
        },
        |i: int| '0',
    )
}

proof fn lemma_zero_digits_facts(n: int)
    ensures
        all_digits(zero_digits(n)),
        digits_val(zero_digits(n)) == 0,
    decreases n,
{
    assert forall|i: int| 0 <= i < zero_digits(n).len() implies is_digit(
        #[trigger] zero_digits(n)[i],
    ) by {
        assert(zero_digits(n)[i] == '0');
    }
    if n > 0 {
        lemma_zero_digits_facts(n - 1);
        assert(zero_digits(n).drop_last() =~= zero_digits(n - 1));
        assert(zero_digits(n).last() == '0');
    }
}

/// Index of the exponent marker in a magnitude body, or its length.
pub open spec fn exp_marker(b: Seq<char>) -> int {
    if first_index_of(b, 'e') <= first_index_of(b, 'E') {
        first_index_of(b, 'e')
    } else {
        first_index_of(b, 'E')
    }
}

proof fn lemma_exp_marker(b: Seq<char>)
    ensures
        0 <= exp_marker(b) <= b.len(),
        exp_marker(b) < b.len() ==> b[exp_marker(b)] == 'e' || b[exp_marker(b)] == 'E',
        forall|j: int| 0 <= j < exp_marker(b) ==> b[j] != 'e' && b[j] != 'E',
{
    lemma_first_index_of(b, 'e');
    lemma_first_index_of(b, 'E');
}

/// The digits-and-point part before any exponent marker.
pub open spec fn mantissa(b: Seq<char>) -> Seq<char> {
    b.subrange(0, exp_marker(b))
}

/// The body carries an exponent part.
pub open spec fn has_exp(b: Seq<char>) -> bool {
    exp_marker(b) < b.len()
}

/// The exponent text behind the marker.
pub open spec fn exp_text(b: Seq<char>) -> Seq<char> {
    b.subrange(exp_marker(b) + 1, b.len() as int)
}

/// The exponent the body scales by: its signed value, 0 when absent.
pub open spec fn exp_val(b: Seq<char>) -> int {
    if has_exp(b) {
        int_text_val(exp_text(b))
    } else {
        0
    }
}

/// The magnitude text is a decimal number: an optional sign, digits
/// with at most one point and at least one digit, then an optional
/// exponent part — `e` or `E`, an optional sign, and digits.
pub open spec fn valid_mag(m: Seq<char>) -> bool {
    let b = mag_body(m);
    let mt = mantissa(b);
    int_part(mt).len() + frac_part(mt).len() > 0 && all_digits(int_part(mt)) && all_digits(
        frac_part(mt),
    ) && (has_exp(b) ==> is_int_text(exp_text(b)))
}

/// Digits before the point once it has moved `e` places right.
pub open spec fn shifted_int_digits(ip: Seq<char>, fp: Seq<char>, e: int) -> Seq<char> {
    if e >= 0 {
        if e <= fp.len() {
            ip + fp.subrange(0, e)
        } else {
            ip + fp + zero_digits(e - fp.len())
        }
    } else {
        if -e <= ip.len() {
            ip.subrange(0, ip.len() + e)
        } else {
            Seq::empty()
        }
    }
}

/// Digits after the point once it has moved `e` places right.
pub open spec fn shifted_frac_digits(ip: Seq<char>, fp: Seq<char>, e: int) -> Seq<char> {
    if e >= 0 {
        if e <= fp.len() {
            fp.subrange(e, fp.len() as int)
        } else {
            Seq::empty()
        }
    } else {
        if -e <= ip.len() {
            ip.subrange(ip.len() + e, ip.len() as int) + fp
        } else {
            zero_digits(-e - ip.len()) + ip + fp
        }
    }
}

/// A split decimal scaled by 100 and rounded half away from zero: the
/// integer digits times 100, two fractional digits, and a carry from
/// the third.
pub open spec fn scaled100(ipd: Seq<char>, fpd: Seq<char>) -> int {
    digits_val(ipd) * 100 + frac_digit(fpd, 0) * 10 + frac_digit(fpd, 1) + round_carry(fpd)
}

/// The infinity words a float parse accepts, compared without case.
pub open spec fn is_inf_text(b: Seq<char>) -> bool {
    lower_seq(b) == "inf"@ || lower_seq(b) == "infinity"@
}

/// The signed magnitude times 100: the mantissa's point moved by the
/// exponent, scaled by 100 and rounded half away from zero. An
/// infinity saturates just past the `i64` range; a text that is not a
/// number counts as 0.
pub open spec fn mag100(m: Seq<char>) -> int {
    let b = mag_body(m);
    if is_inf_text(b) {
        mag_sign(m) * ((i64::MAX as int) + 1)
    } else if valid_mag(m) {
        let mt = mantissa(b);
        let e = exp_val(b);
        mag_sign(m) * scaled100(
            shifted_int_digits(int_part(mt), frac_part(mt), e),
            shifted_frac_digits(int_part(mt), frac_part(mt), e),
        )
    } else {
        0
    }
}

/// All-zero mantissa digits scale to zero under any shift.
proof fn lemma_shift_zero(ip: Seq<char>, fp: Seq<char>, e: int)
    requires
        all_digits(ip),
        all_digits(fp),
        forall|i: int| 0 <= i < ip.len() ==> ip[i] == '0',
        forall|i: int| 0 <= i < fp.len() ==> fp[i] == '0',
    ensures
        scaled100(shifted_int_digits(ip, fp, e), shifted_frac_digits(ip, fp, e)) == 0,
{
    let ipd = shifted_int_digits(ip, fp, e);
    let fpd = shifted_frac_digits(ip, fp, e);
    lemma_zero_digits_facts(e - fp.len());
    lemma_zero_digits_facts(-e - ip.len());
    assert forall|i: int| 0 <= i < ipd.len() implies #[trigger] ipd[i] == '0' && is_digit(
        ipd[i],
    ) by {}
    assert forall|i: int| 0 <= i < fpd.len() implies #[trigger] fpd[i] == '0' by {}
    lemma_digits_zero_iff(ipd);
    assert(digits_val(ipd) == 0);
    assert(frac_digit(fpd, 0) == 0 && frac_digit(fpd, 1) == 0 && round_carry(fpd) == 0);
}

/// A large positive exponent pushes any nonzero mantissa past range.
proof fn lemma_shift_sat(ip: Seq<char>, fp: Seq<char>, e: int)
    requires
        all_digits(ip),
        all_digits(fp),
        digits_val(ip) > 0 || digits_val(fp) > 0,
        e >= fp.len() + 19,
    ensures
        scaled100(shifted_int_digits(ip, fp, e), shifted_frac_digits(ip, fp, e)) > i64::MAX,
{
    let ipd = shifted_int_digits(ip, fp, e);
    let fpd = shifted_frac_digits(ip, fp, e);
    assert(ipd =~= (ip + fp) + zero_digits(e - fp.len()));
    lemma_zero_digits_facts(e - fp.len());
    lemma_digits_split(ip + fp, zero_digits(e - fp.len()));
    lemma_digits_split(ip, fp);
    lemma_pow10_pos(fp.len() as int);
    lemma_digits_val_nonneg_of(ip);
    lemma_digits_val_nonneg_of(fp);
    assert(digits_val(ip + fp) >= 1) by (nonlinear_arith)
        requires
            digits_val(ip + fp) == digits_val(ip) * pow10(fp.len() as int) + digits_val(fp),
            digits_val(ip) > 0 || digits_val(fp) > 0,
            digits_val(ip) >= 0,
            digits_val(fp) >= 0,
            pow10(fp.len() as int) >= 1,
    ;
    lemma_pow10_mono(19, e - fp.len());
    lemma_pow10_19();
    assert(digits_val(ipd) >= pow10(e - fp.len())) by (nonlinear_arith)
        requires
            digits_val(ipd) == digits_val(ip + fp) * pow10(e - fp.len()) + 0,
            digits_val(ip + fp) >= 1,
            pow10(e - fp.len()) >= 1,
    ;
    assert(digits_val(ipd) * 100 > i64::MAX) by (nonlinear_arith)
        requires
            digits_val(ipd) >= 10_000_000_000_000_000_000,
    ;
    assert(fpd =~= Seq::<char>::empty());
    lemma_digits_val_nonneg_of(ipd);
}

/// A point moved left past all digits and two guard places reads zero.
proof fn lemma_shift_tiny(ip: Seq<char>, fp: Seq<char>, e: int)
    requires
        all_digits(ip),
        all_digits(fp),
        e <= -3 - ip.len(),
    ensures
        scaled100(shifted_int_digits(ip, fp, e), shifted_frac_digits(ip, fp, e)) == 0,
{
    let ipd = shifted_int_digits(ip, fp, e);
    let fpd = shifted_frac_digits(ip, fp, e);
    assert(ipd =~= Seq::<char>::empty());
    let zl = -e - ip.len();
    assert(zl >= 3);
    assert(fpd == zero_digits(zl) + ip + fp);
    assert(fpd[0] == '0' && fpd[1] == '0' && fpd[2] == '0');
    assert(frac_digit(fpd, 0) == 0 && frac_digit(fpd, 1) == 0 && round_carry(fpd) == 0);
}

/// Byte multiplier of a unit token; "Bytes" and anything unrecognized
/// both map to 1.
pub open spec fn unit_mult(u: Seq<char>) -> int {
    if u == "TiB"@ {
        0x100_0000_0000
    } else if u == "GiB"@ {
        0x4000_0000
    } else if u == "MiB"@ {
        0x10_0000
    } else if u == "KiB"@ {
        0x400
    } else {
        1
    }
}

/// The text before the first space: the magnitude token.
pub open spec fn first_token(s: Seq<char>) -> Seq<char> {
    s.subrange(0, first_index_of(s, ' '))
}

/// A unit token is present exactly when the text contains a space.
pub open spec fn has_unit(s: Seq<char>) -> bool {
    first_index_of(s, ' ') < s.len()
}

/// The token between the first space and the next: the unit.
pub open spec fn unit_token(s: Seq<char>) -> Seq<char> {
    let rest = s.subrange(first_index_of(s, ' ') + 1, s.len() as int);
    rest.subrange(0, first_index_of(rest, ' '))
}

/// The ranking key a size text normalizes to.
pub open spec fn size_key(s: Seq<char>) -> int {
    if has_unit(s) {
        clamp_i64(mag100(first_token(s)) * unit_mult(unit_token(s)))
    } else {
        clamp_i64(mag100(first_token(s)))
    }
}

/// Clamping before a positive multiplication clamps to the same value.
proof fn lemma_clamp_mul(x: int, m: int)
    requires
        1 <= m,
    ensures
        clamp_i64(clamp_i64(x) * m) == clamp_i64(x * m),
{
    if x > i64::MAX {
        assert(x * m >= x && i64::MAX * m >= i64::MAX) by (nonlinear_arith)
            requires
                m >= 1,
                x > i64::MAX,
        ;
    } else if x < i64::MIN {
        assert(x * m <= x && i64::MIN * m <= i64::MIN) by (nonlinear_arith)
            requires
                m >= 1,
                x < i64::MIN,
        ;
    }
}

/// Saturating product of a key and a positive unit multiplier.
fn mul_clamp(a: i64, m: i64) -> (r: i64)
    requires
        1 <= m,
    ensures
        r as int == clamp_i64((a as int) * (m as int)),
{
    match a.checked_mul(m) {
        Some(v) => v,
        None => {
            if a < 0 {
                proof {
                    assert((a as int) * (m as int) <= a as int) by (nonlinear_arith)
                        requires
                            m >= 1,
                            a < 0,
                    ;
                }
                i64::MIN
            } else {
                proof {
                    assert((a as int) * (m as int) >= a as int && (a as int) * (m as int) >= 0)
                        by (nonlinear_arith)
                        requires
                            m >= 1,
                            a >= 0,
                    ;
                }
                i64::MAX
            }
        },
    }
}

/// Saturation threshold: any integer part at or above this makes the
/// scaled magnitude exceed the `i64` range.
const SAT_INT: i64 = 92233720368547759;

/// Digit-string value capped at `SAT_INT`.
spec fn capped_digits_val(s: Seq<char>) -> int {
    if digits_val(s) <= SAT_INT as int {
        digits_val(s)
    } else {
        SAT_INT as int
    }
}

/// Reads the digits of `s` between `from` and `to`, capping at `SAT_INT`.
fn digits_val_capped(s: &str, from: usize, to: usize) -> (r: i64)
    requires
        from <= to <= s@.len() <= usize::MAX,
        all_digits(s@.subrange(from as int, to as int)),
    ensures
        r as int == capped_digits_val(s@.subrange(from as int, to as int)),
        0 <= r <= SAT_INT,
{
    let ghost digits = s@.subrange(from as int, to as int);
    let mut acc: i64 = 0;
    let mut k: usize = from;
    proof {
        assert(digits.subrange(0, 0) =~= Seq::<char>::empty());
    }
    while k < to
        invariant
            from <= k <= to <= s@.len() <= usize::MAX,
            digits == s@.subrange(from as int, to as int),
            all_digits(digits),
            0 <= acc <= SAT_INT,
            acc as int == capped_digits_val(digits.subrange(0, k - from)),
        decreases to - k,
    {
        let c = s.get_char(k);
        proof {
            assert(digits[k - from] == s@[k as int]);
            assert(is_digit(digits[k - from]));
        }
        let d: i64 = ((c as u32) - 48) as i64;
        let mut next: i64 = acc * 10 + d;
        proof {
            assert(digits.subrange(0, k - from + 1).drop_last() =~= digits.subrange(0, k - from));
            lemma_digits_val_nonneg_of(digits.subrange(0, k - from));
        }
        if next > SAT_INT {
            next = SAT_INT;
        }
        acc = next;
        k = k + 1;
    }
    proof {
        assert(digits.subrange(0, to - from) =~= digits);
    }
    acc
}

/// Exponent cap: any magnitude at or past this is far beyond every
/// shift the mantissa digits could compensate.
const EXP_CAP: u128 = 1000000000000000000000000000000;

/// Parses an exponent text: an optional sign, then digits; the
/// magnitude is capped at `EXP_CAP`.
#[verifier::loop_isolation(false)]
fn parse_exp_capped(s: &str) -> (r: Option<(bool, u128)>)
    ensures
        (r is Some) == is_int_text(s@),
        r matches Some(p) ==> ({
            &&& p.0 == (int_sign(s@) == -1)
            &&& (digits_val(int_body(s@)) <= EXP_CAP ==> p.1 as int == digits_val(int_body(s@)))
            &&& (digits_val(int_body(s@)) > EXP_CAP ==> p.1 == EXP_CAP)
        }),
{
    let n: usize = s.unicode_len();
    let mut neg = false;
    let mut start: usize = 0;
    if n > 0 {
        let c0 = s.get_char(0);
        if c0 == '-' {
            neg = true;
            start = 1;
        } else if c0 == '+' {
            start = 1;
        }
    }
    if start == n {
        return None;
    }
    let ghost body = int_body(s@);
    proof {
        assert(body =~= s@.subrange(start as int, n as int));
    }
    let mut acc: u128 = 0;
    let mut k: usize = start;
    while k < n
        invariant
            n == s@.len(),
            start <= k <= n,
            start < n,
            body == int_body(s@),
            body =~= s@.subrange(start as int, n as int),
            all_digits(body.subrange(0, k - start)),
            digits_val(body.subrange(0, k - start)) <= EXP_CAP ==> acc as int == digits_val(
                body.subrange(0, k - start),
            ),
            digits_val(body.subrange(0, k - start)) > EXP_CAP ==> acc == EXP_CAP,
            acc <= EXP_CAP,
        decreases n - k,
    {
        let c = s.get_char(k);
        if !('0' <= c && c <= '9') {
            proof {
                assert(!is_digit(body[k - start]));
            }
            return None;
        }
        let d: u128 = ((c as u32) - 48) as u128;
        proof {
            assert(body.subrange(0, k - start + 1).drop_last() =~= body.subrange(0, k - start));
            lemma_digits_val_nonneg_of(body.subrange(0, k - start));
        }
        let mut next: u128 = if acc >= EXP_CAP {
            EXP_CAP
        } else {
            acc * 10 + d
        };
        if next > EXP_CAP {
            next = EXP_CAP;
        }
        acc = next;
        k = k + 1;
    }
    proof {
        assert(body.subrange(0, n - start) =~= body);
    }
    Some((neg, acc))
}

/// Ten to a small power.
fn pow10_small(p: usize) -> (r: i64)
    requires
        p <= 18,
    ensures
        r as int == pow10(p as int),
        1 <= r <= 1_000_000_000_000_000_000,
{
    proof {
        lemma_pow10_18();
        lemma_pow10_mono(0, 18);
    }
    let mut r: i64 = 1;
    let mut i: usize = 0;
    while i < p
        invariant
            i <= p <= 18,
            r as int == pow10(i as int),
            1 <= r,
        decreases p - i,
    {
        proof {
            lemma_pow10_mono(i as int + 1, 18);
            lemma_pow10_18();
            assert(pow10(i as int + 1) == 10 * pow10(i as int));
        }
        r = r * 10;
        i = i + 1;
    }
    proof {
        lemma_pow10_mono(p as int, 18);
        lemma_pow10_18();
    }
    r
}

/// Folds capped integer digits and three fractional digits into the
/// clamped signed key.
fn assemble_key(
    neg: bool,
    w: i64,
    f1: i64,
    f2: i64,
    carry: i64,
    Ghost(ipd): Ghost<Seq<char>>,
    Ghost(fpd): Ghost<Seq<char>>,
) -> (r: i64)
    requires
        all_digits(ipd),
        w as int == capped_digits_val(ipd),
        f1 == frac_digit(fpd, 0),
        f2 == frac_digit(fpd, 1),
        carry == round_carry(fpd),
        0 <= f1 <= 9,
        0 <= f2 <= 9,
        0 <= carry <= 1,
    ensures
        neg ==> r as int == clamp_i64(-scaled100(ipd, fpd)),
        !neg ==> r as int == clamp_i64(scaled100(ipd, fpd)),
{
    proof {
        lemma_digits_val_nonneg_of(ipd);
        assert(frac_digit(fpd, 0) * 10 + frac_digit(fpd, 1) + round_carry(fpd) >= 0);
    }
    if w >= SAT_INT {
        proof {
            assert(digits_val(ipd) >= SAT_INT as int);
            assert(digits_val(ipd) * 100 >= (SAT_INT as int) * 100) by (nonlinear_arith)
                requires
                    digits_val(ipd) >= SAT_INT as int,
            ;
            assert(scaled100(ipd, fpd) > i64::MAX);
        }
        if neg {
            i64::MIN
        } else {
            i64::MAX
        }
    } else {
        proof {
            assert(w as int == digits_val(ipd));
        }
        let prod: i64 = w * 100;
        match prod.checked_add(f1 * 10 + f2 + carry) {
            Some(v) => {
                proof {
                    assert(v as int == scaled100(ipd, fpd));
                }
                if neg {
                    -v
                } else {
                    v
                }
            },
            None => {
                proof {
                    assert(scaled100(ipd, fpd) > i64::MAX);
                }
                if neg {
                    i64::MIN
                } else {
                    i64::MAX
                }
            },
        }
    }
}

/// The mantissa's digits with the point taken out.
spec fn joined(mt: Seq<char>, dot: int) -> Seq<char> {
    mt.subrange(0, dot) + (if dot < mt.len() {
        mt.subrange(dot + 1, mt.len() as int)
    } else {
        Seq::empty()
    })
}

/// Reads the first three digits of a shifted fractional part: `zl`
/// leading zero digits, then the joined mantissa digits from `base`.
#[verifier::loop_isolation(false)]
fn read_frac3(
    mant: &str,
    dot: usize,
    dlen: usize,
    zl: usize,
    base: usize,
    Ghost(fpd): Ghost<Seq<char>>,
) -> (r: (i64, i64, i64))
    requires
        dot <= mant@.len() <= usize::MAX,
        dot as int == first_index_of(mant@, '.'),
        dlen as int == joined(mant@, dot as int).len(),
        all_digits(joined(mant@, dot as int)),
        base <= dlen,
        zl <= 2,
        fpd.len() == zl + (dlen - base),
        forall|j: int|
            0 <= j < fpd.len() ==> fpd[j] == (if j < zl {
                '0'
            } else {
                joined(mant@, dot as int)[base + j - zl]
            }),
    ensures
        r.0 == frac_digit(fpd, 0),
        r.1 == frac_digit(fpd, 1),
        r.2 == round_carry(fpd),
        0 <= r.0 <= 9,
        0 <= r.1 <= 9,
        0 <= r.2 <= 1,
{
    let ghost d = joined(mant@, dot as int);
    let mut f1: i64 = 0;
    let mut f2: i64 = 0;
    let mut carry: i64 = 0;
    let take: usize = dlen - base;
    if zl == 0 {
        if take >= 1 {
            let c = joined_digit(mant, dot, base);
            proof {
                assert(fpd[0] == d[base as int]);
                assert(is_digit(d[base as int]));
            }
            f1 = ((c as u32) - 48) as i64;
        }
        if take >= 2 {
            let c = joined_digit(mant, dot, base + 1);
            proof {
                assert(fpd[1] == d[base + 1]);
                assert(is_digit(d[base + 1]));
            }
            f2 = ((c as u32) - 48) as i64;
        }
        if take >= 3 {
            let c = joined_digit(mant, dot, base + 2);
            proof {
                assert(fpd[2] == d[base + 2]);
            }
            if (c as u32) >= 53 {
                carry = 1;
            }
        }
    } else if zl == 1 {
        if take >= 1 {
            let c = joined_digit(mant, dot, base);
            proof {
                assert(fpd[1] == d[base as int]);
                assert(is_digit(d[base as int]));
            }
            f2 = ((c as u32) - 48) as i64;
        }
        if take >= 2 {
            let c = joined_digit(mant, dot, base + 1);
            proof {
                assert(fpd[2] == d[base + 1]);
            }
            if (c as u32) >= 53 {
                carry = 1;
            }
        }
    } else {
        if take >= 1 {
            let c = joined_digit(mant, dot, base);
            proof {
                assert(fpd[2] == d[base as int]);
            }
            if (c as u32) >= 53 {
                carry = 1;
            }
        }
    }
    proof {
        if fpd.len() > 0 {
            assert(is_digit(fpd[0]));
        }
        if fpd.len() > 1 {
            assert(is_digit(fpd[1]));
        }
    }
    (f1, f2, carry)
}

/// One digit of the joined mantissa: the point is skipped over.
fn joined_digit(mant: &str, dot: usize, u: usize) -> (c: char)
    requires
        dot <= mant@.len() <= usize::MAX,
        dot as int == first_index_of(mant@, '.'),
        u < joined(mant@, dot as int).len(),
    ensures
        c == joined(mant@, dot as int)[u as int],
{
    if u < dot {
        mant.get_char(u)
    } else {
        mant.get_char(u + 1)
    }
}

/// Parses a magnitude token and returns its value scaled by 100,
/// clamped to the `i64` range; a token that is not a number yields 0,
/// an infinity word saturates by sign.
#[verifier::loop_isolation(false)]
#[verifier::rlimit(100)]
pub fn parse_mag100(m: &str) -> (r: i64)
    ensures
        r as int == clamp_i64(mag100(m@)),
{
    let n: usize = m.unicode_len();
    let mut neg = false;
    let mut start: usize = 0;
    if n > 0 {
        let c0 = m.get_char(0);
        if c0 == '-' {
            neg = true;
            start = 1;
        } else if c0 == '+' {
            start = 1;
        }
    }
    let body = m.substring_char(start, n);
    proof {
        assert(body@ =~= mag_body(m@));
    }
    // The infinity words saturate by sign.
    let lb = to_lowercase_ascii(body);
    if str_eq(lb.as_str(), "inf") || str_eq(lb.as_str(), "infinity") {
        proof {
            assert(is_inf_text(mag_body(m@)));
        }
        if neg {
            return i64::MIN;
        } else {
            return i64::MAX;
        }
    }
    proof {
        assert(!is_inf_text(mag_body(m@)));
    }
    let bn: usize = body.unicode_len();
    // Split off the exponent part.
    let e1 = find_char(body, 'e');
    let e2 = find_char(body, 'E');
    let ei: usize = if e1 <= e2 {
        e1
    } else {
        e2
    };
    proof {
        lemma_exp_marker(body@);
        assert(ei as int == exp_marker(body@));
    }
    let mant = body.substring_char(0, ei);
    let ghost mt = mantissa(body@);
    proof {
        assert(mant@ == mt);
    }
    let mlen: usize = ei;
    let dot = find_char(mant, '.');
    let ghost ip = int_part(mt);
    let ghost fp = frac_part(mt);
    proof {
        lemma_first_index_of(mant@, '.');
        assert(ip == mant@.subrange(0, dot as int));
        if dot < mlen {
            assert(fp == mant@.subrange(dot + 1, mlen as int));
        } else {
            assert(fp =~= Seq::<char>::empty());
        }
    }
    let frac_len: usize = if dot < mlen {
        mlen - dot - 1
    } else {
        0
    };
    if dot == 0 && frac_len == 0 {
        return 0;
    }
    // Validate the integer digits.
    let mut i: usize = 0;
    while i < dot
        invariant
            i <= dot <= mlen,
            dot <= mant@.len(),
            mlen == mant@.len(),
            ip == mant@.subrange(0, dot as int),
            forall|j: int| 0 <= j < i ==> is_digit(#[trigger] ip[j]),
        decreases dot - i,
    {
        let c = mant.get_char(i);
        if !('0' <= c && c <= '9') {
            proof {
                assert(!is_digit(ip[i as int]));
            }
            return 0;
        }
        i = i + 1;
    }
    // Validate the fractional digits.
    let mut j: usize = 0;
    while j < frac_len
        invariant
            j <= frac_len,
            dot < mlen || frac_len == 0,
            frac_len == 0 || frac_len == mlen - dot - 1,
            mlen == mant@.len(),
            dot <= mlen,
            frac_len > 0 ==> fp == mant@.subrange(dot + 1, mlen as int),
            forall|k: int| 0 <= k < j ==> is_digit(#[trigger] fp[k]),
        decreases frac_len - j,
    {
        let c = mant.get_char(dot + 1 + j);
        if !('0' <= c && c <= '9') {
            proof {
                assert(fp[j as int] == mant@[dot + 1 + j]);
                assert(!is_digit(fp[j as int]));
            }
            return 0;
        }
        j = j + 1;
    }
    // Validate and read the exponent.
    let mut eneg = false;
    let mut emag: u128 = 0;
    if ei < bn {
        let etext = body.substring_char(ei + 1, bn);
        proof {
            assert(etext@ == exp_text(body@));
        }
        match parse_exp_capped(etext) {
            Some(p) => {
                eneg = p.0;
                emag = p.1;
                proof {
                    assert(eneg == (int_sign(exp_text(body@)) == -1));
                    assert(is_int_text(exp_text(body@)));
                }
            },
            None => {
                proof {
                    assert(!is_int_text(exp_text(body@)));
                }
                return 0;
            },
        }
    }
    proof {
        assert(all_digits(ip));
        assert(all_digits(fp));
        assert(valid_mag(m@));
    }
    let ghost e = exp_val(body@);
    let ghost edv = if has_exp(body@) {
        digits_val(int_body(exp_text(body@)))
    } else {
        0
    };
    proof {
        if ei < bn {
            crate::text::lemma_digits_val_nonneg_of(int_body(exp_text(body@)));
            assert(e == int_sign(exp_text(body@)) * edv);
            if eneg {
                assert(int_sign(exp_text(body@)) == -1);
                assert(e == (-1) * edv);
                assert(e == -edv);
            } else {
                assert(int_sign(exp_text(body@)) == 1);
                assert(e == 1 * edv);
                assert(e == edv);
            }
            assert(emag as int <= edv);
            assert(edv <= EXP_CAP as int ==> emag as int == edv);
        } else {
            assert(e == 0 && emag == 0);
        }
    }
    // All-zero digits give 0 under any exponent.
    let a0 = digits_val_capped(mant, 0, dot);
    let fp_start: usize = if dot < mlen {
        dot + 1
    } else {
        mlen
    };
    proof {
        assert(fp =~= mant@.subrange(fp_start as int, mlen as int));
    }
    let b0 = digits_val_capped(mant, fp_start, mlen);
    if a0 == 0 && b0 == 0 {
        proof {
            lemma_digits_zero_iff(ip);
            lemma_digits_zero_iff(fp);
            lemma_shift_zero(ip, fp, e);
        }
        return 0;
    }
    let ghost dlen_spec = joined(mant@, dot as int).len();
    let dlen: usize = if dot < mlen {
        mlen - 1
    } else {
        mlen
    };
    proof {
        assert(joined(mant@, dot as int) =~= ip + fp);
        assert(dlen as int == dlen_spec);
        assert forall|t: int| 0 <= t < ip.len() + fp.len() implies is_digit(
            #[trigger] (ip + fp)[t],
        ) by {
            if t < ip.len() {
                assert((ip + fp)[t] == ip[t]);
            } else {
                assert((ip + fp)[t] == fp[t - ip.len()]);
            }
        }
    }
    if !eneg || emag == 0 {
        // The point moves right, or stays.
        proof {
            assert(e >= 0);
            assert(e >= emag as int);
        }
        if emag >= frac_len as u128 + 19 {
            proof {
                assert(digits_val(ip) > 0 || digits_val(fp) > 0);
                assert(e >= fp.len() + 19);
                lemma_shift_sat(ip, fp, e);
                assert(mag100(m@) == mag_sign(m@) * scaled100(
                    shifted_int_digits(ip, fp, e),
                    shifted_frac_digits(ip, fp, e),
                ));
                if neg {
                    assert(mag_sign(m@) == -1);
                    assert(mag100(m@) < i64::MIN);
                } else {
                    assert(mag_sign(m@) == 1);
                    assert(mag100(m@) > i64::MAX);
                }
            }
            if neg {
                return i64::MIN;
            } else {
                return i64::MAX;
            }
        }
        proof {
            assert(emag < EXP_CAP);
            assert(e == emag as int);
        }
        let r = scale_right(
            mant,
            dot,
            mlen,
            frac_len,
            fp_start,
            dlen,
            neg,
            emag,
            a0,
            Ghost(ip),
            Ghost(fp),
            Ghost(e),
        );
        proof {
            assert(mag100(m@) == mag_sign(m@) * scaled100(
                shifted_int_digits(ip, fp, e),
                shifted_frac_digits(ip, fp, e),
            ));
            if neg {
                assert(mag_sign(m@) == -1);
            } else {
                assert(mag_sign(m@) == 1);
            }
        }
        r
    } else {
        // The point moves left.
        proof {
            assert(e == -edv);
            assert(edv >= emag as int >= 1);
        }
        if emag >= dot as u128 + 3 {
            proof {
                assert(e <= -3 - ip.len());
                lemma_shift_tiny(ip, fp, e);
            }
            return 0;
        }
        proof {
            assert(emag < EXP_CAP);
            assert(e == -(emag as int));
        }
        let r = scale_left(
            mant,
            dot,
            mlen,
            frac_len,
            fp_start,
            dlen,
            neg,
            emag,
            Ghost(ip),
            Ghost(fp),
            Ghost(e),
        );
        proof {
            assert(mag100(m@) == mag_sign(m@) * scaled100(
                shifted_int_digits(ip, fp, e),
                shifted_frac_digits(ip, fp, e),
            ));
            if neg {
                assert(mag_sign(m@) == -1);
            } else {
                assert(mag_sign(m@) == 1);
            }
        }
        r
    }
}

/// Scales the mantissa by a non-negative exponent within the exact
/// band and folds it into the clamped key.
#[verifier::loop_isolation(false)]
#[verifier::rlimit(100)]
fn scale_right(
    mant: &str,
    dot: usize,
    mlen: usize,
    frac_len: usize,
    fp_start: usize,
    dlen: usize,
    neg: bool,
    emag: u128,
    a0: i64,
    Ghost(ip): Ghost<Seq<char>>,
    Ghost(fp): Ghost<Seq<char>>,
    Ghost(e): Ghost<int>,
) -> (r: i64)
    requires
        mlen == mant@.len(),
        mant@.len() <= usize::MAX,
        dot as int == first_index_of(mant@, '.'),
        dot <= mlen,
        ip == mant@.subrange(0, dot as int),
        frac_len as int == (if dot < mlen {
            mlen - dot - 1
        } else {
            0int
        }),
        fp_start as int == (if dot < mlen {
            dot + 1
        } else {
            mlen as int
        }),
        fp == mant@.subrange(fp_start as int, mlen as int),
        all_digits(ip),
        all_digits(fp),
        dlen as int == ip.len() + fp.len(),
        0 <= e,
        e == emag as int,
        emag < frac_len as u128 + 19,
        a0 as int == capped_digits_val(ip),
    ensures
        neg ==> r as int == clamp_i64(
            -scaled100(shifted_int_digits(ip, fp, e), shifted_frac_digits(ip, fp, e)),
        ),
        !neg ==> r as int == clamp_i64(
            scaled100(shifted_int_digits(ip, fp, e), shifted_frac_digits(ip, fp, e)),
        ),
{
    proof {
        assert(joined(mant@, dot as int) =~= ip + fp);
        assert forall|t: int| 0 <= t < ip.len() + fp.len() implies is_digit(
            #[trigger] (ip + fp)[t],
        ) by {
            if t < ip.len() {
                assert((ip + fp)[t] == ip[t]);
            } else {
                assert((ip + fp)[t] == fp[t - ip.len()]);
            }
        }
    }
    let (m1, pad): (usize, usize) = if emag <= frac_len as u128 {
        (emag as usize, 0)
    } else {
        (frac_len, (emag - frac_len as u128) as usize)
    };
    proof {
        assert(m1 as int == (if e <= fp.len() {
            e
        } else {
            fp.len() as int
        }));
        assert(pad as int == e - m1);
        assert(pad <= 18);
    }
    let ghost ipd = shifted_int_digits(ip, fp, e);
    let ghost fpd = shifted_frac_digits(ip, fp, e);
    let ghost d1 = ip + fp.subrange(0, m1 as int);
    proof {
        assert(fp.subrange(0, m1 as int) =~= mant@.subrange(
            fp_start as int,
            fp_start + m1,
        ));
    }
    let b1 = digits_val_capped(mant, fp_start, fp_start + m1);
    let ghost dvi = digits_val(ip);
    let ghost dvf = digits_val(fp.subrange(0, m1 as int));
    proof {
        lemma_digits_split(ip, fp.subrange(0, m1 as int));
        lemma_digits_val_nonneg_of(ip);
        lemma_digits_val_nonneg_of(fp.subrange(0, m1 as int));
        lemma_pow10_pos(m1 as int);
    }
    let mut w: i64;
    if a0 == 0 {
        proof {
            assert(dvi == 0);
            assert(fp.subrange(0, m1 as int).len() == m1 as int);
            assert(digits_val(d1) == dvi * pow10(m1 as int) + dvf);
            assert(dvi * pow10(m1 as int) == 0) by (nonlinear_arith)
                requires
                    dvi == 0,
            ;
            assert(digits_val(d1) == dvf);
        }
        w = b1;
    } else if m1 >= 19 {
        proof {
            assert(dvi >= 1);
            lemma_pow10_mono(19, m1 as int);
            lemma_pow10_19();
            assert(dvi * pow10(m1 as int) >= pow10(m1 as int)) by (nonlinear_arith)
                requires
                    dvi >= 1,
                    pow10(m1 as int) >= 1,
            ;
            assert(digits_val(d1) > SAT_INT as int);
        }
        w = SAT_INT;
    } else {
        let p = pow10_small(m1);
        proof {
            assert(0 <= (a0 as int) * (p as int) <= (SAT_INT as int)
                * 1_000_000_000_000_000_000) by (nonlinear_arith)
                requires
                    0 <= a0 as int <= SAT_INT as int,
                    1 <= p as int <= 1_000_000_000_000_000_000,
            ;
        }
        let t: i128 = (a0 as i128) * (p as i128) + (b1 as i128);
        proof {
            if dvi > SAT_INT as int {
                assert(dvi * pow10(m1 as int) >= dvi) by (nonlinear_arith)
                    requires
                        dvi >= 0,
                        pow10(m1 as int) >= 1,
                ;
                assert((SAT_INT as int) * pow10(m1 as int) >= SAT_INT as int)
                    by (nonlinear_arith)
                    requires
                        pow10(m1 as int) >= 1,
                ;
            } else {
                if dvf > SAT_INT as int {
                    assert(dvi * pow10(m1 as int) >= 0) by (nonlinear_arith)
                        requires
                            dvi >= 0,
                            pow10(m1 as int) >= 1,
                    ;
                }
            }
        }
        w = if t >= SAT_INT as i128 {
            SAT_INT
        } else {
            t as i64
        };
        proof {
            assert(w as int == capped_digits_val(d1));
        }
    }
    proof {
        assert(w as int == capped_digits_val(d1));
        assert(digits_val(d1) * pow10(0) == digits_val(d1));
    }
    let mut q: usize = 0;
    while q < pad
        invariant
            q <= pad <= 18,
            0 <= w <= SAT_INT,
            digits_val(d1) * pow10(q as int) <= SAT_INT as int ==> w as int == digits_val(d1)
                * pow10(q as int),
            digits_val(d1) * pow10(q as int) > SAT_INT as int ==> w == SAT_INT,
            digits_val(d1) >= 0,
        decreases pad - q,
    {
        proof {
            assert(pow10(q as int + 1) == 10 * pow10(q as int));
            assert(digits_val(d1) * pow10(q as int) * 10 == digits_val(d1) * pow10(
                q as int + 1,
            )) by (nonlinear_arith)
                requires
                    pow10(q as int + 1) == 10 * pow10(q as int),
            ;
            lemma_pow10_pos(q as int);
            assert(digits_val(d1) * pow10(q as int + 1) >= digits_val(d1) * pow10(q as int))
                by (nonlinear_arith)
                requires
                    digits_val(d1) >= 0,
                    pow10(q as int + 1) >= pow10(q as int),
            ;
            lemma_pow10_mono(q as int, q as int + 1);
        }
        let mut nx: i64 = w * 10;
        if nx > SAT_INT {
            nx = SAT_INT;
        }
        w = nx;
        q = q + 1;
    }
    proof {
        if pad == 0 {
            assert(ipd =~= d1);
        } else {
            assert(ipd =~= d1 + zero_digits(pad as int));
            lemma_zero_digits_facts(pad as int);
            lemma_digits_split(d1, zero_digits(pad as int));
        }
        assert(w as int == capped_digits_val(ipd));
        assert forall|t: int| 0 <= t < ipd.len() implies is_digit(#[trigger] ipd[t]) by {
            lemma_zero_digits_facts(pad as int);
        }
    }
    let (base, zfl): (usize, usize) = if pad == 0 {
        (dot + m1, 0)
    } else {
        (dlen, 0)
    };
    proof {
        if pad == 0 {
            assert(fpd =~= fp.subrange(m1 as int, fp.len() as int));
            assert(fpd.len() == zfl + (dlen - base));
            assert forall|jj: int| 0 <= jj < fpd.len() implies fpd[jj] == joined(
                mant@,
                dot as int,
            )[base + jj - zfl] by {
                assert(fpd[jj] == fp[m1 + jj]);
                assert(joined(mant@, dot as int)[dot + m1 + jj] == (ip + fp)[dot + m1 + jj]);
            }
        } else {
            assert(fpd =~= Seq::<char>::empty());
        }
    }
    let f3 = read_frac3(mant, dot, dlen, zfl, base, Ghost(fpd));
    assemble_key(neg, w, f3.0, f3.1, f3.2, Ghost(ipd), Ghost(fpd))
}

/// Scales the mantissa by a small negative exponent and folds it into
/// the clamped key.
#[verifier::loop_isolation(false)]
#[verifier::rlimit(100)]
fn scale_left(
    mant: &str,
    dot: usize,
    mlen: usize,
    frac_len: usize,
    fp_start: usize,
    dlen: usize,
    neg: bool,
    emag: u128,
    Ghost(ip): Ghost<Seq<char>>,
    Ghost(fp): Ghost<Seq<char>>,
    Ghost(e): Ghost<int>,
) -> (r: i64)
    requires
        mlen == mant@.len(),
        mant@.len() <= usize::MAX,
        dot as int == first_index_of(mant@, '.'),
        dot <= mlen,
        ip == mant@.subrange(0, dot as int),
        frac_len as int == (if dot < mlen {
            mlen - dot - 1
        } else {
            0int
        }),
        fp_start as int == (if dot < mlen {
            dot + 1
        } else {
            mlen as int
        }),
        fp == mant@.subrange(fp_start as int, mlen as int),
        all_digits(ip),
        all_digits(fp),
        dlen as int == ip.len() + fp.len(),
        1 <= emag,
        emag < dot as u128 + 3,
        e == -(emag as int),
    ensures
        neg ==> r as int == clamp_i64(
            -scaled100(shifted_int_digits(ip, fp, e), shifted_frac_digits(ip, fp, e)),
        ),
        !neg ==> r as int == clamp_i64(
            scaled100(shifted_int_digits(ip, fp, e), shifted_frac_digits(ip, fp, e)),
        ),
{
    proof {
        assert(joined(mant@, dot as int) =~= ip + fp);
        assert forall|t: int| 0 <= t < ip.len() + fp.len() implies is_digit(
            #[trigger] (ip + fp)[t],
        ) by {
            if t < ip.len() {
                assert((ip + fp)[t] == ip[t]);
            } else {
                assert((ip + fp)[t] == fp[t - ip.len()]);
            }
        }
    }
    let ghost ipd = shifted_int_digits(ip, fp, e);
    let ghost fpd = shifted_frac_digits(ip, fp, e);
    let w: i64;
    let base: usize;
    let zfl: usize;
    if emag <= dot as u128 {
        let k = emag as usize;
        proof {
            assert(ipd == ip.subrange(0, dot - k));
            assert(ip.subrange(0, dot - k) =~= mant@.subrange(0, dot - k));
        }
        w = digits_val_capped(mant, 0, dot - k);
        base = dot - k;
        zfl = 0;
        proof {
            assert(fpd =~= ip.subrange(dot - k, dot as int) + fp);
            assert(fpd.len() == zfl + (dlen - base));
            assert forall|jj: int| 0 <= jj < fpd.len() implies fpd[jj] == joined(
                mant@,
                dot as int,
            )[base + jj - zfl] by {
                if jj < k {
                    assert(fpd[jj] == ip[dot - k + jj]);
                    assert((ip + fp)[base + jj] == ip[base + jj]);
                } else {
                    assert(fpd[jj] == fp[jj - k]);
                    assert((ip + fp)[base + jj] == fp[base + jj - dot]);
                }
            }
        }
    } else {
        let z = (emag - dot as u128) as usize;
        proof {
            assert(ipd =~= Seq::<char>::empty());
            assert(capped_digits_val(ipd) == 0);
        }
        w = 0;
        base = 0;
        zfl = z;
        proof {
            assert(zfl <= 2);
            assert(fpd == zero_digits(zfl as int) + ip + fp);
            assert(fpd.len() == zfl + (dlen - base));
            assert forall|jj: int| 0 <= jj < fpd.len() implies fpd[jj] == (if jj < zfl {
                '0'
            } else {
                joined(mant@, dot as int)[base + jj - zfl]
            }) by {
                if jj < zfl {
                    assert(fpd[jj] == zero_digits(zfl as int)[jj]);
                } else {
                    assert(fpd[jj] == (ip + fp)[jj - zfl]);
                }
            }
        }
    }
    let f3 = read_frac3(mant, dot, dlen, zfl, base, Ghost(fpd));
    assemble_key(neg, w, f3.0, f3.1, f3.2, Ghost(ipd), Ghost(fpd))
}

/// The byte multiplier a unit token selects.
fn unit_multiplier(u: &str) -> (r: i64)
    ensures
        r as int == unit_mult(u@),
        1 <= r <= 0x100_0000_0000,
{
    if str_eq(u, "TiB") {
        0x100_0000_0000
    } else if str_eq(u, "GiB") {
        0x4000_0000
    } else if str_eq(u, "MiB") {
        0x10_0000
    } else if str_eq(u, "KiB") {
        0x400
    } else {
        1
    }
}

impl Torrent {
    /// The comparable size this record's size text normalizes to.
    pub fn get_size_as_i64(&self) -> (r: i64)
        ensures
            r as int == size_key(self.size@),
    {
        let s = self.size.as_str();
        let n: usize = s.unicode_len();
        let sp = find_char(s, ' ');
        proof {
            lemma_first_index_of(s@, ' ');
        }
        let tok0 = s.substring_char(0, sp);
        proof {
            assert(tok0@ == first_token(s@));
        }
        let m100 = parse_mag100(tok0);
        if sp < n {
            let rest = s.substring_char(sp + 1, n);
            let rn: usize = rest.unicode_len();
            let sp2 = find_char(rest, ' ');
            let tok1 = rest.substring_char(0, sp2);
            proof {
                assert(rest@ == s@.subrange(sp + 1, n as int));
                assert(tok1@ == unit_token(s@));
            }
            let mult = unit_multiplier(tok1);
            let r = mul_clamp(m100, mult);
            proof {
                lemma_clamp_mul(mag100(first_token(s@)), unit_mult(unit_token(s@)));
            }
            r
        } else {
            m100
        }
    }
}

} // verus!
