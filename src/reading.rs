use vstd::prelude::*;

verus! {

/// A memory clock sample, held as the floor of the measured value in kHz
/// (thousandths of a MHz), saturated to the range of `i64`.
#[derive(Clone, Copy, Debug, PartialEq, Eq, Structural)]
pub struct ClockReading {
    pub khz: i64,
}

pub const DIGIT_ZERO: u8 = 48;

pub const DIGIT_NINE: u8 = 57;

pub const SPACE: u8 = 32;

pub const POINT: u8 = 46;

pub const PLUS: u8 = 43;

pub const MINUS: u8 = 45;

pub const LOWER_E: u8 = 101;

pub const UPPER_E: u8 = 69;

/// Magnitude in kHz at which accumulation stops: beyond the `i64` range.
pub const KHZ_CAP: u128 = 10_000_000_000_000_000_000;

/// Exponent magnitude at which accumulation stops: past it, any nonzero
/// mantissa is out of range and any point falls outside every slice.
pub const EXP_CAP: u128 = 1_267_650_600_228_229_401_496_703_205_376;

pub open spec fn is_digit(b: u8) -> bool {
    DIGIT_ZERO <= b <= DIGIT_NINE
}

/// One-byte white space as `char::is_whitespace` sees it.
pub open spec fn is_space(b: u8) -> bool {
    b == SPACE || (9 <= b <= 13)
}

/// Three-byte UTF-8 encodings of white space (U+1680, U+2000 to U+200A,
/// U+2028, U+2029, U+202F, U+205F, U+3000).
pub open spec fn is_space3(a: u8, b: u8, c: u8) -> bool {
    ||| a == 0xE1 && b == 0x9A && c == 0x80
    ||| a == 0xE2 && b == 0x80 && ((0x80 <= c <= 0x8A) || c == 0xA8 || c == 0xA9 || c == 0xAF)
    ||| a == 0xE2 && b == 0x81 && c == 0x9F
    ||| a == 0xE3 && b == 0x80 && c == 0x80
}

/// Two-byte UTF-8 encodings of white space (U+0085, U+00A0).
pub open spec fn is_space2(a: u8, b: u8) -> bool {
    a == 0xC2 && (b == 0x85 || b == 0xA0)
}

/// Byte length of the white-space character that `s` starts with; 0 if none.
pub open spec fn lead_space_len(s: Seq<u8>) -> int {
    if s.len() >= 1 && is_space(s[0]) {
        1
    } else if s.len() >= 2 && is_space2(s[0], s[1]) {
        2
    } else if s.len() >= 3 && is_space3(s[0], s[1], s[2]) {
        3
    } else {
        0
    }
}

/// Byte length of the white-space character that `s` ends with; 0 if none.
pub open spec fn trail_space_len(s: Seq<u8>) -> int {
    let n = s.len() as int;
    if n >= 1 && is_space(s[n - 1]) {
        1
    } else if n >= 2 && is_space2(s[n - 2], s[n - 1]) {
        2
    } else if n >= 3 && is_space3(s[n - 3], s[n - 2], s[n - 1]) {
        3
    } else {
        0
    }
}

pub open spec fn all_digits(s: Seq<u8>) -> bool {
    forall|i: int| 0 <= i < s.len() ==> is_digit(#[trigger] s[i])
}

/// The number that a run of decimal digits denotes.
pub open spec fn digits_value(s: Seq<u8>) -> int
    decreases s.len(),
{
    if s.len() == 0 {
        0
    } else {
        digits_value(s.drop_last()) * 10 + (s.last() - DIGIT_ZERO)
    }
}

pub open spec fn trim_start(s: Seq<u8>) -> Seq<u8>
    decreases s.len(),
{
    if lead_space_len(s) > 0 {
        trim_start(s.skip(lead_space_len(s)))
    } else {
        s
    }
}

pub open spec fn trim_end(s: Seq<u8>) -> Seq<u8>
    decreases s.len(),
{
    if trail_space_len(s) > 0 {
        trim_end(s.take(s.len() - trail_space_len(s)))
    } else {
        s
    }
}

pub open spec fn trim(s: Seq<u8>) -> Seq<u8> {
    trim_end(trim_start(s))
}

pub open spec fn sign_len(t: Seq<u8>) -> int {
    if t.len() > 0 && (t[0] == PLUS || t[0] == MINUS) {
        1
    } else {
        0
    }
}

pub open spec fn is_negative(t: Seq<u8>) -> bool {
    t.len() > 0 && t[0] == MINUS
}

/// `b` is digits, a point at `k`, then digits, with at least one digit in all.
pub open spec fn point_at(b: Seq<u8>, k: int) -> bool {
    &&& 0 <= k < b.len()
    &&& b[k] == POINT
    &&& b.len() >= 2
    &&& all_digits(b.take(k))
    &&& all_digits(b.skip(k + 1))
}

/// The unsigned part of a number: its integer digits and its fraction digits.
pub open spec fn unsigned_parts(b: Seq<u8>) -> Option<(Seq<u8>, Seq<u8>)> {
    if b.len() > 0 && all_digits(b) {
        Some((b, Seq::empty()))
    } else if exists|k: int| point_at(b, k) {
        let k = choose|k: int| point_at(b, k);
        Some((b.take(k), b.skip(k + 1)))
    } else {
        None
    }
}

pub open spec fn is_exp_mark(c: u8) -> bool {
    c == LOWER_E || c == UPPER_E
}

/// An exponent: an optional sign, then at least one digit.
pub open spec fn exponent_ok(x: Seq<u8>) -> bool {
    let d = x.skip(sign_len(x));
    d.len() > 0 && all_digits(d)
}

pub open spec fn exponent_value(x: Seq<u8>) -> int {
    let v = digits_value(x.skip(sign_len(x)));
    if is_negative(x) {
        -v
    } else {
        v
    }
}

/// `b` is a mantissa, an exponent mark at `x`, then an exponent.
pub open spec fn exp_split(b: Seq<u8>, x: int) -> bool {
    &&& 0 <= x < b.len()
    &&& is_exp_mark(b[x])
    &&& unsigned_parts(b.take(x)) is Some
    &&& exponent_ok(b.skip(x + 1))
}

/// The digits of an unsigned number, and where its point stands once the
/// number is scaled from MHz to kHz (after the exponent is applied).
pub open spec fn unsigned_scaled(b: Seq<u8>) -> Option<(Seq<u8>, int)> {
    match unsigned_parts(b) {
        Some((ip, fp)) => Some((ip + fp, ip.len() + 3int)),
        None => if exists|x: int| exp_split(b, x) {
            let x = choose|x: int| exp_split(b, x);
            match unsigned_parts(b.take(x)) {
                Some((ip, fp)) => Some((ip + fp, ip.len() + 3int + exponent_value(b.skip(x + 1)))),
                None => None,
            }
        } else {
            None
        },
    }
}

pub open spec fn pow10(n: nat) -> int
    decreases n,
{
    if n == 0 {
        1
    } else {
        10 * pow10((n - 1) as nat)
    }
}

/// The whole part of the digits `m` with the point at `pt`.
pub open spec fn whole_part(m: Seq<u8>, pt: int) -> int {
    if pt <= 0 {
        0
    } else if pt <= m.len() {
        digits_value(m.take(pt))
    } else {
        digits_value(m) * pow10((pt - m.len()) as nat)
    }
}

/// Some digit of `m` after the point at `pt` is not zero.
pub open spec fn has_fraction(m: Seq<u8>, pt: int) -> bool {
    exists|i: int| 0 <= i < m.len() && pt <= i && m[i] != DIGIT_ZERO
}

pub open spec fn lower(c: u8) -> u8 {
    if 65 <= c <= 90 {
        (c + 32) as u8
    } else {
        c
    }
}

/// `inf` or `infinity`, in any case.
pub open spec fn is_infinity_word(b: Seq<u8>) -> bool {
    &&& b.len() == 3 || b.len() == 8
    &&& lower(b[0]) == 105 && lower(b[1]) == 110 && lower(b[2]) == 102
    &&& b.len() == 8 ==> (lower(b[3]) == 105 && lower(b[4]) == 110 && lower(b[5]) == 105
        && lower(b[6]) == 116 && lower(b[7]) == 121)
}

/// The floor, in kHz, of the number `t` given in MHz: an optional sign, then
/// digits with an optional point and an optional exponent (`e` or `E`, an
/// optional sign, digits), or `inf` / `infinity`, which stand at the ends of
/// the `i64` range. `None` when `t` is no such number (`nan` included: it is
/// never below any target).
pub open spec fn floor_khz(t: Seq<u8>) -> Option<int> {
    let b = t.skip(sign_len(t));
    if is_infinity_word(b) {
        Some(
            if is_negative(t) {
                i64::MIN as int
            } else {
                i64::MAX as int
            },
        )
    } else {
        match unsigned_scaled(b) {
            None => None,
            Some((m, pt)) => {
                let w = whole_part(m, pt);
                if is_negative(t) {
                    Some(-(w + if has_fraction(m, pt) { 1int } else { 0int }))
                } else {
                    Some(w)
                }
            },
        }
    }
}

pub open spec fn clamp_i64(v: int) -> int {
    if v > i64::MAX {
        i64::MAX as int
    } else if v < i64::MIN {
        i64::MIN as int
    } else {
        v
    }
}

/// The reading that a probe's standard output denotes, once trimmed.
pub open spec fn reading_of(out: Seq<u8>) -> Option<ClockReading> {
    match floor_khz(trim(out)) {
        None => None,
        Some(v) => Some(ClockReading { khz: clamp_i64(v) as i64 }),
    }
}

/// The reading that a probe run yields: nothing unless it succeeded.
pub open spec fn probe_outcome(success: bool, out: Seq<u8>) -> Option<ClockReading> {
    if success {
        reading_of(out)
    } else {
        None
    }
}

proof fn lemma_digits_value_step(s: Seq<u8>, j: int)
    requires
        0 <= j < s.len(),
    ensures
        digits_value(s.take(j + 1)) == digits_value(s.take(j)) * 10 + (s[j] - DIGIT_ZERO),
{
    assert(s.take(j + 1).drop_last() =~= s.take(j));
}

proof fn lemma_digits_value_nonneg(s: Seq<u8>)
    requires
        all_digits(s),
    ensures
        digits_value(s) >= 0,
    decreases s.len(),
{
    if s.len() > 0 {
        assert(all_digits(s.drop_last())) by {
            assert forall|i: int| 0 <= i < s.drop_last().len() implies is_digit(
                #[trigger] s.drop_last()[i],
            ) by {
                assert(s.drop_last()[i] == s[i]);
            }
        }
        lemma_digits_value_nonneg(s.drop_last());
        assert(is_digit(s[s.len() - 1]));
    }
}

fn space_len_at(s: &[u8], i: usize) -> (n: usize)
    requires
        i <= s@.len(),
    ensures
        n == lead_space_len(s@.skip(i as int)),
        n <= s@.len() - i,
{
    let r = s.len() - i;
    if r >= 1 && (s[i] == SPACE || (9 <= s[i] && s[i] <= 13)) {
        1
    } else if r >= 2 && s[i] == 0xC2 && (s[i + 1] == 0x85 || s[i + 1] == 0xA0) {
        2
    } else if r >= 3 && ((s[i] == 0xE1 && s[i + 1] == 0x9A && s[i + 2] == 0x80) || (s[i] == 0xE2
        && s[i + 1] == 0x80 && ((0x80 <= s[i + 2] && s[i + 2] <= 0x8A) || s[i + 2] == 0xA8 || s[i
        + 2] == 0xA9 || s[i + 2] == 0xAF)) || (s[i] == 0xE2 && s[i + 1] == 0x81 && s[i + 2]
        == 0x9F) || (s[i] == 0xE3 && s[i + 1] == 0x80 && s[i + 2] == 0x80)) {
        3
    } else {
        0
    }
}

fn space_len_before(s: &[u8], lo: usize, j: usize) -> (n: usize)
    requires
        lo <= j <= s@.len(),
    ensures
        n == trail_space_len(s@.subrange(lo as int, j as int)),
        n <= j - lo,
{
    let r = j - lo;
    if r >= 1 && (s[j - 1] == SPACE || (9 <= s[j - 1] && s[j - 1] <= 13)) {
        1
    } else if r >= 2 && s[j - 2] == 0xC2 && (s[j - 1] == 0x85 || s[j - 1] == 0xA0) {
        2
    } else if r >= 3 && ((s[j - 3] == 0xE1 && s[j - 2] == 0x9A && s[j - 1] == 0x80) || (s[j - 3]
        == 0xE2 && s[j - 2] == 0x80 && ((0x80 <= s[j - 1] && s[j - 1] <= 0x8A) || s[j - 1]
        == 0xA8 || s[j - 1] == 0xA9 || s[j - 1] == 0xAF)) || (s[j - 3] == 0xE2 && s[j - 2]
        == 0x81 && s[j - 1] == 0x9F) || (s[j - 3] == 0xE3 && s[j - 2] == 0x80 && s[j - 1]
        == 0x80)) {
        3
    } else {
        0
    }
}

/// Index of the first byte of `s` that does not belong to leading white space.
fn skip_space_forward(s: &[u8]) -> (lo: usize)
    ensures
        lo <= s@.len(),
        trim_start(s@) == s@.skip(lo as int),
{
    let len = s.len();
    let mut i: usize = 0;
    assert(s@.skip(0) =~= s@);
    let mut n = space_len_at(s, 0);
    while n > 0
        invariant
            len == s@.len(),
            i <= s@.len(),
            n == lead_space_len(s@.skip(i as int)),
            n <= s@.len() - i,
            trim_start(s@) == trim_start(s@.skip(i as int)),
        decreases s@.len() - i,
    {
        assert(s@.skip(i as int).skip(n as int) =~= s@.skip(i + n));
        i = i + n;
        n = space_len_at(s, i);
    }
    i
}

/// End of `s[lo..]` once trailing white space is dropped.
fn skip_space_backward(s: &[u8], lo: usize) -> (hi: usize)
    requires
        lo <= s@.len(),
    ensures
        lo <= hi <= s@.len(),
        trim_end(s@.subrange(lo as int, s@.len() as int)) == s@.subrange(lo as int, hi as int),
{
    let mut j: usize = s.len();
    let mut n = space_len_before(s, lo, j);
    while n > 0
        invariant
            lo <= j <= s@.len(),
            n == trail_space_len(s@.subrange(lo as int, j as int)),
            n <= j - lo,
            trim_end(s@.subrange(lo as int, s@.len() as int)) == trim_end(
                s@.subrange(lo as int, j as int),
            ),
        decreases j,
    {
        assert(s@.subrange(lo as int, j as int).take(j - lo - n) =~= s@.subrange(
            lo as int,
            j - n,
        ));
        j = j - n;
        n = space_len_before(s, lo, j);
    }
    j
}

/// Within `b`, a point can stand only right after the leading run of digits.
proof fn lemma_point_after_digits(b: Seq<u8>, m: int, k: int)
    requires
        0 <= m < b.len(),
        all_digits(b.take(m)),
        !is_digit(b[m]),
        point_at(b, k),
    ensures
        k == m,
{
    if k < m {
        assert(b.take(m)[k] == b[k]);
    } else if k > m {
        assert(b.take(k)[m] == b[m]);
    }
}

/// An unsigned number holds digits and points only.
proof fn lemma_parts_chars(m: Seq<u8>, i: int)
    requires
        unsigned_parts(m) is Some,
        0 <= i < m.len(),
    ensures
        is_digit(m[i]) || m[i] == POINT,
{
    if !(m.len() > 0 && all_digits(m)) {
        let k = choose|k: int| point_at(m, k);
        if i < k {
            assert(m.take(k)[i] == m[i]);
        } else if i > k {
            assert(m.skip(k + 1)[i - k - 1] == m[i]);
        }
    }
}

/// The exponent mark of a number is its first one.
proof fn lemma_exp_unique(b: Seq<u8>, x0: int, x1: int)
    requires
        0 <= x0 < b.len(),
        is_exp_mark(b[x0]),
        forall|j: int| 0 <= j < x0 ==> !is_exp_mark(#[trigger] b[j]),
        exp_split(b, x1),
    ensures
        x1 == x0,
{
    if x1 > x0 {
        lemma_parts_chars(b.take(x1), x0);
        assert(b.take(x1)[x0] == b[x0]);
    }
}

proof fn lemma_pow10_mono(a: nat, n: nat)
    requires
        a <= n,
    ensures
        1 <= pow10(a) <= pow10(n),
    decreases n,
{
    if n > a {
        lemma_pow10_mono(a, (n - 1) as nat);
    } else if a > 0 {
        lemma_pow10_mono((a - 1) as nat, (a - 1) as nat);
    }
}

proof fn lemma_pow10_big(n: nat)
    requires
        n >= 19,
    ensures
        pow10(n) >= KHZ_CAP,
{
    reveal_with_fuel(pow10, 20);
    lemma_pow10_mono(19, n);
}

/// First exponent mark in `s[p..hi]`, or `hi`.
fn find_exp_mark(s: &[u8], p: usize, hi: usize) -> (x: usize)
    requires
        p <= hi <= s@.len(),
    ensures
        p <= x <= hi,
        forall|j: int| p <= j < x ==> !is_exp_mark(#[trigger] s@[j]),
        x < hi ==> is_exp_mark(s@[x as int]),
{
    let mut x = p;
    while x < hi && !(s[x] == LOWER_E || s[x] == UPPER_E)
        invariant
            p <= x <= hi <= s@.len(),
            forall|j: int| p <= j < x ==> !is_exp_mark(#[trigger] s@[j]),
        decreases hi - x,
    {
        x = x + 1;
    }
    x
}

/// Sign and magnitude (capped at `EXP_CAP`) of the exponent `s[lo..hi]`.
fn parse_exponent(s: &[u8], lo: usize, hi: usize) -> (r: Option<(bool, u128)>)
    requires
        lo <= hi <= s@.len(),
    ensures
        r is Some <==> exponent_ok(s@.subrange(lo as int, hi as int)),
        r matches Some((neg, v)) ==> {
            let x = s@.subrange(lo as int, hi as int);
            let e = digits_value(x.skip(sign_len(x)));
            &&& neg == is_negative(x)
            &&& v == (if e < EXP_CAP { e } else { EXP_CAP as int })
        },
{
    let ghost x = s@.subrange(lo as int, hi as int);
    let neg = lo < hi && s[lo] == MINUS;
    let p: usize = if lo < hi && (s[lo] == PLUS || s[lo] == MINUS) {
        lo + 1
    } else {
        lo
    };
    let ghost d = s@.subrange(p as int, hi as int);
    assert(x.skip(sign_len(x)) =~= d);
    if p == hi {
        return None;
    }
    let mut i: usize = p;
    let mut acc: u128 = 0;
    assert(d.take(0) =~= Seq::<u8>::empty());
    while i < hi
        invariant
            p <= i <= hi <= s@.len(),
            d == s@.subrange(p as int, hi as int),
            x == s@.subrange(lo as int, hi as int),
            x.skip(sign_len(x)) == d,
            neg == is_negative(x),
            all_digits(d.take(i - p)),
            acc == (if digits_value(d.take(i - p)) < EXP_CAP {
                digits_value(d.take(i - p))
            } else {
                EXP_CAP as int
            }),
        decreases hi - i,
    {
        if !(DIGIT_ZERO <= s[i] && s[i] <= DIGIT_NINE) {
            assert(d[i - p] == s@[i as int]);
            return None;
        }
        proof {
            lemma_digits_value_step(d, i - p);
            assert forall|k: int| 0 <= k < d.take(i + 1 - p).len() implies is_digit(
                #[trigger] d.take(i + 1 - p)[k],
            ) by {
                if k < i - p {
                    assert(d.take(i + 1 - p)[k] == d.take(i - p)[k]);
                }
            }
        }
        let c = (s[i] - DIGIT_ZERO) as u128;
        if acc < EXP_CAP {
            let n = acc * 10 + c;
            acc = if n < EXP_CAP {
                n
            } else {
                EXP_CAP
            };
        }
        i = i + 1;
    }
    assert(d.take(d.len() as int) =~= d);
    Some((neg, acc))
}

/// Splits the unsigned number `s[p..q]` (digits with an optional point) at
/// the end of its integer digits.
fn scan_mantissa(s: &[u8], p: usize, q: usize) -> (r: Option<usize>)
    requires
        p <= q <= s@.len(),
    ensures
        match unsigned_parts(s@.subrange(p as int, q as int)) {
            None => r is None,
            Some((ip, fp)) => r matches Some(k) && {
                &&& p <= k <= q
                &&& ip == s@.subrange(p as int, k as int)
                &&& fp == (if k == q {
                    Seq::<u8>::empty()
                } else {
                    s@.subrange(k + 1, q as int)
                })
            },
        },
{
    let ghost b = s@.subrange(p as int, q as int);
    let mut i: usize = p;
    assert(b.take(0) =~= Seq::<u8>::empty());
    while i < q && DIGIT_ZERO <= s[i] && s[i] <= DIGIT_NINE
        invariant
            p <= i <= q <= s@.len(),
            b == s@.subrange(p as int, q as int),
            all_digits(b.take(i - p)),
        decreases q - i,
    {
        assert forall|k: int| 0 <= k < b.take(i + 1 - p).len() implies is_digit(
            #[trigger] b.take(i + 1 - p)[k],
        ) by {
            if k < i - p {
                assert(b.take(i + 1 - p)[k] == b.take(i - p)[k]);
            }
        }
        i = i + 1;
    }
    let ghost ilen = i - p;
    if i == q {
        assert(b.take(ilen) =~= b);
        if i == p {
            return None;
        }
        return Some(q);
    }
    assert(b[ilen] == s@[i as int]);
    if s[i] != POINT {
        proof {
            if exists|k: int| point_at(b, k) {
                let k = choose|k: int| point_at(b, k);
                lemma_point_after_digits(b, ilen, k);
            }
        }
        return None;
    }
    if q - p < 2 {
        return None;
    }
    let ghost fp = b.skip(ilen + 1);
    let mut j: usize = i + 1;
    assert(fp.take(0) =~= Seq::<u8>::empty());
    while j < q
        invariant
            p <= i < j <= q <= s@.len(),
            ilen == i - p,
            b == s@.subrange(p as int, q as int),
            all_digits(b.take(ilen)),
            b[ilen] == POINT,
            b.len() >= 2,
            fp == b.skip(ilen + 1),
            all_digits(fp.take(j - i - 1)),
        decreases q - j,
    {
        let ghost m = j - i - 1;
        assert(fp[m] == s@[j as int]);
        if !(DIGIT_ZERO <= s[j] && s[j] <= DIGIT_NINE) {
            proof {
                if exists|k: int| point_at(b, k) {
                    let k = choose|k: int| point_at(b, k);
                    lemma_point_after_digits(b, ilen, k);
                    assert(b.skip(k + 1)[m] == fp[m]);
                }
                assert(!all_digits(b));
            }
            return None;
        }
        assert forall|k: int| 0 <= k < fp.take(m + 1).len() implies is_digit(
            #[trigger] fp.take(m + 1)[k],
        ) by {
            if k < m {
                assert(fp.take(m + 1)[k] == fp.take(m)[k]);
            }
        }
        j = j + 1;
    }
    assert(fp.take(fp.len() as int) =~= fp);
    assert(point_at(b, ilen as int));
    proof {
        let k = choose|k: int| point_at(b, k);
        lemma_point_after_digits(b, ilen, k);
    }
    assert(!all_digits(b));
    assert(b.take(ilen) =~= s@.subrange(p as int, i as int));
    assert(fp =~= s@.subrange(i + 1, q as int));
    Some(i)
}

fn lower_byte(c: u8) -> (r: u8)
    ensures
        r == lower(c),
{
    if 65 <= c && c <= 90 {
        c + 32
    } else {
        c
    }
}

fn infinity_word(s: &[u8], p: usize, hi: usize) -> (r: bool)
    requires
        p <= hi <= s@.len(),
    ensures
        r == is_infinity_word(s@.subrange(p as int, hi as int)),
{
    let n = hi - p;
    if n != 3 && n != 8 {
        return false;
    }
    let head = lower_byte(s[p]) == 105 && lower_byte(s[p + 1]) == 110 && lower_byte(s[p + 2])
        == 102;
    if n == 3 {
        head
    } else {
        head && lower_byte(s[p + 3]) == 105 && lower_byte(s[p + 4]) == 110 && lower_byte(s[p + 5])
            == 105 && lower_byte(s[p + 6]) == 116 && lower_byte(s[p + 7]) == 121
    }
}


/// The digits of an unsigned number, point left out, are all digits.
proof fn lemma_parts_digits(b: Seq<u8>)
    requires
        unsigned_parts(b) is Some,
    ensures
        all_digits(unsigned_parts(b).unwrap().0 + unsigned_parts(b).unwrap().1),
{
    let (ip, fp) = unsigned_parts(b).unwrap();
    let m = ip + fp;
    if b.len() > 0 && all_digits(b) {
        assert(m =~= b);
    } else {
        assert forall|i: int| 0 <= i < m.len() implies is_digit(#[trigger] m[i]) by {
            if i < ip.len() {
                assert(m[i] == ip[i]);
            } else {
                assert(m[i] == fp[i - ip.len()]);
            }
        }
    }
}

/// The digits of the mantissa `s[p..x]` whose integer digits end at `k`.
pub open spec fn mantissa_digits(s: Seq<u8>, p: int, k: int, x: int) -> Seq<u8> {
    s.subrange(p, k) + (if k == x {
        Seq::<u8>::empty()
    } else {
        s.subrange(k + 1, x)
    })
}

pub open spec fn cap_khz(v: int) -> int {
    if v < KHZ_CAP {
        v
    } else {
        KHZ_CAP as int
    }
}

/// Digit `i` of the mantissa, read from the slice.
fn mantissa_digit(s: &[u8], p: usize, k: usize, x: usize, i: usize) -> (c: u8)
    requires
        p <= k <= x <= s@.len(),
        i < mantissa_digits(s@, p as int, k as int, x as int).len(),
    ensures
        c == mantissa_digits(s@, p as int, k as int, x as int)[i as int],
{
    if i < k - p {
        s[p + i]
    } else {
        s[k + 1 + (i - (k - p))]
    }
}

/// Whole part of the mantissa with the point at `pt`, capped at `KHZ_CAP`.
fn whole_saturated(s: &[u8], p: usize, k: usize, x: usize, pt: i128) -> (acc: u128)
    requires
        p <= k <= x <= s@.len(),
        all_digits(mantissa_digits(s@, p as int, k as int, x as int)),
    ensures
        acc == cap_khz(whole_part(mantissa_digits(s@, p as int, k as int, x as int), pt as int)),
{
    let ghost m = mantissa_digits(s@, p as int, k as int, x as int);
    let mlen: usize = if k == x {
        k - p
    } else {
        x - p - 1
    };
    assert(m.len() == mlen);
    let stop: usize = if pt <= 0 {
        0
    } else if pt >= mlen as i128 {
        mlen
    } else {
        pt as usize
    };
    let mut acc: u128 = 0;
    let mut i: usize = 0;
    assert(m.take(0) =~= Seq::<u8>::empty());
    while i < stop
        invariant
            i <= stop <= mlen,
            p <= k <= x <= s@.len(),
            m == mantissa_digits(s@, p as int, k as int, x as int),
            m.len() == mlen,
            all_digits(m),
            acc == cap_khz(digits_value(m.take(i as int))),
        decreases stop - i,
    {
        let c = mantissa_digit(s, p, k, x, i);
        proof {
            lemma_digits_value_step(m, i as int);
        }
        let d = (c - DIGIT_ZERO) as u128;
        if acc < KHZ_CAP {
            let n = acc * 10 + d;
            acc = if n < KHZ_CAP {
                n
            } else {
                KHZ_CAP
            };
        }
        i = i + 1;
    }
    if pt > mlen as i128 {
        assert(m.take(mlen as int) =~= m);
        let ghost total = pt - mlen;
        let ghost dv = digits_value(m);
        let mut z: i128 = pt - mlen as i128;
        while z > 0 && acc != 0 && acc < KHZ_CAP
            invariant
                0 <= z <= total,
                total == pt - mlen,
                acc == cap_khz(dv * pow10((total - z) as nat)),
            decreases z,
        {
            let ghost j = (total - z) as nat;
            assert(pow10(j + 1) == 10 * pow10(j));
            assert(dv * pow10(j + 1) == 10 * (dv * pow10(j))) by (nonlinear_arith)
                requires
                    pow10(j + 1) == 10 * pow10(j),
            ;
            acc = if acc * 10 < KHZ_CAP {
                acc * 10
            } else {
                KHZ_CAP
            };
            z = z - 1;
        }
        proof {
            let j = (total - z) as nat;
            let n = total as nat;
            lemma_pow10_mono(j, n);
            lemma_digits_value_nonneg(m);
            if z > 0 && acc == 0 {
                assert(dv == 0) by (nonlinear_arith)
                    requires
                        dv * pow10(j) == 0,
                        pow10(j) >= 1,
                ;
                assert(dv * pow10(n) == 0);
            } else if z > 0 {
                assert(dv * pow10(n) >= dv * pow10(j)) by (nonlinear_arith)
                    requires
                        dv >= 0,
                        pow10(n) >= pow10(j),
                ;
            }
        }
    }
    acc
}

/// Whether a digit of the mantissa after the point at `pt` is not zero.
fn fraction_flag(s: &[u8], p: usize, k: usize, x: usize, pt: i128) -> (frac: bool)
    requires
        p <= k <= x <= s@.len(),
    ensures
        frac == has_fraction(mantissa_digits(s@, p as int, k as int, x as int), pt as int),
{
    let ghost m = mantissa_digits(s@, p as int, k as int, x as int);
    let mlen: usize = if k == x {
        k - p
    } else {
        x - p - 1
    };
    let stop: usize = if pt <= 0 {
        0
    } else if pt >= mlen as i128 {
        mlen
    } else {
        pt as usize
    };
    let mut frac = false;
    let mut j: usize = stop;
    while j < mlen
        invariant
            stop <= j <= mlen,
            p <= k <= x <= s@.len(),
            m == mantissa_digits(s@, p as int, k as int, x as int),
            m.len() == mlen,
            frac <==> exists|i: int| stop <= i < j && #[trigger] m[i] != DIGIT_ZERO,
        decreases mlen - j,
    {
        let c = mantissa_digit(s, p, k, x, j);
        if c != DIGIT_ZERO {
            frac = true;
        }
        j = j + 1;
    }
    proof {
        if frac {
            let i = choose|i: int| stop <= i < mlen && #[trigger] m[i] != DIGIT_ZERO;
            assert(0 <= i < m.len() && pt <= i && m[i] != DIGIT_ZERO);
        }
        if has_fraction(m, pt as int) {
            let i = choose|i: int| 0 <= i < m.len() && pt <= i && m[i] != DIGIT_ZERO;
            assert(stop <= i < mlen && m[i] != DIGIT_ZERO);
        }
    }
    frac
}

/// Past `EXP_CAP`, a larger exponent changes neither the capped whole part
/// nor the fraction test.
proof fn lemma_exponent_cap(m: Seq<u8>, pt: int, pt_true: int, neg_exp: bool)
    requires
        all_digits(m),
        m.len() < 0x1_0000_0000_0000_0000,
        neg_exp ==> pt_true <= pt < 0,
        !neg_exp ==> pt >= m.len() + EXP_CAP - 0x1_0000_0000_0000_0000 && pt_true >= pt,
    ensures
        cap_khz(whole_part(m, pt)) == cap_khz(whole_part(m, pt_true)),
        has_fraction(m, pt) == has_fraction(m, pt_true),
{
    lemma_digits_value_nonneg(m);
    if neg_exp {
        if has_fraction(m, pt) {
            let i = choose|i: int| 0 <= i < m.len() && pt <= i && m[i] != DIGIT_ZERO;
            assert(0 <= i < m.len() && pt_true <= i && m[i] != DIGIT_ZERO);
        }
        if has_fraction(m, pt_true) {
            let i = choose|i: int| 0 <= i < m.len() && pt_true <= i && m[i] != DIGIT_ZERO;
            assert(0 <= i < m.len() && pt <= i && m[i] != DIGIT_ZERO);
        }
    } else {
        let dv = digits_value(m);
        let n1 = (pt - m.len()) as nat;
        let n2 = (pt_true - m.len()) as nat;
        lemma_pow10_big(n1);
        lemma_pow10_big(n2);
        if dv > 0 {
            assert(dv * pow10(n1) >= pow10(n1)) by (nonlinear_arith)
                requires
                    dv >= 1,
                    pow10(n1) >= 0,
            ;
            assert(dv * pow10(n2) >= pow10(n2)) by (nonlinear_arith)
                requires
                    dv >= 1,
                    pow10(n2) >= 0,
            ;
        } else {
            assert(dv * pow10(n1) == 0 && dv * pow10(n2) == 0) by (nonlinear_arith)
                requires
                    dv == 0,
            ;
        }
    }
}

/// Splits the unsigned number `s[p..hi]` into its mantissa `s[p..x]`, whose
/// integer digits end at `k`, and its exponent's sign and magnitude (capped
/// at `EXP_CAP`).
#[verifier::rlimit(40)]
fn scan_unsigned(s: &[u8], p: usize, hi: usize) -> (r: Option<(usize, usize, bool, u128)>)
    requires
        p <= hi <= s@.len(),
    ensures
        match unsigned_scaled(s@.subrange(p as int, hi as int)) {
            None => r is None,
            Some((m, pt)) => r matches Some((x, k, e_neg, e_mag)) && {
                &&& p <= k <= x <= hi
                &&& m == mantissa_digits(s@, p as int, k as int, x as int)
                &&& all_digits(m)
                &&& e_mag <= EXP_CAP
                &&& e_mag < EXP_CAP ==> pt == (k - p) + 3 + (if e_neg {
                    -e_mag
                } else {
                    e_mag as int
                })
                &&& e_mag == EXP_CAP && e_neg ==> pt <= (k - p) + 3 - EXP_CAP
                &&& e_mag == EXP_CAP && !e_neg ==> pt >= (k - p) + 3 + EXP_CAP
            },
        },
{
    let ghost b = s@.subrange(p as int, hi as int);
    let x = find_exp_mark(s, p, hi);
    assert forall|j: int| 0 <= j < x - p implies !is_exp_mark(#[trigger] b[j]) by {
        assert(b[j] == s@[p + j]);
    }
    let mut e_neg = false;
    let mut e_mag: u128 = 0;
    let ghost mut e_true: int = 0;
    if x < hi {
        assert(b[x - p] == s@[x as int]);
        assert(b.skip(x - p + 1) =~= s@.subrange(x + 1, hi as int));
        assert(b.take(x - p) =~= s@.subrange(p as int, x as int));
        proof {
            if unsigned_parts(b) is Some {
                lemma_parts_chars(b, x - p);
            }
        }
        match parse_exponent(s, x + 1, hi) {
            None => {
                proof {
                    if exists|x1: int| exp_split(b, x1) {
                        let x1 = choose|x1: int| exp_split(b, x1);
                        lemma_exp_unique(b, x - p, x1);
                    }
                }
                return None;
            },
            Some((n, v)) => {
                e_neg = n;
                e_mag = v;
                proof {
                    e_true = exponent_value(s@.subrange(x + 1, hi as int));
                }
            },
        }
    } else {
        assert(b =~= s@.subrange(p as int, x as int));
        assert forall|x1: int| !exp_split(b, x1) by {
            if 0 <= x1 < b.len() {
                assert(b[x1] == s@[p + x1]);
            }
        }
    }
    let k = match scan_mantissa(s, p, x) {
        None => {
            proof {
                if exists|x1: int| exp_split(b, x1) {
                    let x1 = choose|x1: int| exp_split(b, x1);
                    lemma_exp_unique(b, x - p, x1);
                }
            }
            return None;
        },
        Some(k) => k,
    };
    let ghost m = mantissa_digits(s@, p as int, k as int, x as int);
    let ghost pt_true = (k - p) + 3 + e_true;
    proof {
        lemma_parts_digits(s@.subrange(p as int, x as int));
        if x < hi {
            assert(exp_split(b, x - p));
            let x1 = choose|x1: int| exp_split(b, x1);
            lemma_exp_unique(b, x - p, x1);
        }
        assert(unsigned_scaled(b) == Some((m, pt_true)));
    }
    Some((x, k, e_neg, e_mag))
}

/// Clamped floor in kHz of the number `s[lo..hi]`, if it is one.
#[verifier::rlimit(40)]
fn parse_decimal(s: &[u8], lo: usize, hi: usize) -> (r: Option<i64>)
    requires
        lo <= hi <= s@.len(),
    ensures
        r == (match floor_khz(s@.subrange(lo as int, hi as int)) {
            None => None,
            Some(v) => Some(clamp_i64(v) as i64),
        }),
{
    let ghost t = s@.subrange(lo as int, hi as int);
    let neg = lo < hi && s[lo] == MINUS;
    let p: usize = if lo < hi && (s[lo] == PLUS || s[lo] == MINUS) {
        lo + 1
    } else {
        lo
    };
    let ghost b = s@.subrange(p as int, hi as int);
    assert(t.skip(sign_len(t)) =~= b);
    assert(neg == is_negative(t));
    if infinity_word(s, p, hi) {
        return Some(
            if neg {
                i64::MIN
            } else {
                i64::MAX
            },
        );
    }
    let (x, k, e_neg, e_mag) = match scan_unsigned(s, p, hi) {
        None => return None,
        Some(r) => r,
    };
    let ghost m = mantissa_digits(s@, p as int, k as int, x as int);
    let ghost pt_true = unsigned_scaled(b).unwrap().1;
    let ilen: usize = k - p;
    let pt: i128 = if e_neg {
        ilen as i128 + 3 - e_mag as i128
    } else {
        ilen as i128 + 3 + e_mag as i128
    };
    let acc = whole_saturated(s, p, k, x, pt);
    let frac = fraction_flag(s, p, k, x, pt);
    proof {
        if e_mag >= EXP_CAP {
            assert(m.len() <= s@.len());
            lemma_exponent_cap(m, pt as int, pt_true, e_neg);
        }
    }
    if neg {
        let m2: u128 = if frac {
            acc + 1
        } else {
            acc
        };
        if m2 >= 9223372036854775808 {
            Some(i64::MIN)
        } else {
            Some(-(m2 as i64))
        }
    } else {
        if acc > 9223372036854775807 {
            Some(i64::MAX)
        } else {
            Some(acc as i64)
        }
    }
}

/// Reads a clock sample from a probe's standard output: the trimmed text must
/// be a number of MHz as `floor_khz` reads it; anything else is no reading.
pub fn parse_reading(out: &[u8]) -> (r: Option<ClockReading>)
    ensures
        r == reading_of(out@),
{
    let lo = skip_space_forward(out);
    let hi = skip_space_backward(out, lo);
    assert(out@.skip(lo as int) =~= out@.subrange(lo as int, out@.len() as int));
    match parse_decimal(out, lo, hi) {
        None => None,
        Some(khz) => Some(ClockReading { khz }),
    }
}

/// The reading of one probe run: none when the probe did not exit
/// successfully, else what its output denotes.
pub fn probe_reading(success: bool, out: &[u8]) -> (r: Option<ClockReading>)
    ensures
        r == probe_outcome(success, out@),
{
    if success {
        parse_reading(out)
    } else {
        None
    }
}

} // verus!
