//! Decimal numerals: texts such as `12`, `-3.50`, `.5` or `1.5e3`, read
//! exactly and compared by value, however many digits they have.

use vstd::prelude::*;

verus! {

/// Ten to the power `k`.
pub open spec fn pow10(k: nat) -> nat
    decreases k,
{
    if k == 0 {
        1
    } else {
        10 * pow10((k - 1) as nat)
    }
}

/// The number that a sequence of decimal digits writes, most significant
/// digit first; 0 for no digits.
pub open spec fn digits_value(digits: Seq<u8>) -> nat
    decreases digits.len(),
{
    if digits.len() == 0 {
        0
    } else {
        digits_value(digits.drop_last()) * 10 + digits.last() as nat
    }
}

/// Whether every element is a decimal digit.
pub open spec fn all_digits(digits: Seq<u8>) -> bool {
    forall|i: int| 0 <= i < digits.len() ==> digits[i] <= 9
}

/// A run of `n` zero digits.
pub open spec fn zeros(n: int) -> Seq<u8> {
    Seq::new(
        if n > 0 {
            n as nat
        } else {
            0
        },
        |i: int| 0u8,
    )
}

/// What a numeral denotes: `magnitude / 10^scale`, negated when `negative`.
pub struct Number {
    pub negative: bool,
    pub magnitude: nat,
    pub scale: nat,
}

/// The magnitude with its sign.
pub open spec fn signed(n: Number) -> int {
    if n.negative {
        -(n.magnitude as int)
    } else {
        n.magnitude as int
    }
}

/// Whether the value of `a` is at least the value of `b`: the comparison of
/// two fractions by cross-multiplication.
pub open spec fn number_ge(a: Number, b: Number) -> bool {
    signed(a) * pow10(b.scale) >= signed(b) * pow10(a.scale)
}

/// Whether `c` is one of the characters `0` to `9`.
pub open spec fn is_digit(c: char) -> bool {
    '0' as int <= c as int <= '9' as int
}

/// The digit that the character `c` writes.
pub open spec fn digit_value(c: char) -> u8 {
    (c as int - '0' as int) as u8
}

/// Whether `c` opens the exponent of a numeral.
pub open spec fn is_exponent_mark(c: char) -> bool {
    c == 'e' || c == 'E'
}

/// The greatest exponent, in either direction, that a numeral may have.
pub const EXPONENT_LIMIT: u64 = 9999;

/// The length of the sign that `text` has at index `at`: 1 for `+` or `-`,
/// else 0.
pub open spec fn sign_len_at(text: Seq<char>, at: int) -> int {
    if 0 <= at < text.len() && (text[at] == '+' || text[at] == '-') {
        1
    } else {
        0
    }
}

/// The length of the sign that `text` starts with.
pub open spec fn sign_len(text: Seq<char>) -> int {
    sign_len_at(text, 0)
}

/// The number of digits of a mantissa that ends before `mark` and has its
/// decimal point at `point`, or none when `point` is `mark`.
pub open spec fn digit_count(text: Seq<char>, point: int, mark: int) -> int {
    if point < mark {
        mark - sign_len(text) - 1
    } else {
        mark - sign_len(text)
    }
}

/// Whether `text` up to `mark` is a mantissa with its decimal point at
/// `point`: after the optional sign there are only digits but for the point,
/// and at least one digit; and what follows, if anything, opens an exponent.
pub open spec fn mantissa_at(text: Seq<char>, point: int, mark: int) -> bool {
    &&& sign_len(text) <= point <= mark <= text.len()
    &&& forall|i: int| sign_len(text) <= i < mark && i != point ==> is_digit(#[trigger] text[i])
    &&& point < mark ==> text[point] == '.'
    &&& digit_count(text, point, mark) >= 1
    &&& mark < text.len() ==> is_exponent_mark(text[mark])
}

/// The index of the first digit of the exponent that `mark` opens.
pub open spec fn exponent_start(text: Seq<char>, mark: int) -> int {
    mark + 1 + sign_len_at(text, mark + 1)
}

/// The digits of the exponent that `mark` opens.
pub open spec fn exponent_digits(text: Seq<char>, mark: int) -> Seq<u8> {
    Seq::new(
        (text.len() - exponent_start(text, mark)) as nat,
        |i: int| digit_value(text[exponent_start(text, mark) + i]),
    )
}

/// Whether what follows `mark` is an exponent: an optional sign, then
/// digits and nothing else, at least one, that write at most
/// `EXPONENT_LIMIT`.
pub open spec fn exponent_ok(text: Seq<char>, mark: int) -> bool {
    &&& exponent_start(text, mark) < text.len()
    &&& forall|i: int| exponent_start(text, mark) <= i < text.len() ==> is_digit(#[trigger] text[i])
    &&& digits_value(exponent_digits(text, mark)) <= EXPONENT_LIMIT
}

/// The exponent that `mark` opens; 0 where the text ends at `mark`.
pub open spec fn exponent_of(text: Seq<char>, mark: int) -> int {
    if mark < text.len() {
        if text[mark + 1] == '-' {
            -(digits_value(exponent_digits(text, mark)) as int)
        } else {
            digits_value(exponent_digits(text, mark)) as int
        }
    } else {
        0
    }
}

/// Whether `text` is a numeral whose mantissa has its decimal point at
/// `point` and ends before `mark`, where its exponent begins or the text
/// ends.
pub open spec fn splits_at(text: Seq<char>, point: int, mark: int) -> bool {
    mantissa_at(text, point, mark) && (mark < text.len() ==> exponent_ok(text, mark))
}

/// Whether `text` is a numeral: an optional sign; then digits with at most
/// one decimal point among, before or behind them; then, optionally, `e` or
/// `E`, an optional sign and the digits of an exponent of at most
/// `EXPONENT_LIMIT`. No blanks. The words that a reader of floating-point
/// numbers takes for infinity or for no number (`inf`, `infinity`, `nan`)
/// are no numerals: they denote no finite number.
pub open spec fn is_numeral(text: Seq<char>) -> bool {
    exists|split: (int, int)| splits_at(text, split.0, split.1)
}

/// The place of the decimal point and the end of the mantissa of a numeral.
pub open spec fn split_of(text: Seq<char>) -> (int, int) {
    choose|split: (int, int)| splits_at(text, split.0, split.1)
}

/// The digits of a mantissa, in order, the point left out.
pub open spec fn digits_of(text: Seq<char>, point: int, mark: int) -> Seq<u8> {
    Seq::new(
        digit_count(text, point, mark) as nat,
        |i: int|
            if sign_len(text) + i < point {
                digit_value(text[sign_len(text) + i])
            } else {
                digit_value(text[sign_len(text) + i + 1])
            },
    )
}

/// The number of digits behind the decimal point of a mantissa.
pub open spec fn fraction_len(point: int, mark: int) -> int {
    if point < mark {
        mark - point - 1
    } else {
        0
    }
}

/// The number that digits with `behind` of them behind the decimal point
/// and an exponent denote: the exponent moves the point to the right, and
/// where it moves it past the last digit, zeros fill the places.
pub open spec fn scaled(negative: bool, mantissa: nat, behind: int, exponent: int) -> Number {
    if exponent >= behind {
        Number { negative, magnitude: mantissa * pow10((exponent - behind) as nat), scale: 0 }
    } else {
        Number { negative, magnitude: mantissa, scale: (behind - exponent) as nat }
    }
}

/// What a numeral split at `point` and `mark` denotes.
pub open spec fn number_at(text: Seq<char>, point: int, mark: int) -> Number {
    scaled(
        text[0] == '-',
        digits_value(digits_of(text, point, mark)),
        fraction_len(point, mark),
        exponent_of(text, mark),
    )
}

/// What the text denotes if it is a numeral.
pub open spec fn number_of(text: Seq<char>) -> Option<Number> {
    if is_numeral(text) {
        Some(number_at(text, split_of(text).0, split_of(text).1))
    } else {
        None
    }
}

/// A text is a mantissa in one way only.
pub proof fn lemma_mantissa_unique(text: Seq<char>, p: int, m: int, q: int, k: int)
    requires
        mantissa_at(text, p, m),
        mantissa_at(text, q, k),
    ensures
        p == q,
        m == k,
{
    if m < k {
        assert(is_exponent_mark(text[m]));
        if m != q {
            assert(is_digit(text[m]));
        }
    } else if k < m {
        assert(is_exponent_mark(text[k]));
        if k != p {
            assert(is_digit(text[k]));
        }
    } else if p < q {
        assert(is_digit(text[p]));
    } else if q < p {
        assert(is_digit(text[q]));
    }
}

/// A text whose mantissa is found is a numeral exactly if its exponent, if
/// it has one, is one; and then it denotes what this split gives.
proof fn lemma_split_found(text: Seq<char>, point: int, mark: int)
    requires
        mantissa_at(text, point, mark),
    ensures
        is_numeral(text) == (mark < text.len() ==> exponent_ok(text, mark)),
        is_numeral(text) ==> number_of(text) == Some(number_at(text, point, mark)),
{
    if is_numeral(text) {
        let split = split_of(text);
        assert(splits_at(text, split.0, split.1));
        lemma_mantissa_unique(text, point, mark, split.0, split.1);
    }
    if mark < text.len() ==> exponent_ok(text, mark) {
        let split = (point, mark);
        assert(splits_at(text, split.0, split.1));
    }
}

/// A power of ten is positive, and the powers multiply as their exponents
/// add.
pub proof fn lemma_pow10(a: nat, b: nat)
    ensures
        pow10(a) >= 1,
        pow10(a + b) == pow10(a) * pow10(b),
    decreases a,
{
    if a == 0 {
        assert(pow10(0 + b) == 1 * pow10(b));
    } else {
        lemma_pow10((a - 1) as nat, b);
        assert(pow10(a + b) == 10 * pow10((a - 1 + b) as nat));
        assert(10 * (pow10((a - 1) as nat) * pow10(b)) == (10 * pow10((a - 1) as nat)) * pow10(b))
            by (nonlinear_arith);
    }
}

/// Zeros write zero.
proof fn lemma_zeros_value(n: int)
    ensures
        digits_value(zeros(n)) == 0,
    decreases n,
{
    if n > 0 {
        lemma_zeros_value(n - 1);
        assert(zeros(n).drop_last() =~= zeros(n - 1));
    }
}

/// Zeros in front change nothing.
proof fn lemma_leading_zeros(n: int, digits: Seq<u8>)
    ensures
        digits_value(zeros(n) + digits) == digits_value(digits),
    decreases digits.len(),
{
    if digits.len() == 0 {
        assert(zeros(n) + digits =~= zeros(n));
        lemma_zeros_value(n);
    } else {
        lemma_leading_zeros(n, digits.drop_last());
        assert((zeros(n) + digits).drop_last() =~= zeros(n) + digits.drop_last());
    }
}

/// Each zero behind multiplies by ten.
proof fn lemma_trailing_zeros(digits: Seq<u8>, n: int)
    ensures
        digits_value(digits + zeros(n)) == digits_value(digits) * pow10(
            if n > 0 {
                n as nat
            } else {
                0
            },
        ),
    decreases n,
{
    if n <= 0 {
        assert(digits + zeros(n) =~= digits);
        let v = digits_value(digits) as int;
        let one = pow10(0) as int;
        assert(v * one == v) by (nonlinear_arith)
            requires
                one == 1,
        ;
    } else {
        lemma_trailing_zeros(digits, n - 1);
        let padded = digits + zeros(n);
        assert(padded.drop_last() =~= digits + zeros(n - 1));
        assert(padded.last() == 0);
        let v = digits_value(digits) as int;
        let p = pow10((n - 1) as nat) as int;
        assert(digits_value(padded) == (v * p) * 10);
        let q = pow10(n as nat) as int;
        assert(q == 10 * p);
        assert((v * p) * 10 == v * q) by (nonlinear_arith)
            requires
                q == 10 * p,
        ;
    }
}

/// Digits write a number below ten to the power of their count.
proof fn lemma_value_bound(digits: Seq<u8>)
    requires
        all_digits(digits),
    ensures
        digits_value(digits) < pow10(digits.len()),
    decreases digits.len(),
{
    if digits.len() > 0 {
        lemma_value_bound(digits.drop_last());
    }
}

/// The value of digits from those of a front part and the rest.
proof fn lemma_value_split(digits: Seq<u8>, i: int)
    requires
        0 <= i <= digits.len(),
    ensures
        digits_value(digits) == digits_value(digits.take(i)) * pow10((digits.len() - i) as nat)
            + digits_value(digits.skip(i)),
    decreases digits.len(),
{
    if i == digits.len() {
        assert(digits.take(i) =~= digits);
        assert(digits.skip(i) =~= Seq::<u8>::empty());
        let v = digits_value(digits) as int;
        let one = pow10(0) as int;
        assert(v * one == v) by (nonlinear_arith)
            requires
                one == 1,
        ;
    } else {
        let front = digits.drop_last();
        lemma_value_split(front, i);
        assert(front.take(i) =~= digits.take(i));
        assert(front.skip(i) =~= digits.skip(i).drop_last());
        assert(digits.skip(i).last() == digits.last());
        let a = digits_value(digits.take(i)) as int;
        let b = digits_value(front.skip(i)) as int;
        let p = pow10((front.len() - i) as nat) as int;
        assert(digits_value(front) == a * p + b);
        assert(digits_value(digits) == (a * p + b) * 10 + digits.last());
        assert(digits_value(digits.skip(i)) == b * 10 + digits.last());
        let q = pow10((digits.len() - i) as nat) as int;
        assert(q == 10 * p);
        assert((a * p + b) * 10 == a * q + b * 10) by (nonlinear_arith)
            requires
                q == 10 * p,
        ;
    }
}

/// Of two digit sequences of one length, the one with the smaller digit at
/// the first place where they differ writes the smaller number.
proof fn lemma_first_difference(x: Seq<u8>, y: Seq<u8>, i: int)
    requires
        x.len() == y.len(),
        all_digits(x),
        all_digits(y),
        0 <= i < x.len(),
        x.take(i) == y.take(i),
        x[i] < y[i],
    ensures
        digits_value(x) < digits_value(y),
{
    let n = x.len() as int;
    lemma_value_split(x, i + 1);
    lemma_value_split(y, i + 1);
    assert(x.take(i + 1).drop_last() =~= x.take(i));
    assert(y.take(i + 1).drop_last() =~= y.take(i));
    let tail = x.skip(i + 1);
    assert forall|j: int| 0 <= j < tail.len() implies #[trigger] tail[j] <= 9 by {
        assert(tail[j] == x[i + 1 + j]);
    }
    lemma_value_bound(tail);
    let p = pow10((n - i - 1) as nat) as int;
    let hx = digits_value(x.take(i + 1)) as int;
    let hy = digits_value(y.take(i + 1)) as int;
    let lx = digits_value(x.skip(i + 1)) as int;
    assert(hx + 1 <= hy);
    assert(lx < p);
    assert(hx * p + lx < hy * p) by (nonlinear_arith)
        requires
            hx + 1 <= hy,
            0 <= lx < p,
    ;
}

/// Comparing two fractions by cross-multiplication is the same as comparing
/// their numerators once both are brought to a common power of ten.
proof fn lemma_common_scale(ma: int, ka: nat, mb: int, kb: nat, r: nat)
    requires
        ka <= r,
        kb <= r,
    ensures
        (ma * pow10(kb) < mb * pow10(ka)) == (ma * pow10((r - ka) as nat) < mb * pow10(
            (r - kb) as nat,
        )),
        (ma * pow10(kb) == mb * pow10(ka)) == (ma * pow10((r - ka) as nat) == mb * pow10(
            (r - kb) as nat,
        )),
{
    let pa = pow10(ka) as int;
    let pb = pow10(kb) as int;
    let qa = pow10((r - ka) as nat) as int;
    let qb = pow10((r - kb) as nat) as int;
    let pr = pow10(r) as int;
    lemma_pow10(ka, (r - ka) as nat);
    lemma_pow10(kb, (r - kb) as nat);
    lemma_pow10((r - ka) as nat, 0);
    lemma_pow10((r - kb) as nat, 0);
    lemma_pow10(r, 0);
    assert(pa * qa == pr && pb * qb == pr);
    assert(pa >= 1 && pb >= 1 && qa >= 1 && qb >= 1);
    let left = ma * pb;
    let right = mb * pa;
    let scaled_left = ma * qa;
    let scaled_right = mb * qb;
    // Both comparisons are the comparison of ma * pr * qa ... over the
    // positive factor qa * qb.
    assert(left * (qa * qb) == scaled_left * pr) by (nonlinear_arith)
        requires
            left == ma * pb,
            scaled_left == ma * qa,
            pb * qb == pr,
    ;
    assert(right * (qa * qb) == scaled_right * pr) by (nonlinear_arith)
        requires
            right == mb * pa,
            scaled_right == mb * qb,
            pa * qa == pr,
    ;
    let f = qa * qb;
    assert(f >= 1) by (nonlinear_arith)
        requires
            f == qa * qb,
            qa >= 1,
            qb >= 1,
    ;
    assert((left < right) == (left * f < right * f)) by (nonlinear_arith)
        requires
            f >= 1,
    ;
    assert((scaled_left < scaled_right) == (scaled_left * pr < scaled_right * pr))
        by (nonlinear_arith)
        requires
            pr >= 1,
    ;
    assert((left == right) == (left * f == right * f)) by (nonlinear_arith)
        requires
            f >= 1,
    ;
    assert((scaled_left == scaled_right) == (scaled_left * pr == scaled_right * pr))
        by (nonlinear_arith)
        requires
            pr >= 1,
    ;
}

/// The order of numbers by value is transitive.
pub proof fn lemma_number_ge_transitive(a: Number, b: Number, c: Number)
    requires
        number_ge(a, b),
        number_ge(b, c),
    ensures
        number_ge(a, c),
{
    let sa = signed(a);
    let sb = signed(b);
    let sc = signed(c);
    let pa = pow10(a.scale) as int;
    let pb = pow10(b.scale) as int;
    let pc = pow10(c.scale) as int;
    lemma_pow10(a.scale, 0);
    lemma_pow10(b.scale, 0);
    lemma_pow10(c.scale, 0);
    assert(sa * pc >= sc * pa) by (nonlinear_arith)
        requires
            sa * pb >= sb * pa,
            sb * pc >= sc * pb,
            pa >= 1,
            pb >= 1,
            pc >= 1,
    ;
}

/// The digits of a numeral written out over `whole` places before the point
/// and `frac` places behind it, with zeros where the numeral has no digit.
pub open spec fn padded(digits: Seq<u8>, scale: int, whole: int, frac: int) -> Seq<u8> {
    zeros(whole - (digits.len() - scale)) + digits + zeros(frac - scale)
}

/// Writing a numeral out over more places leaves its value, taken at the
/// wider scale, as it was, and puts its digits where their place value says.
proof fn lemma_padded(digits: Seq<u8>, scale: int, whole: int, frac: int)
    requires
        all_digits(digits),
        0 <= scale <= digits.len(),
        digits.len() - scale <= whole,
        scale <= frac,
    ensures
        padded(digits, scale, whole, frac).len() == whole + frac,
        all_digits(padded(digits, scale, whole, frac)),
        digits_value(padded(digits, scale, whole, frac)) == digits_value(digits) * pow10(
            (frac - scale) as nat,
        ),
        forall|p: int|
            0 <= p < whole ==> #[trigger] padded(digits, scale, whole, frac)[p] == if p < whole - (
            digits.len() - scale) {
                0u8
            } else {
                digits[p - (whole - (digits.len() - scale))]
            },
        forall|q: int|
            0 <= q < frac ==> #[trigger] padded(digits, scale, whole, frac)[whole + q] == if q
                < scale {
                digits[digits.len() - scale + q]
            } else {
                0u8
            },
{
    let lead = whole - (digits.len() - scale);
    lemma_leading_zeros(lead, digits);
    lemma_trailing_zeros(zeros(lead) + digits, frac - scale);
}

/// Digits write zero exactly when all of them are zero.
proof fn lemma_zero_value(digits: Seq<u8>)
    ensures
        digits_value(digits) == 0 <==> forall|i: int| 0 <= i < digits.len() ==> digits[i] == 0,
    decreases digits.len(),
{
    if digits.len() > 0 {
        let front = digits.drop_last();
        lemma_zero_value(front);
        if digits_value(digits) == 0 {
            assert forall|i: int| 0 <= i < digits.len() implies digits[i] == 0 by {
                if i < digits.len() - 1 {
                    assert(front[i] == digits[i]);
                }
            }
        } else if forall|i: int| 0 <= i < digits.len() ==> digits[i] == 0 {
            assert forall|i: int| 0 <= i < front.len() implies front[i] == 0 by {
                assert(front[i] == digits[i]);
            }
        }
    }
}

/// How the order of two signed fractions follows from their signs and the
/// order of their magnitudes.
proof fn lemma_signed_order(a: Number, b: Number)
    ensures
        !a.negative && !b.negative ==> number_ge(a, b) == (a.magnitude * pow10(b.scale)
            >= b.magnitude * pow10(a.scale)),
        a.negative && b.negative ==> number_ge(a, b) == (a.magnitude * pow10(b.scale)
            <= b.magnitude * pow10(a.scale)),
        !a.negative && b.negative ==> number_ge(a, b),
        a.negative && !b.negative ==> number_ge(a, b) == (a.magnitude == 0 && b.magnitude == 0),
{
    let ma = a.magnitude as int;
    let mb = b.magnitude as int;
    let pa = pow10(a.scale) as int;
    let pb = pow10(b.scale) as int;
    lemma_pow10(a.scale, 0);
    lemma_pow10(b.scale, 0);
    assert((-ma) * pb == -(ma * pb)) by (nonlinear_arith);
    assert((-mb) * pa == -(mb * pa)) by (nonlinear_arith);
    assert(ma * pb >= 0 && (ma * pb == 0 <==> ma == 0)) by (nonlinear_arith)
        requires
            ma >= 0,
            pb >= 1,
    ;
    assert(mb * pa >= 0 && (mb * pa == 0 <==> mb == 0)) by (nonlinear_arith)
        requires
            mb >= 0,
            pa >= 1,
    ;
}

/// The digits of a number do not write less than those in front of them.
proof fn lemma_prefix_value(digits: Seq<u8>, k: int)
    requires
        0 <= k <= digits.len(),
    ensures
        digits_value(digits.take(k)) <= digits_value(digits),
{
    lemma_value_split(digits, k);
    lemma_pow10((digits.len() - k) as nat, 0);
    let front = digits_value(digits.take(k)) as int;
    let power = pow10((digits.len() - k) as nat) as int;
    assert(front <= front * power) by (nonlinear_arith)
        requires
            front >= 0,
            power >= 1,
    ;
}

/// Reads the sign and the mantissa of a numeral: its digits, the index of
/// its decimal point and the index at which it ends. Without a point, the
/// second index stands for both.
fn read_mantissa(text: &Vec<char>) -> (found: Option<(Vec<u8>, usize, usize)>)
    ensures
        match found {
            Some((digits, point, mark)) => mantissa_at(text@, point as int, mark as int)
                && digits@ == digits_of(text@, point as int, mark as int) && all_digits(digits@),
            None => forall|p: int, m: int| !mantissa_at(text@, p, m),
        },
{
    let n: usize = text.len();
    let start: usize = if n > 0 && (text[0] == '+' || text[0] == '-') {
        1
    } else {
        0
    };
    let mut digits: Vec<u8> = Vec::new();
    let mut point: usize = n;
    let mut mark: usize = n;
    let mut i: usize = start;
    while i < n && mark == n
        invariant
            n == text.len(),
            start == sign_len(text@),
            start <= i <= n,
            mark == n || (mark == i && i < n && is_exponent_mark(text[i as int])),
            point == n || (start <= point < i && text[point as int] == '.'),
            forall|j: int| start <= j < i && j != point ==> is_digit(#[trigger] text[j]),
            digits.len() == if point < n {
                i - start - 1
            } else {
                i - start
            },
            forall|k: int|
                0 <= k < digits.len() ==> #[trigger] digits[k] == digit_value(
                    text[if start + k < point {
                        start + k
                    } else {
                        start + k + 1
                    }],
                ) && digits[k] <= 9,
        decreases
                n - i + if mark == n {
                    1int
                } else {
                    0int
                },
    {
        let c = text[i];
        if c == '.' {
            if point < n {
                proof {
                    assert forall|p: int, m: int| !mantissa_at(text@, p, m) by {
                        if mantissa_at(text@, p, m) {
                            if m <= i {
                                assert(is_exponent_mark(text[m]));
                                if m < i && m != point {
                                    assert(is_digit(text[m]));
                                }
                            } else if p != point {
                                assert(is_digit(text[point as int]));
                            } else {
                                assert(is_digit(text[i as int]));
                            }
                        }
                    }
                }
                return None;
            }
            point = i;
            i += 1;
        } else if c >= '0' && c <= '9' {
            digits.push(c as u8 - 48);
            i += 1;
        } else if c == 'e' || c == 'E' {
            mark = i;
        } else {
            proof {
                assert forall|p: int, m: int| !mantissa_at(text@, p, m) by {
                    if mantissa_at(text@, p, m) {
                        if m <= i {
                            assert(is_exponent_mark(text[m]));
                            if m < i && m != point {
                                assert(is_digit(text[m]));
                            }
                        } else if p != i {
                            assert(is_digit(text[i as int]));
                        }
                    }
                }
            }
            return None;
        }
    }
    if digits.len() == 0 {
        proof {
            assert forall|p: int, m: int| !mantissa_at(text@, p, m) by {
                if mantissa_at(text@, p, m) {
                    if m < i {
                        assert(is_exponent_mark(text[m]));
                        if m != point {
                            assert(is_digit(text[m]));
                        }
                    } else if m > i {
                        if i != p {
                            assert(is_digit(text[i as int]));
                        }
                    } else if point < n && p != point {
                        assert(is_digit(text[point as int]));
                    }
                }
            }
        }
        return None;
    }
    let place: usize = if point < n {
        point
    } else {
        i
    };
    proof {
        assert(digits@ =~= digits_of(text@, place as int, i as int));
    }
    Some((digits, place, i))
}

/// Reads the exponent that follows the mark at index `mark`.
fn read_exponent(text: &Vec<char>, mark: usize) -> (found: Option<i64>)
    requires
        mark < text.len(),
    ensures
        match found {
            Some(exponent) => exponent_ok(text@, mark as int) && exponent == exponent_of(
                text@,
                mark as int,
            ) && -(EXPONENT_LIMIT as int) <= exponent <= EXPONENT_LIMIT as int,
            None => !exponent_ok(text@, mark as int),
        },
{
    let n: usize = text.len();
    let signed = mark + 1 < n && (text[mark + 1] == '+' || text[mark + 1] == '-');
    let negative = mark + 1 < n && text[mark + 1] == '-';
    let start: usize = if signed {
        mark + 2
    } else {
        mark + 1
    };
    if start >= n {
        return None;
    }
    let ghost all = exponent_digits(text@, mark as int);
    let mut value: u64 = 0;
    let mut i: usize = start;
    assert(all.take(0) =~= Seq::<u8>::empty());
    while i < n
        invariant
            n == text.len(),
            start == exponent_start(text@, mark as int),
            start <= i <= n,
            all == exponent_digits(text@, mark as int),
            forall|j: int| start <= j < i ==> is_digit(#[trigger] text[j]),
            value == digits_value(all.take(i - start)),
            value <= EXPONENT_LIMIT,
        decreases n - i,
    {
        let c = text[i];
        if !(c >= '0' && c <= '9') {
            assert(!is_digit(text[i as int]));
            return None;
        }
        let digit: u64 = (c as u8 - 48) as u64;
        let next: u64 = value * 10 + digit;
        proof {
            let front = all.take(i - start + 1);
            assert(front.drop_last() =~= all.take(i - start));
            assert(front.last() == digit_value(text[i as int]));
            assert(digits_value(front) == next);
            lemma_prefix_value(all, i - start + 1);
        }
        if next > EXPONENT_LIMIT {
            return None;
        }
        value = next;
        i += 1;
    }
    assert(all.take(n - start) =~= all);
    if negative {
        Some(-(value as i64))
    } else {
        Some(value as i64)
    }
}

/// A numeral that has been read: its sign, its digits from the most
/// significant on, and how many of them stand behind the decimal point.
pub struct Decimal {
    negative: bool,
    digits: Vec<u8>,
    scale: usize,
}

impl View for Decimal {
    type V = Number;

    closed spec fn view(&self) -> Number {
        Number {
            negative: self.negative,
            magnitude: digits_value(self.digits@),
            scale: self.scale as nat,
        }
    }
}

impl Decimal {
    #[verifier::type_invariant]
    spec fn inv(&self) -> bool {
        all_digits(self.digits@) && self.scale <= self.digits.len()
    }

    /// The digits written out over `whole` places before the point and
    /// `frac` places behind it.
    spec fn written(&self, whole: int, frac: int) -> Seq<u8> {
        padded(self.digits@, self.scale as int, whole, frac)
    }

    /// Reads a numeral. `None` for a text that is not one.
    pub fn parse(text: &Vec<char>) -> (parsed: Option<Decimal>)
        ensures
            match parsed {
                Some(number) => number_of(text@) == Some(number@),
                None => number_of(text@) is None,
            },
    {
        match read_mantissa(text) {
            None => {
                proof {
                    if is_numeral(text@) {
                        let split = split_of(text@);
                        assert(mantissa_at(text@, split.0, split.1));
                    }
                }
                None
            },
            Some((digits, point, mark)) => {
                proof {
                    lemma_split_found(text@, point as int, mark as int);
                }
                let exponent: i64 = if mark < text.len() {
                    match read_exponent(text, mark) {
                        Some(exponent) => exponent,
                        None => {
                            return None;
                        },
                    }
                } else {
                    0
                };
                let negative = text[0] == '-';
                let behind: usize = if point < mark {
                    mark - point - 1
                } else {
                    0
                };
                Some(Decimal::with_exponent(negative, digits, behind, exponent))
            },
        }
    }

    /// The number that digits with `behind` of them behind the decimal
    /// point and an exponent denote.
    fn with_exponent(negative: bool, digits: Vec<u8>, behind: usize, exponent: i64) -> (number:
        Decimal)
        requires
            all_digits(digits@),
            behind <= digits.len(),
            -(EXPONENT_LIMIT as int) <= exponent <= EXPONENT_LIMIT as int,
        ensures
            number@ == scaled(negative, digits_value(digits@), behind as int, exponent as int),
    {
        let ghost mantissa = digits@;
        let shift: i128 = exponent as i128 - behind as i128;
        if shift >= 0 {
            let mut digits = digits;
            let mut added: i128 = 0;
            while added < shift
                invariant
                    0 <= added <= shift,
                    digits@ == mantissa + zeros(added as int),
                decreases shift - added,
            {
                digits.push(0);
                added = added + 1;
                assert(digits@ =~= mantissa + zeros(added as int));
            }
            proof {
                lemma_trailing_zeros(mantissa, shift as int);
            }
            Decimal { negative, digits, scale: 0 }
        } else {
            let scale: i128 = -shift;
            if scale <= digits.len() as i128 {
                Decimal { negative, digits, scale: scale as usize }
            } else {
                let missing: i128 = scale - digits.len() as i128;
                let mut full: Vec<u8> = Vec::new();
                let mut added: i128 = 0;
                while added < missing
                    invariant
                        0 <= added <= missing,
                        full@ == zeros(added as int),
                    decreases missing - added,
                {
                    full.push(0);
                    added = added + 1;
                    assert(full@ =~= zeros(added as int));
                }
                let mut i: usize = 0;
                while i < digits.len()
                    invariant
                        i <= digits.len(),
                        full@ == zeros(missing as int) + mantissa.take(i as int),
                        digits@ == mantissa,
                    decreases digits.len() - i,
                {
                    full.push(digits[i]);
                    i += 1;
                    assert(full@ =~= zeros(missing as int) + mantissa.take(i as int));
                }
                proof {
                    assert(mantissa.take(mantissa.len() as int) =~= mantissa);
                    lemma_leading_zeros(missing as int, mantissa);
                }
                let scale: usize = full.len();
                Decimal { negative, digits: full, scale }
            }
        }
    }

    /// Whether the number is zero.
    fn is_zero(&self) -> (zero: bool)
        ensures
            zero == (self@.magnitude == 0),
    {
        let mut i: usize = 0;
        while i < self.digits.len()
            invariant
                i <= self.digits.len(),
                forall|j: int| 0 <= j < i ==> self.digits[j] == 0,
            decreases self.digits.len() - i,
        {
            if self.digits[i] != 0 {
                proof {
                    lemma_zero_value(self.digits@);
                }
                return false;
            }
            i += 1;
        }
        proof {
            lemma_zero_value(self.digits@);
        }
        true
    }

    /// The digit at place `p` of the `whole` places before the point.
    fn digit_before_point(&self, p: usize, whole: usize) -> (digit: u8)
        requires
            p < whole,
            self.digits.len() - self.scale <= whole,
        ensures
            self.scale <= self.digits.len(),
            digit == if p < whole - (self.digits.len() - self.scale) {
                0u8
            } else {
                self.digits[p - (whole - (self.digits.len() - self.scale))]
            },
    {
        proof {
            use_type_invariant(self);
        }
        let lead: usize = whole - (self.digits.len() - self.scale);
        if p < lead {
            0
        } else {
            self.digits[p - lead]
        }
    }

    /// The digit at place `q` behind the point.
    fn digit_behind_point(&self, q: usize) -> (digit: u8)
        ensures
            self.scale <= self.digits.len(),
            digit == if q < self.scale {
                self.digits[self.digits.len() - self.scale + q]
            } else {
                0u8
            },
    {
        proof {
            use_type_invariant(self);
        }
        if q < self.scale {
            self.digits[self.digits.len() - self.scale + q]
        } else {
            0
        }
    }

    /// The order of two numbers by their places before the point, written
    /// out over `whole` places: -1, 0 or 1 as the first difference says, 0
    /// where there is none.
    fn order_before_point(&self, other: &Decimal, whole: usize, frac: Ghost<int>) -> (order: i8)
        requires
            self.digits.len() - self.scale <= whole,
            other.digits.len() - other.scale <= whole,
            self.scale <= frac@,
            other.scale <= frac@,
        ensures
            -1 <= order <= 1,
            order == 0 ==> self.written(whole as int, frac@).take(whole as int) == other.written(
                whole as int,
                frac@,
            ).take(whole as int),
            order == -1 ==> digits_value(self.written(whole as int, frac@)) < digits_value(
                other.written(whole as int, frac@),
            ),
            order == 1 ==> digits_value(other.written(whole as int, frac@)) < digits_value(
                self.written(whole as int, frac@),
            ),
    {
        let ghost x = self.written(whole as int, frac@);
        let ghost y = other.written(whole as int, frac@);
        proof {
            use_type_invariant(self);
            use_type_invariant(other);
            lemma_padded(self.digits@, self.scale as int, whole as int, frac@);
            lemma_padded(other.digits@, other.scale as int, whole as int, frac@);
            assert(x.take(0) =~= y.take(0));
        }
        let mut p: usize = 0;
        while p < whole
            invariant
                p <= whole,
                x == self.written(whole as int, frac@),
                y == other.written(whole as int, frac@),
                x.len() == whole + frac@,
                y.len() == whole + frac@,
                all_digits(x),
                all_digits(y),
                x.take(p as int) == y.take(p as int),
                self.digits.len() - self.scale <= whole,
                other.digits.len() - other.scale <= whole,
                forall|i: int|
                    0 <= i < whole ==> #[trigger] x[i] == if i < whole - (self.digits.len()
                        - self.scale) {
                        0u8
                    } else {
                        self.digits[i - (whole - (self.digits.len() - self.scale))]
                    },
                forall|i: int|
                    0 <= i < whole ==> #[trigger] y[i] == if i < whole - (other.digits.len()
                        - other.scale) {
                        0u8
                    } else {
                        other.digits[i - (whole - (other.digits.len() - other.scale))]
                    },
            decreases whole - p,
        {
            let own = self.digit_before_point(p, whole);
            let others = other.digit_before_point(p, whole);
            assert(x[p as int] == own && y[p as int] == others);
            if own < others {
                proof {
                    lemma_first_difference(x, y, p as int);
                }
                return -1;
            }
            if own > others {
                proof {
                    lemma_first_difference(y, x, p as int);
                }
                return 1;
            }
            p += 1;
            assert(x.take(p as int) =~= y.take(p as int)) by {
                assert(x.take(p as int) =~= x.take(p - 1).push(x[p - 1]));
                assert(y.take(p as int) =~= y.take(p - 1).push(y[p - 1]));
            }
        }
        0
    }

    /// The order of two numbers that agree before the point by their places
    /// behind it, written out over `frac` places.
    fn order_behind_point(&self, other: &Decimal, whole: Ghost<int>, frac: usize) -> (order: i8)
        requires
            self.digits.len() - self.scale <= whole@,
            other.digits.len() - other.scale <= whole@,
            self.scale <= frac,
            other.scale <= frac,
            self.written(whole@, frac as int).take(whole@) == other.written(
                whole@,
                frac as int,
            ).take(whole@),
        ensures
            -1 <= order <= 1,
            order == 0 ==> digits_value(self.written(whole@, frac as int)) == digits_value(
                other.written(whole@, frac as int),
            ),
            order == -1 ==> digits_value(self.written(whole@, frac as int)) < digits_value(
                other.written(whole@, frac as int),
            ),
            order == 1 ==> digits_value(other.written(whole@, frac as int)) < digits_value(
                self.written(whole@, frac as int),
            ),
    {
        let ghost x = self.written(whole@, frac as int);
        let ghost y = other.written(whole@, frac as int);
        proof {
            use_type_invariant(self);
            use_type_invariant(other);
            lemma_padded(self.digits@, self.scale as int, whole@, frac as int);
            lemma_padded(other.digits@, other.scale as int, whole@, frac as int);
        }
        let mut q: usize = 0;
        while q < frac
            invariant
                q <= frac,
                x == self.written(whole@, frac as int),
                y == other.written(whole@, frac as int),
                x.len() == whole@ + frac,
                y.len() == whole@ + frac,
                0 <= whole@,
                all_digits(x),
                all_digits(y),
                x.take(whole@ + q) == y.take(whole@ + q),
                forall|i: int|
                    0 <= i < frac ==> #[trigger] x[whole@ + i] == if i < self.scale {
                        self.digits[self.digits.len() - self.scale + i]
                    } else {
                        0u8
                    },
                forall|i: int|
                    0 <= i < frac ==> #[trigger] y[whole@ + i] == if i < other.scale {
                        other.digits[other.digits.len() - other.scale + i]
                    } else {
                        0u8
                    },
            decreases frac - q,
        {
            let own = self.digit_behind_point(q);
            let others = other.digit_behind_point(q);
            assert(x[whole@ + q] == own && y[whole@ + q] == others);
            if own < others {
                proof {
                    lemma_first_difference(x, y, whole@ + q);
                }
                return -1;
            }
            if own > others {
                proof {
                    lemma_first_difference(y, x, whole@ + q);
                }
                return 1;
            }
            q += 1;
            assert(x.take(whole@ + q) =~= y.take(whole@ + q)) by {
                assert(x.take(whole@ + q) =~= x.take(whole@ + q - 1).push(x[whole@ + q - 1]));
                assert(y.take(whole@ + q) =~= y.take(whole@ + q - 1).push(y[whole@ + q - 1]));
            }
        }
        assert(x =~= x.take(whole@ + frac) && y =~= y.take(whole@ + frac));
        0
    }

    /// The order of two magnitudes: -1 where that of `self` is the smaller,
    /// 0 where they are equal, 1 where it is the greater.
    fn magnitude_order(&self, other: &Decimal) -> (order: i8)
        ensures
            -1 <= order <= 1,
            order == -1 <==> self@.magnitude * pow10(other@.scale) < other@.magnitude * pow10(
                self@.scale,
            ),
            order == 0 <==> self@.magnitude * pow10(other@.scale) == other@.magnitude * pow10(
                self@.scale,
            ),
    {
        proof {
            use_type_invariant(self);
            use_type_invariant(other);
        }
        let own_whole: usize = self.digits.len() - self.scale;
        let other_whole: usize = other.digits.len() - other.scale;
        let whole: usize = if own_whole > other_whole {
            own_whole
        } else {
            other_whole
        };
        let frac: usize = if self.scale > other.scale {
            self.scale
        } else {
            other.scale
        };
        proof {
            lemma_padded(self.digits@, self.scale as int, whole as int, frac as int);
            lemma_padded(other.digits@, other.scale as int, whole as int, frac as int);
            lemma_common_scale(
                self@.magnitude as int,
                self@.scale,
                other@.magnitude as int,
                other@.scale,
                frac as nat,
            );
        }
        let before = self.order_before_point(other, whole, Ghost(frac as int));
        if before != 0 {
            before
        } else {
            self.order_behind_point(other, Ghost(whole as int), frac)
        }
    }

    /// Whether the value of `self` is at least that of `other`.
    pub fn at_least(&self, other: &Decimal) -> (holds: bool)
        ensures
            holds == number_ge(self@, other@),
    {
        proof {
            lemma_signed_order(self@, other@);
        }
        if self.negative {
            if other.negative {
                self.magnitude_order(other) <= 0
            } else {
                self.is_zero() && other.is_zero()
            }
        } else {
            if other.negative {
                true
            } else {
                self.magnitude_order(other) >= 0
            }
        }
    }
}

} // verus!
