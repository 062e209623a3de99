//! Numbers as the grid keeps and writes them.
//!
//! A length is a whole number of resolution steps: [`Real`] counts steps of
//! one billionth of a unit. Sums, differences and products of such numbers
//! are exact, which is what the topology of a grid is decided on.

use vstd::prelude::*;

verus! {

/// A length, in steps of `1 / RESOLUTION`.
pub type Real = i64;

/// The number of steps in one unit of length.
pub const RESOLUTION: i64 = 1_000_000_000;

/// The number of decimal places that a step resolves.
pub const FRACTION_DIGITS: usize = 9;

/// The largest magnitude of a coordinate, in steps.
///
/// Products of two coordinate differences, summed over a cell, stay inside
/// 128 bits below this bound.
pub const COORD_MAX: i64 = 500_000_000_000_000_000;

/// The byte `+`.
pub const PLUS: u8 = 43;

/// The byte `-`.
pub const MINUS: u8 = 45;

/// The byte `.`.
pub const POINT: u8 = 46;

/// The byte `0`.
pub const DIGIT_ZERO: u8 = 48;

/// The byte `9`.
pub const DIGIT_NINE: u8 = 57;

/// Whether a number of steps is a coordinate that the grid accepts.
pub open spec fn coord_in_range(value: int) -> bool {
    -COORD_MAX <= value <= COORD_MAX
}

/// Ten to the power `e`.
pub open spec fn pow10(e: nat) -> nat
    decreases e,
{
    if e == 0 {
        1
    } else {
        10 * pow10((e - 1) as nat)
    }
}

/// Whether a byte is a decimal digit.
pub open spec fn is_digit(b: u8) -> bool {
    48 <= b <= 57
}

/// Whether every byte of a text is a decimal digit.
pub open spec fn all_digits(s: Seq<u8>) -> bool {
    forall|i: int| 0 <= i < s.len() ==> is_digit(#[trigger] s[i])
}

/// The number that a text of decimal digits denotes; the empty text denotes 0.
pub open spec fn digits_value(s: Seq<u8>) -> nat
    decreases s.len(),
{
    if s.len() == 0 {
        0
    } else {
        (10 * digits_value(s.drop_last()) + (s.last() - 48)) as nat
    }
}

/// The decimal digits of a number, without leading zeros.
pub open spec fn nat_digits(n: nat) -> Seq<u8>
    decreases n,
{
    if n < 10 {
        seq![(48 + n) as u8]
    } else {
        nat_digits(n / 10).push((48 + n % 10) as u8)
    }
}

/// The last `width` decimal digits of a number, with leading zeros.
pub open spec fn padded_digits(n: nat, width: nat) -> Seq<u8>
    decreases width,
{
    if width == 0 {
        Seq::empty()
    } else {
        padded_digits(n / 10, (width - 1) as nat).push((48 + n % 10) as u8)
    }
}

/// What an unsigned decimal text denotes: an optional `+`, then at least one
/// digit, and a value that fits the machine word.
pub open spec fn spec_parse_usize(s: Seq<u8>) -> Option<usize> {
    let body = if s.len() > 0 && s[0] == 43 {
        s.skip(1)
    } else {
        s
    };
    if body.len() > 0 && all_digits(body) && digits_value(body) <= usize::MAX {
        Some(digits_value(body) as usize)
    } else {
        None
    }
}

/// A power of ten is positive.
pub proof fn lemma_pow10_positive(e: nat)
    ensures
        pow10(e) > 0,
    decreases e,
{
    if e > 0 {
        lemma_pow10_positive((e - 1) as nat);
    }
}

/// The power of a sum is the product of the powers.
pub proof fn lemma_pow10_adds(a: nat, b: nat)
    ensures
        pow10(a + b) == pow10(a) * pow10(b),
    decreases a,
{
    if a == 0 {
        assert(pow10(a + b) == 1 * pow10(b));
    } else {
        lemma_pow10_adds((a - 1) as nat, b);
        assert(pow10(a + b) == 10 * pow10((a + b - 1) as nat));
        assert(10 * (pow10((a - 1) as nat) * pow10(b)) == (10 * pow10((a - 1) as nat)) * pow10(b))
            by (nonlinear_arith);
    }
}

/// A text of digits denotes less than ten to the power of its length.
pub proof fn lemma_digits_value_bound(s: Seq<u8>)
    requires
        all_digits(s),
    ensures
        digits_value(s) < pow10(s.len()),
    decreases s.len(),
{
    if s.len() > 0 {
        lemma_digits_value_bound(s.drop_last());
        assert(is_digit(s[s.len() - 1]));
    }
}

/// Appending a digit multiplies the value by ten and adds the digit.
pub proof fn lemma_digits_value_push(s: Seq<u8>, d: u8)
    ensures
        digits_value(s.push(d)) == (10 * digits_value(s) + (d - 48)) as nat,
{
    assert(s.push(d).drop_last() =~= s);
}

/// The value of a concatenation: the first part is shifted by the length of
/// the second.
pub proof fn lemma_digits_value_concat(a: Seq<u8>, b: Seq<u8>)
    requires
        all_digits(b),
    ensures
        digits_value(a + b) == digits_value(a) * pow10(b.len()) + digits_value(b),
    decreases b.len(),
{
    if b.len() == 0 {
        assert(a + b =~= a);
        assert(pow10(0) == 1);
        assert(digits_value(b) == 0);
        assert(digits_value(a) * 1 == digits_value(a));
    } else {
        let b0 = b.drop_last();
        assert(all_digits(b0)) by {
            assert forall|i: int| 0 <= i < b0.len() implies is_digit(#[trigger] b0[i]) by {
                assert(b0[i] == b[i]);
            }
        }
        lemma_digits_value_concat(a, b0);
        assert((a + b).drop_last() =~= a + b0);
        assert((a + b).last() == b.last());
        assert(is_digit(b[b.len() - 1]));
        let x = digits_value(a) as int;
        let p = pow10(b0.len()) as int;
        assert(pow10(b.len()) == 10 * p);
        assert(10 * (x * p) == x * (10 * p)) by (nonlinear_arith);
        assert(digits_value(a + b) == 10 * digits_value(a + b0) + (b.last() - 48));
        assert(digits_value(b) == 10 * digits_value(b0) + (b.last() - 48));
        assert(digits_value(a + b0) == x * p + digits_value(b0));
        assert(x * pow10(b.len()) == x * (10 * p));
    }
}

/// A prefix of a text of digits denotes the value with the later digits
/// cut off.
pub proof fn lemma_digits_value_take(s: Seq<u8>, k: int)
    requires
        all_digits(s),
        0 <= k <= s.len(),
    ensures
        digits_value(s.take(k)) == digits_value(s) / pow10((s.len() - k) as nat),
        digits_value(s.take(k)) <= digits_value(s),
{
    let a = s.take(k);
    let b = s.skip(k);
    assert(a + b =~= s);
    lemma_digits_value_concat(a, b);
    lemma_digits_value_bound(b);
    lemma_pow10_positive(b.len());
    let p = pow10(b.len()) as int;
    let x = digits_value(a) as int;
    let r = digits_value(b) as int;
    assert((x * p + r) / p == x) by (nonlinear_arith)
        requires
            0 <= r < p,
            0 <= x,
    ;
    assert(x * p >= x) by (nonlinear_arith)
        requires
            p >= 1,
            x >= 0,
    ;
}

/// The digits of a number denote that number.
pub proof fn lemma_nat_digits(n: nat)
    ensures
        all_digits(nat_digits(n)),
        nat_digits(n).len() >= 1,
        digits_value(nat_digits(n)) == n,
        n > 0 ==> nat_digits(n)[0] != 48,
    decreases n,
{
    if n < 10 {
        let s = seq![(48 + n) as u8];
        assert(s.drop_last() =~= Seq::<u8>::empty());
        assert(digits_value(s.drop_last()) == 0);
    } else {
        lemma_nat_digits(n / 10);
        lemma_digits_value_push(nat_digits(n / 10), (48 + n % 10) as u8);
    }
}

/// The padded digits of a number are `width` digits that denote the number
/// modulo ten to the power `width`.
pub proof fn lemma_padded_digits(n: nat, width: nat)
    ensures
        all_digits(padded_digits(n, width)),
        padded_digits(n, width).len() == width,
        digits_value(padded_digits(n, width)) == n % pow10(width),
    decreases width,
{
    if width == 0 {
    } else {
        let w = (width - 1) as nat;
        lemma_padded_digits(n / 10, w);
        lemma_digits_value_push(padded_digits(n / 10, w), (48 + n % 10) as u8);
        lemma_pow10_positive(w);
        let p = pow10(w) as int;
        let m = n as int;
        vstd::arithmetic::div_mod::lemma_breakdown(m, 10, p);
    }
}

/// Reads an unsigned decimal number: an optional `+`, then digits.
///
/// `None` is returned for any other text and for a number that does not fit
/// the machine word.
pub fn parse_usize(token: &[u8]) -> (value: Option<usize>)
    ensures
        value == spec_parse_usize(token@),
{
    let n = token.len();
    let start: usize = if n > 0 && token[0] == PLUS {
        1
    } else {
        0
    };
    if start == n {
        return None;
    }
    let ghost body = token@.skip(start as int);
    proof {
        if start == 0 {
            assert(body =~= token@);
        }
        assert(body.take(0) =~= Seq::<u8>::empty());
    }
    let mut acc: usize = 0;
    let mut i: usize = start;
    while i < n
        invariant
            start <= i <= n,
            start < n,
            n == token@.len(),
            body == token@.skip(start as int),
            body == if token@.len() > 0 && token@[0] == 43 {
                token@.skip(1)
            } else {
                token@
            },
            all_digits(body.take(i - start)),
            acc == digits_value(body.take(i - start)),
        decreases n - i,
    {
        let b = token[i];
        let ghost prefix = body.take(i - start);
        let ghost next = body.take(i - start + 1);
        proof {
            assert(next.drop_last() =~= prefix);
            assert(next.last() == b);
            assert(body[i - start] == b);
        }
        if b < DIGIT_ZERO || b > DIGIT_NINE {
            proof {
                assert(!is_digit(body[i - start]));
            }
            return None;
        }
        let d: usize = (b - DIGIT_ZERO) as usize;
        if acc > (usize::MAX - d) / 10 {
            proof {
                assert forall|j: int| 0 <= j < next.len() implies is_digit(#[trigger] next[j]) by {
                    if j < prefix.len() {
                        assert(next[j] == prefix[j]);
                    }
                }
                assert(digits_value(next) > usize::MAX);
                if all_digits(body) {
                    lemma_digits_value_take(body, i - start + 1);
                }
            }
            return None;
        }
        acc = acc * 10 + d;
        proof {
            assert forall|j: int| 0 <= j < next.len() implies is_digit(#[trigger] next[j]) by {
                if j < prefix.len() {
                    assert(next[j] == prefix[j]);
                }
            }
        }
        i = i + 1;
    }
    proof {
        assert(body.take(n - start) =~= body);
    }
    Some(acc)
}

/// Writes an unsigned number in decimal digits, without leading zeros.
pub fn format_u64(value: u64) -> (text: Vec<u8>)
    ensures
        text@ == nat_digits(value as nat),
{
    let mut reversed: Vec<u8> = Vec::new();
    let mut rest: u64 = value;
    while rest >= 10
        invariant
            nat_digits(value as nat) =~= nat_digits(rest as nat) + reversed@.reverse(),
        decreases rest,
    {
        let d: u8 = (rest % 10) as u8;
        let ghost before = reversed@;
        reversed.push(DIGIT_ZERO + d);
        proof {
            assert(reversed@.reverse() =~= seq![(48 + d) as u8] + before.reverse());
        }
        rest = rest / 10;
    }
    reversed.push(DIGIT_ZERO + (rest as u8));
    proof {
        let d = (48 + rest) as u8;
        assert(reversed@.reverse() =~= seq![d] + reversed@.drop_last().reverse());
    }
    reverse_bytes(&reversed)
}

/// Writes an index or a count in decimal digits, without leading zeros.
pub fn format_usize(value: usize) -> (text: Vec<u8>)
    ensures
        text@ == nat_digits(value as nat),
{
    format_u64(value as u64)
}

/// The bytes of a text in the opposite order.
pub fn reverse_bytes(text: &Vec<u8>) -> (reversed: Vec<u8>)
    ensures
        reversed@ == text@.reverse(),
{
    let n = text.len();
    let mut out: Vec<u8> = Vec::with_capacity(n);
    let mut i: usize = 0;
    while i < n
        invariant
            i <= n,
            n == text@.len(),
            out@.len() == i,
            forall|j: int| 0 <= j < i ==> out@[j] == text@[n - 1 - j],
        decreases n - i,
    {
        out.push(text[n - 1 - i]);
        i = i + 1;
    }
    proof {
        assert(out@ =~= text@.reverse());
    }
    out
}

/// Reading back what [`format_usize`] wrote gives the number.
pub proof fn lemma_parse_format_usize(value: usize)
    ensures
        spec_parse_usize(nat_digits(value as nat)) == Some(value),
{
    lemma_nat_digits(value as nat);
    let s = nat_digits(value as nat);
    assert(is_digit(s[0]));
    assert(s[0] != 43);
}

/// Why a decimal text gives no coordinate.
#[derive(Debug, PartialEq, Eq, Clone, Copy, Structural)]
pub enum NumberError {
    /// The text is not a decimal number.
    Malformed,
    /// The number lies beyond [`COORD_MAX`].
    OutOfRange,
}

/// The byte `e`.
pub const LOWER_E: u8 = 101;

/// The byte `E`.
pub const UPPER_E: u8 = 69;

/// Exponents are read up to this magnitude; a larger one acts as this one.
pub const EXPONENT_CAP: i128 = 1_000_000_000_000_000_000_000_000_000_000;

/// Where the run of digits that starts at `from` ends.
pub open spec fn digit_run_end(s: Seq<u8>, from: int) -> int
    decreases s.len() - from,
{
    if 0 <= from < s.len() && is_digit(s[from]) {
        digit_run_end(s, from + 1)
    } else {
        from
    }
}

/// Whether a byte is a sign.
pub open spec fn is_sign(b: u8) -> bool {
    b == 43 || b == 45
}

/// The parts of a decimal text.
pub struct DecimalParts {
    /// Whether the text starts with `-`.
    pub negative: bool,
    /// The digits before the point, followed by those after it.
    pub digits: Seq<u8>,
    /// How many of `digits` stand before the point.
    pub whole_len: nat,
    /// The power of ten after `e`; 0 where the text has none.
    pub exponent: int,
}

/// Takes a decimal text apart: an optional sign; digits with at most one
/// point among them, and at least one digit; then optionally `e` or `E`, an
/// optional sign and at least one digit. `None` for any other text.
pub open spec fn spec_decimal_parts(s: Seq<u8>) -> Option<DecimalParts> {
    let sign_len: int = if s.len() > 0 && is_sign(s[0]) {
        1
    } else {
        0
    };
    let negative = s.len() > 0 && s[0] == 45;
    let whole_end = digit_run_end(s, sign_len);
    let fraction_start = if whole_end < s.len() && s[whole_end] == 46 {
        whole_end + 1
    } else {
        whole_end
    };
    let fraction_end = digit_run_end(s, fraction_start);
    let digits = s.subrange(sign_len, whole_end) + s.subrange(fraction_start, fraction_end);
    let whole_len = (whole_end - sign_len) as nat;
    if digits.len() == 0 {
        None
    } else if fraction_end == s.len() {
        Some(DecimalParts { negative, digits, whole_len, exponent: 0 })
    } else if s[fraction_end] == 101 || s[fraction_end] == 69 {
        let mark = fraction_end + 1;
        let power_start = if mark < s.len() && is_sign(s[mark]) {
            mark + 1
        } else {
            mark
        };
        let power_negative = mark < s.len() && s[mark] == 45;
        let power_end = digit_run_end(s, power_start);
        if power_end == s.len() && power_start < power_end {
            let power = digits_value(s.subrange(power_start, power_end)) as int;
            Some(
                DecimalParts {
                    negative,
                    digits,
                    whole_len,
                    exponent: if power_negative {
                        -power
                    } else {
                        power
                    },
                },
            )
        } else {
            None
        }
    } else {
        None
    }
}

/// The number that the first `keep` of the digits denote; where `keep` is
/// more than there are digits, zeros are supplied.
pub open spec fn leading_value(digits: Seq<u8>, keep: int) -> nat {
    if keep <= 0 {
        0
    } else if keep <= digits.len() {
        digits_value(digits.take(keep))
    } else {
        digits_value(digits) * pow10((keep - digits.len()) as nat)
    }
}

/// The number of whole steps in a decimal number, rounded towards zero: the
/// digits down to the ninth place after the point, the point moved by the
/// exponent.
pub open spec fn decimal_steps(parts: DecimalParts) -> int {
    let magnitude = leading_value(
        parts.digits,
        parts.whole_len + parts.exponent + FRACTION_DIGITS as int,
    );
    if parts.negative {
        -magnitude
    } else {
        magnitude as int
    }
}

/// The coordinate that a decimal text denotes.
#[verifier::opaque]
pub open spec fn spec_parse_decimal(s: Seq<u8>) -> Result<i64, NumberError> {
    match spec_decimal_parts(s) {
        None => Err(NumberError::Malformed),
        Some(parts) => {
            let steps = decimal_steps(parts);
            if coord_in_range(steps) {
                Ok(steps as i64)
            } else {
                Err(NumberError::OutOfRange)
            }
        },
    }
}

/// A text without its trailing zeros.
pub open spec fn trim_trailing_zeros(s: Seq<u8>) -> Seq<u8>
    decreases s.len(),
{
    if s.len() > 0 && s.last() == 48 {
        trim_trailing_zeros(s.drop_last())
    } else {
        s
    }
}

/// The decimal text of a number of steps: a `-` for a negative number, the
/// whole units, and, unless they are all zero, a point and the places after
/// it up to the last that is not zero.
#[verifier::opaque]
pub open spec fn spec_format_decimal(steps: int) -> Seq<u8> {
    let magnitude = if steps < 0 {
        (-steps) as nat
    } else {
        steps as nat
    };
    let whole = magnitude / (RESOLUTION as nat);
    let fraction = magnitude % (RESOLUTION as nat);
    let sign = if steps < 0 {
        seq![45u8]
    } else {
        Seq::<u8>::empty()
    };
    let places = if fraction == 0 {
        Seq::<u8>::empty()
    } else {
        seq![46u8] + trim_trailing_zeros(padded_digits(fraction, FRACTION_DIGITS as nat))
    };
    sign + nat_digits(whole) + places
}

/// The leading value is the number cut off at the place that `keep` names:
/// the whole number divided, or multiplied, by a power of ten.
pub proof fn lemma_leading_value_is_floor(digits: Seq<u8>, keep: int)
    requires
        all_digits(digits),
    ensures
        keep >= digits.len() ==> leading_value(digits, keep) == digits_value(digits) * pow10(
            (keep - digits.len()) as nat,
        ),
        keep <= digits.len() ==> leading_value(digits, keep) == digits_value(digits) / pow10(
            (digits.len() - keep) as nat,
        ),
{
    let len = digits.len() as int;
    if keep <= 0 {
        lemma_digits_value_bound(digits);
        lemma_pow10_positive((len - keep) as nat);
        lemma_pow10_adds(len as nat, (-keep) as nat);
        let v = digits_value(digits) as int;
        let p = pow10(len as nat) as int;
        let q = pow10((-keep) as nat) as int;
        lemma_pow10_positive((-keep) as nat);
        assert(p * q >= p) by (nonlinear_arith)
            requires
                q >= 1,
                p >= 0,
        ;
        assert(v / (p * q) == 0) by (nonlinear_arith)
            requires
                0 <= v < p * q,
        ;
        if keep == 0 && len == 0 {
            assert(pow10(0) == 1);
            assert(v == 0);
            assert(v * 1 == 0);
        }
    } else if keep <= len {
        lemma_digits_value_take(digits, keep);
        if keep == len {
            assert(digits.take(keep) =~= digits);
            assert(pow10(0) == 1);
            assert(digits_value(digits) * 1 == digits_value(digits));
        }
    }
}

/// A run of digits ends where the first byte that is no digit stands, or
/// where the text ends.
proof fn lemma_digit_run(s: Seq<u8>, from: int, end: int)
    requires
        0 <= from <= end <= s.len(),
        forall|i: int| from <= i < end ==> is_digit(#[trigger] s[i]),
        end == s.len() || !is_digit(s[end]),
    ensures
        digit_run_end(s, from) == end,
    decreases end - from,
{
    if from < end {
        assert(is_digit(s[from]));
        lemma_digit_run(s, from + 1, end);
    }
}

/// A run of digits ends within the text, holds digits only, and no digit
/// follows it.
proof fn lemma_digit_run_bounds(s: Seq<u8>, from: int)
    requires
        0 <= from <= s.len(),
    ensures
        from <= digit_run_end(s, from) <= s.len(),
        all_digits(s.subrange(from, digit_run_end(s, from))),
        digit_run_end(s, from) == s.len() || !is_digit(s[digit_run_end(s, from)]),
    decreases s.len() - from,
{
    if from < s.len() && is_digit(s[from]) {
        lemma_digit_run_bounds(s, from + 1);
        let end = digit_run_end(s, from);
        assert forall|i: int| 0 <= i < end - from implies is_digit(
            #[trigger] s.subrange(from, end)[i],
        ) by {
            if i > 0 {
                assert(s.subrange(from, end)[i] == s.subrange(from + 1, end)[i - 1]);
            }
        }
    }
}

/// Walks over the digits that start at `from` and copies them to `out`.
fn scan_digits(token: &[u8], from: usize, out: &mut Vec<u8>) -> (end: usize)
    requires
        from <= token@.len(),
    ensures
        end == digit_run_end(token@, from as int),
        from <= end <= token@.len(),
        final(out)@ == old(out)@ + token@.subrange(from as int, end as int),
        all_digits(token@.subrange(from as int, end as int)),
{
    let n = token.len();
    let mut i: usize = from;
    proof {
        assert(token@.subrange(from as int, from as int) =~= Seq::<u8>::empty());
        assert(out@ + Seq::<u8>::empty() =~= out@);
    }
    while i < n && token[i] >= DIGIT_ZERO && token[i] <= DIGIT_NINE
        invariant
            from <= i <= n,
            n == token@.len(),
            forall|j: int| from <= j < i ==> is_digit(#[trigger] token@[j]),
            out@ == old(out)@ + token@.subrange(from as int, i as int),
        decreases n - i,
    {
        out.push(token[i]);
        proof {
            assert(token@.subrange(from as int, i + 1) =~= token@.subrange(
                from as int,
                i as int,
            ).push(token@[i as int]));
        }
        i = i + 1;
    }
    proof {
        lemma_digit_run(token@, from as int, i as int);
    }
    i
}

/// Walks over the digits that start at `from` and gives their value, or the
/// cap where the value is above it.
fn scan_power(token: &[u8], from: usize) -> (r: (usize, i128))
    requires
        from <= token@.len(),
    ensures
        r.0 == digit_run_end(token@, from as int),
        from <= r.0 <= token@.len(),
        digits_value(token@.subrange(from as int, r.0 as int)) >= EXPONENT_CAP ==> r.1
            == EXPONENT_CAP,
        digits_value(token@.subrange(from as int, r.0 as int)) < EXPONENT_CAP ==> r.1
            == digits_value(token@.subrange(from as int, r.0 as int)),
{
    let n = token.len();
    let mut i: usize = from;
    let mut power: i128 = 0;
    proof {
        assert(token@.subrange(from as int, from as int) =~= Seq::<u8>::empty());
    }
    while i < n && token[i] >= DIGIT_ZERO && token[i] <= DIGIT_NINE
        invariant
            from <= i <= n,
            n == token@.len(),
            forall|j: int| from <= j < i ==> is_digit(#[trigger] token@[j]),
            0 <= power <= EXPONENT_CAP,
            digits_value(token@.subrange(from as int, i as int)) >= EXPONENT_CAP ==> power
                == EXPONENT_CAP,
            digits_value(token@.subrange(from as int, i as int)) < EXPONENT_CAP ==> power
                == digits_value(token@.subrange(from as int, i as int)),
        decreases n - i,
    {
        let d: i128 = (token[i] - DIGIT_ZERO) as i128;
        proof {
            let before = token@.subrange(from as int, i as int);
            let after = token@.subrange(from as int, i + 1);
            assert(after =~= before.push(token@[i as int]));
            lemma_digits_value_push(before, token@[i as int]);
        }
        let next: i128 = power * 10 + d;
        power = if next > EXPONENT_CAP {
            EXPONENT_CAP
        } else {
            next
        };
        i = i + 1;
    }
    proof {
        lemma_digit_run(token@, from as int, i as int);
    }
    (i, power)
}

/// The steps that the first `keep` digits denote, where that is a coordinate.
pub open spec fn spec_leading_steps(digits: Seq<u8>, keep: int) -> Option<i64> {
    if leading_value(digits, keep) <= COORD_MAX {
        Some(leading_value(digits, keep) as i64)
    } else {
        None
    }
}

/// The ninth and the eighteenth power of ten.
proof fn lemma_pow10_18()
    ensures
        pow10(18) == 1_000_000_000_000_000_000,
        pow10(9) == 1_000_000_000,
{
    reveal_with_fuel(pow10, 20);
}

/// A larger power of ten is not smaller.
proof fn lemma_pow10_monotone(a: nat, b: nat)
    requires
        a <= b,
    ensures
        pow10(a) <= pow10(b),
    decreases b - a,
{
    if a < b {
        lemma_pow10_monotone(a, (b - 1) as nat);
    }
}

/// Far enough beyond the last digit, every `keep` gives the same answer:
/// zero for digits that are all zero, and no coordinate otherwise.
proof fn lemma_leading_steps_saturates(digits: Seq<u8>, keep1: int, keep2: int)
    requires
        all_digits(digits),
        digits.len() + 18 <= keep1 <= keep2,
    ensures
        spec_leading_steps(digits, keep1) == spec_leading_steps(digits, keep2),
{
    let v = digits_value(digits) as int;
    let near = pow10((keep1 - digits.len()) as nat) as int;
    let far = pow10((keep2 - digits.len()) as nat) as int;
    lemma_pow10_18();
    lemma_pow10_monotone(18, (keep1 - digits.len()) as nat);
    lemma_pow10_monotone(18, (keep2 - digits.len()) as nat);
    if v == 0 {
        assert(v * near == 0) by (nonlinear_arith)
            requires
                v == 0,
        ;
        assert(v * far == 0) by (nonlinear_arith)
            requires
                v == 0,
        ;
    } else {
        assert(v * near >= near) by (nonlinear_arith)
            requires
                v >= 1,
                near >= 0,
        ;
        assert(v * far >= far) by (nonlinear_arith)
            requires
                v >= 1,
                far >= 0,
        ;
    }
}

/// Computes the steps that the first `keep` digits denote.
fn leading_steps(digits: &Vec<u8>, keep: i128) -> (steps: Option<i64>)
    requires
        all_digits(digits@),
    ensures
        steps == spec_leading_steps(digits@, keep as int),
{
    if keep <= 0 {
        return Some(0);
    }
    let len = digits.len();
    let take: usize = if keep <= len as i128 {
        keep as usize
    } else {
        len
    };
    let mut acc: i64 = 0;
    let mut i: usize = 0;
    proof {
        assert(digits@.take(0) =~= Seq::<u8>::empty());
    }
    while i < take
        invariant
            i <= take <= len,
            len == digits@.len(),
            all_digits(digits@),
            0 <= acc <= COORD_MAX,
            acc == digits_value(digits@.take(i as int)),
            0 < keep,
            take == if keep <= len { keep as int } else { len as int },
        decreases take - i,
    {
        let d: i64 = (digits[i] - DIGIT_ZERO) as i64;
        proof {
            assert(is_digit(digits@[i as int]));
            assert(digits@.take(i + 1) =~= digits@.take(i as int).push(digits@[i as int]));
            lemma_digits_value_push(digits@.take(i as int), digits@[i as int]);
        }
        if acc > (COORD_MAX - d) / 10 {
            proof {
                let part = digits@.take(i + 1);
                assert(digits_value(part) > COORD_MAX);
                lemma_digits_value_take(digits@, i + 1);
                if keep <= len {
                    let kept = digits@.take(keep as int);
                    assert(kept.take(i + 1) =~= part);
                    assert(all_digits(kept));
                    lemma_digits_value_take(kept, i + 1);
                } else {
                    let p = pow10((keep - len) as nat) as int;
                    let v = digits_value(digits@) as int;
                    lemma_pow10_positive((keep - len) as nat);
                    assert(v * p >= v) by (nonlinear_arith)
                        requires
                            p >= 1,
                            v >= 0,
                    ;
                }
            }
            return None;
        }
        acc = acc * 10 + d;
        i = i + 1;
    }
    if keep <= len as i128 {
        return Some(acc);
    }
    proof {
        assert(digits@.take(len as int) =~= digits@);
    }
    if acc == 0 {
        proof {
            let p = pow10((keep - len) as nat) as int;
            let v = digits_value(digits@) as int;
            assert(v * p == 0) by (nonlinear_arith)
                requires
                    v == 0,
            ;
        }
        return Some(0);
    }
    let ghost value = acc as int;
    let mut left: i128 = keep - len as i128;
    proof {
        assert(pow10(0) == 1);
        assert(value * 1 == value);
    }
    while left > 0
        invariant
            0 <= left <= keep - len,
            len == digits@.len(),
            1 <= acc <= COORD_MAX,
            value >= 1,
            value == digits_value(digits@),
            acc == value * pow10((keep - len - left) as nat),
        decreases left,
    {
        let ghost done = (keep - len - left) as nat;
        if acc > COORD_MAX / 10 {
            proof {
                let p = pow10(done) as int;
                let rest = pow10((left - 1) as nat) as int;
                lemma_pow10_adds(done + 1, (left - 1) as nat);
                lemma_pow10_positive((left - 1) as nat);
                lemma_pow10_positive(done);
                assert(pow10(done + 1) == 10 * p);
                assert(value * (10 * p * rest) >= 10 * (value * p)) by (nonlinear_arith)
                    requires
                        rest >= 1,
                        value >= 1,
                        p >= 1,
                ;
                assert((keep - len) as nat == done + 1 + (left - 1) as nat);
            }
            return None;
        }
        proof {
            let p = pow10(done) as int;
            assert(pow10(done + 1) == 10 * p);
            assert(value * (10 * p) == 10 * (value * p)) by (nonlinear_arith);
            lemma_pow10_positive(done);
        }
        acc = acc * 10;
        left = left - 1;
    }
    Some(acc)
}

/// Reads a coordinate from its decimal text.
///
/// The text is an optional sign, digits with at most one point among them,
/// and optionally an exponent after `e` or `E`. The number is rounded towards
/// zero to a whole number of steps. Any other text is `Malformed`; a number
/// beyond [`COORD_MAX`] is `OutOfRange`.
#[verifier::rlimit(60)]
pub fn parse_decimal(token: &[u8]) -> (value: Result<i64, NumberError>)
    ensures
        value == spec_parse_decimal(token@),
{
    proof {
        reveal(spec_parse_decimal);
    }
    let n = token.len();
    let sign_len: usize = if n > 0 && (token[0] == PLUS || token[0] == MINUS) {
        1
    } else {
        0
    };
    let negative = n > 0 && token[0] == MINUS;
    let mut digits: Vec<u8> = Vec::new();
    let whole_end = scan_digits(token, sign_len, &mut digits);
    let fraction_start: usize = if whole_end < n && token[whole_end] == POINT {
        whole_end + 1
    } else {
        whole_end
    };
    let fraction_end = scan_digits(token, fraction_start, &mut digits);
    let whole_len = whole_end - sign_len;
    proof {
        let d = token@.subrange(sign_len as int, whole_end as int) + token@.subrange(
            fraction_start as int,
            fraction_end as int,
        );
        assert(digits@ =~= d);
        assert forall|i: int| 0 <= i < d.len() implies is_digit(#[trigger] d[i]) by {
            if i < whole_len {
                assert(d[i] == token@.subrange(sign_len as int, whole_end as int)[i]);
            } else {
                assert(d[i] == token@.subrange(fraction_start as int, fraction_end as int)[i
                    - whole_len]);
            }
        }
    }
    if digits.len() == 0 {
        return Err(NumberError::Malformed);
    }
    let mut exponent: i128 = 0;
    let ghost mut true_exponent: int = 0;
    if fraction_end < n {
        if token[fraction_end] != LOWER_E && token[fraction_end] != UPPER_E {
            return Err(NumberError::Malformed);
        }
        let mark = fraction_end + 1;
        let power_start: usize = if mark < n && (token[mark] == PLUS || token[mark] == MINUS) {
            mark + 1
        } else {
            mark
        };
        let power_negative = mark < n && token[mark] == MINUS;
        let (power_end, power) = scan_power(token, power_start);
        if power_end != n || power_start == power_end {
            return Err(NumberError::Malformed);
        }
        exponent = if power_negative {
            -power
        } else {
            power
        };
        proof {
            let p = digits_value(token@.subrange(power_start as int, power_end as int)) as int;
            true_exponent = if power_negative {
                -p
            } else {
                p
            };
        }
    }
    let keep: i128 = whole_len as i128 + exponent + FRACTION_DIGITS as i128;
    let steps = leading_steps(&digits, keep);
    proof {
        let parts = spec_decimal_parts(token@).unwrap();
        assert(parts.digits == digits@);
        assert(parts.exponent == true_exponent);
        let true_keep = whole_len + true_exponent + 9;
        if true_exponent >= EXPONENT_CAP {
            lemma_leading_steps_saturates(digits@, keep as int, true_keep);
        } else if true_exponent <= -EXPONENT_CAP {
            assert(keep <= 0 && true_keep <= 0);
        } else {
            assert(keep == true_keep);
        }
        assert(spec_leading_steps(digits@, true_keep) == steps);
    }
    match steps {
        None => Err(NumberError::OutOfRange),
        Some(magnitude) => Ok(
            if negative {
                -magnitude
            } else {
                magnitude
            },
        ),
    }
}

/// Appends the bytes of `tail` to `text`.
pub fn append_bytes(text: &mut Vec<u8>, tail: &[u8])
    ensures
        final(text)@ == old(text)@ + tail@,
{
    let n = tail.len();
    let mut i: usize = 0;
    proof {
        assert(tail@.take(0) =~= Seq::<u8>::empty());
        assert(text@ + Seq::<u8>::empty() =~= text@);
    }
    while i < n
        invariant
            i <= n,
            n == tail@.len(),
            text@ == old(text)@ + tail@.take(i as int),
        decreases n - i,
    {
        text.push(tail[i]);
        proof {
            assert(tail@.take(i + 1) =~= tail@.take(i as int).push(tail@[i as int]));
        }
        i = i + 1;
    }
    proof {
        assert(tail@.take(n as int) =~= tail@);
    }
}

/// Writes a coordinate in decimal: whole units, then the places after the
/// point up to the last that is not zero.
pub fn format_decimal(value: i64) -> (text: Vec<u8>)
    ensures
        text@ == spec_format_decimal(value as int),
{
    proof {
        reveal(spec_format_decimal);
    }
    let magnitude: u64 = if value < 0 {
        (-(value + 1)) as u64 + 1
    } else {
        value as u64
    };
    let whole: u64 = magnitude / 1_000_000_000;
    let fraction: u64 = magnitude % 1_000_000_000;
    let mut text: Vec<u8> = Vec::new();
    if value < 0 {
        text.push(MINUS);
    }
    let whole_text = format_u64(whole);
    append_bytes(&mut text, whole_text.as_slice());
    if fraction != 0 {
        let ghost padded = padded_digits(fraction as nat, 9);
        let mut places: Vec<u8> = Vec::new();
        let mut rest: u64 = fraction;
        let mut k: usize = 0;
        while k < 9
            invariant
                k <= 9,
                padded == padded_digits(fraction as nat, 9),
                places@.len() == 0 ==> trim_trailing_zeros(padded) == trim_trailing_zeros(
                    padded_digits(rest as nat, (9 - k) as nat),
                ),
                places@.len() > 0 ==> trim_trailing_zeros(padded) =~= padded_digits(
                    rest as nat,
                    (9 - k) as nat,
                ) + places@.reverse(),
            decreases 9 - k,
        {
            let d: u8 = (rest % 10) as u8;
            let ghost shorter = padded_digits((rest / 10) as nat, (9 - k - 1) as nat);
            let ghost before = places@;
            proof {
                assert(padded_digits(rest as nat, (9 - k) as nat) == shorter.push((48 + d) as u8));
                assert(shorter.push((48 + d) as u8).drop_last() =~= shorter);
            }
            if places.len() > 0 || d != 0 {
                places.push(DIGIT_ZERO + d);
                proof {
                    assert(places@.reverse() =~= seq![(48 + d) as u8] + before.reverse());
                    if before.len() == 0 {
                        assert(before.reverse() =~= Seq::<u8>::empty());
                    }
                }
            }
            rest = rest / 10;
            k = k + 1;
        }
        proof {
            assert(padded_digits(rest as nat, 0) =~= Seq::<u8>::empty());
            if places@.len() == 0 {
                assert(places@.reverse() =~= Seq::<u8>::empty());
            }
        }
        text.push(POINT);
        let ordered = reverse_bytes(&places);
        append_bytes(&mut text, ordered.as_slice());
        proof {
            let t = trim_trailing_zeros(padded);
            assert(ordered@ =~= t);
            assert(text@ =~= spec_format_decimal(value as int));
        }
    } else {
        proof {
            assert(text@ =~= spec_format_decimal(value as int));
        }
    }
    text
}

/// Cutting trailing zeros off digits divides their value by a power of ten.
pub proof fn lemma_trim_trailing_zeros(s: Seq<u8>)
    requires
        all_digits(s),
    ensures
        all_digits(trim_trailing_zeros(s)),
        trim_trailing_zeros(s).len() <= s.len(),
        digits_value(s) == digits_value(trim_trailing_zeros(s)) * pow10(
            (s.len() - trim_trailing_zeros(s).len()) as nat,
        ),
    decreases s.len(),
{
    if s.len() > 0 && s.last() == 48 {
        let shorter = s.drop_last();
        assert(all_digits(shorter)) by {
            assert forall|i: int| 0 <= i < shorter.len() implies is_digit(#[trigger] shorter[i]) by {
                assert(shorter[i] == s[i]);
            }
        }
        lemma_trim_trailing_zeros(shorter);
        let t = trim_trailing_zeros(shorter);
        let x = digits_value(t) as int;
        let p = pow10((shorter.len() - t.len()) as nat) as int;
        assert(pow10((s.len() - t.len()) as nat) == 10 * p);
        assert(10 * (x * p) == x * (10 * p)) by (nonlinear_arith);
    } else {
        assert(pow10(0) == 1);
        assert(digits_value(s) * 1 == digits_value(s));
    }
}

/// Reading back what [`format_decimal`] wrote gives the coordinate.
pub proof fn lemma_parse_format_decimal(steps: int)
    requires
        coord_in_range(steps),
    ensures
        spec_parse_decimal(spec_format_decimal(steps)) == Ok::<i64, NumberError>(steps as i64),
{
    reveal(spec_parse_decimal);
    reveal(spec_format_decimal);
    let magnitude: nat = if steps < 0 {
        (-steps) as nat
    } else {
        steps as nat
    };
    let whole = magnitude / (RESOLUTION as nat);
    let fraction = magnitude % (RESOLUTION as nat);
    let sign = if steps < 0 {
        seq![45u8]
    } else {
        Seq::<u8>::empty()
    };
    let w = nat_digits(whole);
    let padded = padded_digits(fraction, 9);
    let t = if fraction == 0 {
        Seq::<u8>::empty()
    } else {
        trim_trailing_zeros(padded)
    };
    let places = if fraction == 0 {
        Seq::<u8>::empty()
    } else {
        seq![46u8] + t
    };
    let text = sign + w + places;
    assert(text == spec_format_decimal(steps));
    lemma_nat_digits(whole);
    lemma_padded_digits(fraction, 9);
    lemma_pow10_18();
    if fraction != 0 {
        lemma_trim_trailing_zeros(padded);
    }
    let sign_len = sign.len() as int;
    let whole_end = sign_len + w.len();
    assert(is_digit(w[0]));
    assert(text[sign_len] == w[0]);
    assert forall|i: int| sign_len <= i < whole_end implies is_digit(#[trigger] text[i]) by {
        assert(text[i] == w[i - sign_len]);
    }
    if fraction != 0 {
        assert(text[whole_end] == 46);
    }
    lemma_digit_run(text, sign_len, whole_end);
    let fraction_start = if fraction == 0 {
        whole_end
    } else {
        whole_end + 1
    };
    assert forall|i: int| fraction_start <= i < text.len() implies is_digit(#[trigger] text[i]) by {
        assert(text[i] == t[i - fraction_start]);
    }
    lemma_digit_run(text, fraction_start, text.len() as int);
    let digits = text.subrange(sign_len, whole_end) + text.subrange(
        fraction_start,
        text.len() as int,
    );
    assert(text.subrange(sign_len, whole_end) =~= w);
    assert(text.subrange(fraction_start, text.len() as int) =~= t);
    assert(digits =~= w + t);
    let parts = DecimalParts { negative: steps < 0, digits, whole_len: w.len(), exponent: 0 };
    assert(spec_decimal_parts(text) == Some(parts));
    let keep = w.len() + 9;
    lemma_digits_value_concat(w, t);
    assert(all_digits(t));
    let x = whole as int;
    let pt = pow10(t.len()) as int;
    let pr = pow10((9 - t.len()) as nat) as int;
    lemma_pow10_adds(t.len(), (9 - t.len()) as nat);
    assert(pt * pr == 1_000_000_000);
    let f = digits_value(t) as int;
    if fraction != 0 {
        assert(f * pr == fraction);
    } else {
        assert(f == 0);
        assert(f * pr == 0) by (nonlinear_arith)
            requires
                f == 0,
        ;
    }
    let big = pt * pr;
    assert((x * pt + f) * pr == x * big + f * pr) by (nonlinear_arith)
        requires
            big == pt * pr,
    ;
    assert(x * big == x * 1_000_000_000) by (nonlinear_arith)
        requires
            big == 1_000_000_000,
    ;
    assert(f * pr == fraction);
    vstd::arithmetic::div_mod::lemma_fundamental_div_mod(magnitude as int, 1_000_000_000);
    assert(magnitude == 1_000_000_000 * whole + fraction);
    assert(digits.len() == w.len() + t.len());
    assert(digits_value(digits) == x * pt + f);
    if t.len() == 9 {
        assert(keep == digits.len());
        assert(digits.take(keep as int) =~= digits);
        assert(pow10(0) == 1);
        assert(pr == 1);
        assert((x * pt + f) * pr == x * pt + f) by (nonlinear_arith)
            requires
                pr == 1,
        ;
        assert(leading_value(digits, keep as int) == digits_value(digits));
    } else {
        assert(keep > digits.len());
        assert((keep - digits.len()) as nat == (9 - t.len()) as nat);
        assert(leading_value(digits, keep as int) == digits_value(digits) * pow10(
            (9 - t.len()) as nat,
        ));
    }
    assert(leading_value(digits, keep as int) == magnitude);
}

/// Whether a byte can stand in the decimal text of a number: a digit, `-`
/// or `.`.
pub open spec fn is_number_byte(b: u8) -> bool {
    is_digit(b) || b == 45 || b == 46
}

/// Cutting trailing zeros off digits leaves digits.
pub proof fn lemma_trimmed_digits(s: Seq<u8>)
    requires
        all_digits(s),
    ensures
        all_digits(trim_trailing_zeros(s)),
    decreases s.len(),
{
    lemma_trim_trailing_zeros(s);
}

/// The decimal text of a number of steps has a byte, and all its bytes are
/// digits, `-` or `.`.
pub proof fn lemma_format_decimal_bytes(steps: int)
    ensures
        spec_format_decimal(steps).len() >= 1,
        forall|i: int|
            0 <= i < spec_format_decimal(steps).len() ==> is_number_byte(
                #[trigger] spec_format_decimal(steps)[i],
            ),
{
    reveal(spec_format_decimal);
    let magnitude: nat = if steps < 0 {
        (-steps) as nat
    } else {
        steps as nat
    };
    let whole = magnitude / (RESOLUTION as nat);
    let fraction = magnitude % (RESOLUTION as nat);
    let sign = if steps < 0 {
        seq![45u8]
    } else {
        Seq::<u8>::empty()
    };
    let w = nat_digits(whole);
    let padded = padded_digits(fraction, 9);
    lemma_nat_digits(whole);
    lemma_padded_digits(fraction, 9);
    lemma_trimmed_digits(padded);
    let t = trim_trailing_zeros(padded);
    let places = if fraction == 0 {
        Seq::<u8>::empty()
    } else {
        seq![46u8] + t
    };
    let text = sign + w + places;
    assert(text == spec_format_decimal(steps));
    assert forall|i: int| 0 <= i < text.len() implies is_number_byte(#[trigger] text[i]) by {
        if i < sign.len() {
            assert(text[i] == 45);
        } else if i < sign.len() + w.len() {
            assert(text[i] == w[i - sign.len()]);
            assert(is_digit(w[i - sign.len()]));
        } else {
            let k = i - sign.len() - w.len();
            assert(text[i] == places[k]);
            if k > 0 {
                assert(places[k] == t[k - 1]);
                assert(is_digit(t[k - 1]));
            }
        }
    }
}

} // verus!
