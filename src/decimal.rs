//! The scalar coercion rule: a quoted decimal literal turned into an exact
//! decimal value.
//!
//! The export writes some numbers as JSON strings. A string is accepted when it
//! is an optional sign, then digits with an optional fractional part (`4`,
//! `4.0`, `-0.5`, `4.`, `.5`), and its magnitude is below 2^1024 - 2^970: the
//! values that round to a finite double, rounding to nearest.
use vstd::prelude::*;
use vstd::arithmetic::power2::{lemma2_to64, lemma2_to64_rest, lemma_pow2_adds, pow2};
use crate::json::{type_of, JsonType, JsonValue};

verus! {

broadcast use vstd::string::group_string_axioms;

const PLUS_SIGN: u8 = 43;
const MINUS_SIGN: u8 = 45;
const DECIMAL_POINT: u8 = 46;
const DIGIT_ZERO: u8 = 48;
const DIGIT_NINE: u8 = 57;
/// 2^54 - 1: `finite_limit()` is this many times 2^970.
const LIMIT_HIGH: u64 = 18014398509481983;
const LIMIT_SHIFT: usize = 970;

pub open spec fn is_decimal_digit(c: char) -> bool {
    '0' <= c && c <= '9'
}

pub open spec fn all_digits(s: Seq<char>) -> bool {
    forall|i: int| 0 <= i < s.len() ==> is_decimal_digit(#[trigger] s[i])
}

/// 1 where the literal starts with `+` or `-`, else 0.
pub open spec fn sign_len(s: Seq<char>) -> int {
    if s.len() > 0 && (s[0] == '+' || s[0] == '-') {
        1
    } else {
        0
    }
}

/// The literal without its sign.
pub open spec fn unsigned_text(s: Seq<char>) -> Seq<char> {
    s.skip(sign_len(s))
}

pub open spec fn has_point(u: Seq<char>) -> bool {
    exists|p: int| 0 <= p < u.len() && u[p] == '.'
}

/// Where the decimal point stands, or the length where there is none.
pub open spec fn point_index(u: Seq<char>) -> int {
    if has_point(u) {
        choose|p: int| 0 <= p < u.len() && u[p] == '.'
    } else {
        u.len() as int
    }
}

/// The digits before the decimal point.
pub open spec fn integer_text(s: Seq<char>) -> Seq<char> {
    unsigned_text(s).take(point_index(unsigned_text(s)))
}

/// The digits after the decimal point.
pub open spec fn fraction_text(s: Seq<char>) -> Seq<char> {
    let u = unsigned_text(s);
    if has_point(u) {
        u.skip(point_index(u) + 1)
    } else {
        Seq::empty()
    }
}

/// `s` is a decimal literal: a sign, digits, at most one point, and at least
/// one digit.
pub open spec fn is_float_literal(s: Seq<char>) -> bool {
    &&& all_digits(integer_text(s))
    &&& all_digits(fraction_text(s))
    &&& integer_text(s).len() + fraction_text(s).len() > 0
}

pub open spec fn digit_value(c: char) -> u8 {
    (c as u32 - '0' as u32) as u8
}

pub open spec fn digits_of(t: Seq<char>) -> Seq<u8> {
    t.map_values(|c: char| digit_value(c))
}

pub open spec fn pow10(n: nat) -> nat
    decreases n,
{
    if n == 0 {
        1
    } else {
        10 * pow10((n - 1) as nat)
    }
}

/// The number that a sequence of digit values writes in base ten.
pub open spec fn digits_value(d: Seq<u8>) -> nat
    decreases d.len(),
{
    if d.len() == 0 {
        0
    } else {
        d[0] as nat * pow10((d.len() - 1) as nat) + digits_value(d.skip(1))
    }
}

pub open spec fn literal_is_negative(s: Seq<char>) -> bool {
    s.len() > 0 && s[0] == '-'
}

/// All digits of the literal, the point left out.
pub open spec fn literal_digits(s: Seq<char>) -> Seq<u8> {
    digits_of(integer_text(s) + fraction_text(s))
}

/// The literal's value is `literal_numerator(s) / 10^literal_scale(s)`.
pub open spec fn literal_numerator(s: Seq<char>) -> int {
    let m = digits_value(literal_digits(s)) as int;
    if literal_is_negative(s) {
        -m
    } else {
        m
    }
}

pub open spec fn literal_scale(s: Seq<char>) -> nat {
    fraction_text(s).len()
}

/// 2^1024 - 2^970, the least magnitude that rounds to an infinite double
/// (ties go to the even neighbour, and the largest finite double is odd).
pub open spec fn finite_limit() -> nat {
    (pow2(1024) - pow2(970)) as nat
}

/// The literal's magnitude is below `finite_limit()`, so it rounds to a finite
/// double.
pub open spec fn in_double_range(s: Seq<char>) -> bool {
    digits_value(literal_digits(s)) < finite_limit() * pow10(literal_scale(s))
}

/// The strings that the coercion rule accepts.
pub open spec fn is_accepted_number(s: Seq<char>) -> bool {
    is_float_literal(s) && in_double_range(s)
}

/// An exact decimal number read from a quoted literal.
///
/// Its value is `numerator() / 10^scale`; `literal` is the text it was read
/// from, which a consumer can hand to a floating-point parser.
#[derive(Debug, Clone)]
pub struct Decimal {
    pub negative: bool,
    /// Digit values (0 to 9), the integer part then the fractional part.
    pub digits: Vec<u8>,
    /// How many of `digits` follow the decimal point.
    pub scale: usize,
    pub literal: String,
}

impl Decimal {
    pub open spec fn numerator(&self) -> int {
        let m = digits_value(self.digits@) as int;
        if self.negative {
            -m
        } else {
            m
        }
    }

    /// The parts agree with the literal they were read from.
    pub open spec fn wf(&self) -> bool {
        &&& is_accepted_number(self.literal@)
        &&& self.negative == literal_is_negative(self.literal@)
        &&& self.digits@ == literal_digits(self.literal@)
        &&& self.scale == literal_scale(self.literal@)
    }

    /// The text this number was read from.
    pub fn as_str(&self) -> (r: &str)
        ensures
            r@ == self.literal@,
    {
        self.literal.as_str()
    }
}

/// Why a value could not be coerced to a number.
#[derive(Debug, Clone)]
pub enum CoercionError {
    /// The value is not a JSON string; its kind is given.
    NotAString(JsonType),
    /// The string is not a decimal literal in range; the string is given.
    NotNumeric(String),
}

proof fn lemma_pow10_positive(n: nat)
    ensures
        pow10(n) >= 1,
    decreases n,
{
    if n > 0 {
        lemma_pow10_positive((n - 1) as nat);
    }
}

proof fn lemma_digits_value_below(d: Seq<u8>)
    requires
        forall|i: int| 0 <= i < d.len() ==> #[trigger] d[i] < 10,
    ensures
        digits_value(d) < pow10(d.len()),
    decreases d.len(),
{
    if d.len() > 0 {
        let rest = d.skip(1);
        assert forall|i: int| 0 <= i < rest.len() implies #[trigger] rest[i] < 10 by {
            assert(rest[i] == d[i + 1]);
        }
        lemma_digits_value_below(rest);
        let p = pow10((d.len() - 1) as nat);
        assert(d[0] as nat * p <= 9 * p) by (nonlinear_arith)
            requires
                d[0] < 10,
        ;
    }
}

proof fn lemma_pow10_adds(a: nat, b: nat)
    ensures
        pow10(a + b) == pow10(a) * pow10(b),
    decreases a,
{
    if a > 0 {
        let a1 = (a - 1) as nat;
        lemma_pow10_adds(a1, b);
        assert(((a + b) - 1) as nat == a1 + b);
        assert(pow10(a + b) == 10 * pow10(a1 + b));
        assert(pow10(a) == 10 * pow10(a1));
        assert(10 * (pow10(a1) * pow10(b)) == (10 * pow10(a1)) * pow10(b)) by (nonlinear_arith);
    } else {
        assert(pow10(0) == 1);
        assert(a + b == b);
    }
}

/// Writing `b` after `a` shifts `a` by the length of `b`.
proof fn lemma_digits_value_split(a: Seq<u8>, b: Seq<u8>)
    ensures
        digits_value(a + b) == digits_value(a) * pow10(b.len()) + digits_value(b),
    decreases a.len(),
{
    if a.len() == 0 {
        assert(a + b =~= b);
        assert(digits_value(a) == 0);
    } else {
        let rest = a.skip(1);
        assert((a + b).skip(1) =~= rest + b);
        assert((a + b)[0] == a[0]);
        assert((a + b).len() == a.len() + b.len());
        lemma_digits_value_split(rest, b);
        lemma_pow10_adds((a.len() - 1) as nat, b.len());
        assert(((a + b).len() - 1) as nat == (a.len() - 1) as nat + b.len());
        assert(digits_value(a + b) == a[0] as nat * pow10(((a.len() - 1) as nat + b.len()) as nat)
            + digits_value(rest + b));
        let p = pow10((a.len() - 1) as nat);
        let q = pow10(b.len());
        assert(a[0] as nat * (p * q) + digits_value(rest) * q + digits_value(b) == (a[0] as nat * p
            + digits_value(rest)) * q + digits_value(b)) by (nonlinear_arith);
    }
}

proof fn lemma_digits_value_push(a: Seq<u8>, x: u8)
    ensures
        digits_value(a.push(x)) == digits_value(a) * 10 + x,
{
    let one = Seq::<u8>::empty().push(x);
    lemma_digits_value_split(a, one);
    assert(a + one =~= a.push(x));
    assert(one.skip(1) =~= Seq::<u8>::empty());
    assert(pow10(0) == 1);
    assert(pow10(1) == 10 * pow10(0));
    assert(one.len() == 1 && one[0] == x);
    assert(digits_value(Seq::<u8>::empty()) == 0);
    assert(digits_value(one) == x as nat * pow10(0) + digits_value(one.skip(1)));
    assert(digits_value(one) == x);
}

/// A literal is below `limit` times its scale exactly when its integer part
/// is below `limit`.
proof fn lemma_integer_part_decides(int_digits: Seq<u8>, frac_digits: Seq<u8>, limit: nat)
    requires
        forall|i: int| 0 <= i < frac_digits.len() ==> #[trigger] frac_digits[i] < 10,
    ensures
        digits_value(int_digits + frac_digits) < limit * pow10(frac_digits.len()) <==> digits_value(
            int_digits,
        ) < limit,
{
    lemma_digits_value_split(int_digits, frac_digits);
    lemma_digits_value_below(frac_digits);
    let i = digits_value(int_digits);
    let f = digits_value(frac_digits);
    let p = pow10(frac_digits.len());
    if i < limit {
        assert(i * p + f < limit * p) by (nonlinear_arith)
            requires
                i + 1 <= limit,
                f < p,
        ;
    } else {
        assert(i * p + f >= limit * p) by (nonlinear_arith)
            requires
                i >= limit,
        ;
    }
}

/// Halves the number that the first `n` digits of `v` write, rounding down;
/// also gives the remainder.
fn halve(v: &Vec<u8>, n: usize) -> (r: (Vec<u8>, u8))
    requires
        n <= v@.len(),
        forall|i: int| 0 <= i < n ==> #[trigger] v@[i] < 10,
    ensures
        r.0@.len() == n,
        forall|i: int| 0 <= i < n ==> #[trigger] r.0@[i] < 10,
        r.1 < 2,
        digits_value(v@.take(n as int)) == 2 * digits_value(r.0@) + r.1,
{
    let mut out: Vec<u8> = Vec::new();
    let mut rem: u8 = 0;
    let mut i: usize = 0;
    while i < n
        invariant
            n <= v@.len(),
            forall|j: int| 0 <= j < n ==> #[trigger] v@[j] < 10,
            i <= n,
            out@.len() == i,
            forall|j: int| 0 <= j < i ==> #[trigger] out@[j] < 10,
            rem < 2,
            digits_value(v@.take(i as int)) == 2 * digits_value(out@) + rem,
        decreases n - i,
    {
        let d = v[i];
        let cur: u8 = rem * 10 + d;
        proof {
            assert(v@.take(i + 1) =~= v@.take(i as int).push(d));
            lemma_digits_value_push(v@.take(i as int), d);
            lemma_digits_value_push(out@, cur / 2);
        }
        out.push(cur / 2);
        rem = cur % 2;
        i = i + 1;
    }
    (out, rem)
}

/// Whether the first `n` digits of `v` write a number below `finite_limit()`.
///
/// The number is halved `LIMIT_SHIFT` times, and what is left is compared
/// with `LIMIT_HIGH`.
fn below_finite_limit(v: &Vec<u8>, n: usize) -> (r: bool)
    requires
        n <= v@.len(),
        forall|i: int| 0 <= i < n ==> #[trigger] v@[i] < 10,
    ensures
        r == (digits_value(v@.take(n as int)) < finite_limit()),
{
    let ghost whole = digits_value(v@.take(n as int));
    let (first, r0) = halve(v, n);
    let mut q = first;
    let ghost mut rem: nat = r0 as nat;
    let mut k: usize = 1;
    proof {
        lemma2_to64();
        assert(v@.take(n as int).len() == n);
    }
    while k < LIMIT_SHIFT
        invariant
            q@.len() == n,
            forall|i: int| 0 <= i < n ==> #[trigger] q@[i] < 10,
            1 <= k <= LIMIT_SHIFT,
            whole == digits_value(v@.take(n as int)),
            whole == digits_value(q@) * pow2(k as nat) + rem,
            rem < pow2(k as nat),
            pow2(1) == 2,
        decreases LIMIT_SHIFT - k,
    {
        let (h, r) = halve(&q, n);
        proof {
            assert(q@.take(n as int) =~= q@);
            lemma_pow2_adds(k as nat, 1);
            let p = pow2(k as nat);
            let hv = digits_value(h@);
            assert(whole == hv * (p * 2) + (r as nat * p + rem)) by (nonlinear_arith)
                requires
                    whole == digits_value(q@) * p + rem,
                    digits_value(q@) == 2 * hv + r,
            ;
            assert(r as nat * p + rem < p * 2) by (nonlinear_arith)
                requires
                    r < 2,
                    rem < p,
            ;
            rem = r as nat * p + rem;
        }
        q = h;
        k = k + 1;
    }
    let ghost high = digits_value(q@);
    let ghost p = pow2(LIMIT_SHIFT as nat);
    proof {
        lemma2_to64_rest();
        lemma_pow2_adds(54, 970);
        let h = pow2(54);
        assert(pow2(1024) == h * p);
        assert(h == LIMIT_HIGH + 1);
        assert(h * p - p == LIMIT_HIGH as nat * p) by (nonlinear_arith)
            requires
                h == LIMIT_HIGH + 1,
        ;
    }
    let mut acc: u64 = 0;
    let mut i: usize = 0;
    while i < n
        invariant
            q@.len() == n,
            forall|j: int| 0 <= j < n ==> #[trigger] q@[j] < 10,
            i <= n,
            acc == digits_value(q@.take(i as int)),
            acc < LIMIT_HIGH,
            high == digits_value(q@),
            whole == digits_value(v@.take(n as int)),
            whole == high * p + rem,
            rem < p,
            finite_limit() == LIMIT_HIGH as nat * p,
        decreases n - i,
    {
        let next: u64 = acc * 10 + q[i] as u64;
        proof {
            assert(q@.take(i + 1) =~= q@.take(i as int).push(q@[i as int]));
            lemma_digits_value_push(q@.take(i as int), q@[i as int]);
        }
        if next >= LIMIT_HIGH {
            proof {
                let rest = q@.skip(i + 1);
                assert(q@ =~= q@.take(i + 1) + rest);
                lemma_digits_value_split(q@.take(i + 1), rest);
                lemma_pow10_positive(rest.len());
                assert(high >= next) by (nonlinear_arith)
                    requires
                        high == next * pow10(rest.len()) + digits_value(rest),
                        pow10(rest.len()) >= 1,
                ;
                assert(whole >= LIMIT_HIGH as nat * p) by (nonlinear_arith)
                    requires
                        whole == high * p + rem,
                        high >= LIMIT_HIGH,
                ;
            }
            return false;
        }
        acc = next;
        i = i + 1;
    }
    proof {
        assert(q@.take(n as int) =~= q@);
        assert(whole < LIMIT_HIGH as nat * p) by (nonlinear_arith)
            requires
                whole == high * p + rem,
                high + 1 <= LIMIT_HIGH,
                rem < p,
        ;
    }
    true
}

proof fn lemma_ascii_byte(c: char, b: u8)
    requires
        b as u32 == c as u32,
    ensures
        b == 46 <==> c == '.',
        48 <= b <= 57 <==> is_decimal_digit(c),
        is_decimal_digit(c) ==> digit_value(c) == b - 48,
{
}

/// Every character of a literal but the point is a digit.
proof fn lemma_literal_shape(s: Seq<char>)
    requires
        is_float_literal(s),
    ensures
        forall|j: int|
            0 <= j < unsigned_text(s).len() ==> is_decimal_digit(#[trigger] unsigned_text(s)[j]) || (
            unsigned_text(s)[j] == '.' && j == point_index(unsigned_text(s))),
{
    let u = unsigned_text(s);
    let p = point_index(u);
    assert forall|j: int|
        0 <= j < u.len() implies is_decimal_digit(#[trigger] u[j]) || (u[j] == '.' && j == p) by {
        if j < p {
            assert(u[j] == integer_text(s)[j]);
        } else if j > p {
            assert(has_point(u));
            assert(u[j] == fraction_text(s)[j - p - 1]);
        }
    }
}

/// Reads a decimal literal; `None` where the text is not one or is out of
/// range.
pub fn parse_decimal(s: &str) -> (r: Option<Decimal>)
    ensures
        r is Some <==> is_accepted_number(s@),
        r matches Some(d) ==> d.literal@ == s@ && d.wf(),
{
    if !s.is_ascii() {
        proof {
            if is_float_literal(s@) {
                lemma_literal_shape(s@);
                assert forall|j: int| 0 <= j < s@.len() implies '\0' <= #[trigger] s@[j]
                    <= '\u{7f}' by {
                    if j >= sign_len(s@) {
                        assert(s@[j] == unsigned_text(s@)[j - sign_len(s@)]);
                    }
                }
            }
        }
        return None;
    }
    let b = s.as_bytes();
    let n = b.len();
    let ghost t = s@;
    let ghost u = unsigned_text(t);
    let mut start: usize = 0;
    if n > 0 && (b[0] == PLUS_SIGN || b[0] == MINUS_SIGN) {
        start = 1;
    }
    let negative = n > 0 && b[0] == MINUS_SIGN;
    assert(start == sign_len(t));
    assert(u =~= t.skip(start as int));
    assert forall|j: int| 0 <= j < n implies #[trigger] b@[j] as u32 == t[j] as u32 by {
        assert(t[j] <= '\u{7f}');
        assert(b@[j] == #[verifier::truncate] (t[j] as u8));
    }
    let mut digits: Vec<u8> = Vec::new();
    let mut has_pt = false;
    let mut pt: usize = 0;
    let mut i: usize = start;
    while i < n
        invariant
            t == s@,
            n == t.len(),
            b@.len() == n,
            forall|j: int| 0 <= j < n ==> #[trigger] b@[j] as u32 == t[j] as u32,
            start == sign_len(t),
            u == t.skip(start as int),
            start <= i <= n,
            has_pt ==> start <= pt < i && t[pt as int] == '.',
            forall|j: int|
                start <= j < i ==> is_decimal_digit(#[trigger] t[j]) || (has_pt && j == pt),
            has_pt ==> digits@ == digits_of(t.subrange(start as int, pt as int) + t.subrange(
                pt + 1,
                i as int,
            )),
            !has_pt ==> digits@ == digits_of(t.subrange(start as int, i as int)),
        decreases n - i,
    {
        let c = b[i];
        assert(c as u32 == t[i as int] as u32);
        proof {
            lemma_ascii_byte(t[i as int], c);
        }
        if DIGIT_ZERO <= c && c <= DIGIT_NINE {
            digits.push(c - DIGIT_ZERO);
            proof {
                if has_pt {
                    assert(t.subrange(start as int, pt as int) + t.subrange(pt + 1, i + 1) =~= (
                    t.subrange(start as int, pt as int) + t.subrange(pt + 1, i as int)).push(t[i as int]));
                } else {
                    assert(t.subrange(start as int, i + 1) =~= t.subrange(start as int, i as int).push(
                    t[i as int]));
                }
            }
        } else if c == DECIMAL_POINT && !has_pt {
            proof {
                if is_float_literal(t) {
                    lemma_literal_shape(t);
                    assert(u[i - start] == t[i as int]);
                }
                assert(t.subrange(start as int, i as int) + t.subrange(i + 1, i + 1) =~= t.subrange(
                    start as int,
                    i as int,
                ));
            }
            has_pt = true;
            pt = i;
        } else {
            proof {
                if is_float_literal(t) {
                    lemma_literal_shape(t);
                    assert(u[i - start] == t[i as int]);
                    if has_pt {
                        assert(u[pt - start] == t[pt as int]);
                    }
                }
            }
            return None;
        }
        i = i + 1;
    }
    let ghost int_end: int = if has_pt { pt as int } else { n as int };
    proof {
        if has_pt {
            assert(u[pt - start] == t[pt as int]);
            assert(has_point(u));
            let q = point_index(u);
            assert(u[q] == t[q + start]);
        } else {
            assert forall|q: int| 0 <= q < u.len() implies u[q] != '.' by {
                assert(u[q] == t[q + start]);
            }
        }
        assert(integer_text(t) =~= t.subrange(start as int, int_end));
        if has_pt {
            assert(fraction_text(t) =~= t.subrange(pt + 1, n as int));
        } else {
            assert(fraction_text(t) =~= Seq::<char>::empty());
            assert(t.subrange(start as int, n as int) =~= t.subrange(start as int, n as int)
                + Seq::<char>::empty());
        }
        assert forall|j: int| 0 <= j < integer_text(t).len() implies is_decimal_digit(
            #[trigger] integer_text(t)[j],
        ) by {
            assert(integer_text(t)[j] == t[start + j]);
        }
        assert forall|j: int| 0 <= j < fraction_text(t).len() implies is_decimal_digit(
            #[trigger] fraction_text(t)[j],
        ) by {
            assert(fraction_text(t)[j] == t[pt + 1 + j]);
        }
        assert(digits@ == literal_digits(t));
    }
    if digits.len() == 0 {
        return None;
    }
    let int_len: usize = if has_pt { pt - start } else { n - start };
    let ghost int_digits = digits_of(integer_text(t));
    assert(int_digits =~= digits@.take(int_len as int));
    assert forall|j: int| 0 <= j < digits@.len() implies #[trigger] digits@[j] < 10 by {
        let all = integer_text(t) + fraction_text(t);
        assert(is_decimal_digit(all[j]));
    }
    let fits = below_finite_limit(&digits, int_len);
    proof {
        let frac_digits = digits_of(fraction_text(t));
        assert(digits@ =~= int_digits + frac_digits);
        assert forall|j: int| 0 <= j < frac_digits.len() implies #[trigger] frac_digits[j] < 10 by {
            assert(frac_digits[j] == digits@[int_len + j]);
        }
        lemma_integer_part_decides(int_digits, frac_digits, finite_limit());
    }
    if !fits {
        return None;
    }
    let scale: usize = digits.len() - int_len;
    let literal = s.to_owned();
    Some(Decimal { negative, digits, scale, literal })
}

/// What the coercion rule gives for a JSON value.
pub open spec fn coerced(v: JsonValue, d: Decimal) -> bool {
    v matches JsonValue::Str(s) && d.literal@ == s@ && d.wf()
}

/// Reads a number that the export wrote as a quoted string.
///
/// A string holding a decimal literal in range gives its exact value; any
/// other string gives `NotNumeric` with the string; any other JSON value gives
/// `NotAString` with its kind.
pub fn parse_stringed_float(v: &JsonValue) -> (r: Result<Decimal, CoercionError>)
    ensures
        match *v {
            JsonValue::Str(s) => if is_accepted_number(s@) {
                r matches Ok(d) && coerced(*v, d)
            } else {
                r matches Err(CoercionError::NotNumeric(raw)) && raw == s
            },
            _ => r matches Err(CoercionError::NotAString(t)) && t == type_of(*v),
        },
{
    match v {
        JsonValue::Str(s) => match parse_decimal(s.as_str()) {
            Some(d) => Ok(d),
            None => Err(CoercionError::NotNumeric(s.clone())),
        },
        _ => Err(CoercionError::NotAString(v.json_type())),
    }
}


/// A number coerced from a quoted literal has exactly the literal's value:
/// the same sign, digits and scale.
pub proof fn lemma_coerced_value_is_exact(v: JsonValue, d: Decimal)
    requires
        coerced(v, d),
    ensures
        d.numerator() == literal_numerator(v->Str_0@),
        d.scale == literal_scale(v->Str_0@),
{
}

} // verus!
