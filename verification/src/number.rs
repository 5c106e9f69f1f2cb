//! Numbers read from invoice texts.
//!
//! A text is read with the grammar of Rust's floating-point literals
//! (`[+-]? ( inf | infinity | nan | digits [. digits] [e [+-] digits] )`,
//! letters in any case) and its value is kept exactly, to
//! [`FRACTION_DIGITS`] decimal places (more than any binary64 float has;
//! digits past them are dropped). A magnitude reads as infinite from the
//! point where a binary64 float overflows (see [`overflow_magnitude`]).
//! Monetary sums and comparisons are then exact.

use vstd::prelude::*;

use crate::text::{chars_of, digit_char, padded_digits, push_char, trim, trim_bounds};
use crate::wide::{
    add_digits, all_digits, digit_in, from_u128, less_digits, lemma_all_digits_skip,
    lemma_overflow_bounds, lemma_value_skip, lemma_value_split, overflow_digits,
    overflow_magnitude, place, sub_digits, zeros, FRACTION_DIGITS, WIDTH,
};

verus! {

/// 10^38: where the saturating digit readers stop counting.
pub const SATURATION: u128 = 100_000_000_000_000_000_000_000_000_000_000_000_000u128;

/// Half a cent, as a magnitude (times `10^FRACTION_DIGITS`).
pub open spec fn half_cent() -> nat {
    5 * pow10((FRACTION_DIGITS - 3) as nat)
}

/// What a number is worth: a finite value with its sign (so that a negative
/// zero is kept), an infinity, or NaN. A finite magnitude is the value times
/// `10^FRACTION_DIGITS`.
pub enum Value {
    Finite { negative: bool, magnitude: nat },
    Infinite { negative: bool },
    NotANumber,
}

/// A number read from a text. A finite magnitude (the value times
/// `10^FRACTION_DIGITS`) is held as [`WIDTH`] decimal digits, most
/// significant first.
#[derive(Clone, Debug, PartialEq, Eq)]
pub enum Number {
    Finite { negative: bool, digits: Vec<char> },
    Infinite { negative: bool },
    NotANumber,
}

impl Number {
    /// A finite magnitude has its full width of digits and stays below the
    /// overflow bound.
    pub open spec fn wf(&self) -> bool {
        match self {
            Number::Finite { digits, .. } => {
                &&& digits@.len() == WIDTH
                &&& all_digits(digits@)
                &&& digits_value(digits@) < overflow_magnitude()
            },
            _ => true,
        }
    }
}

impl View for Number {
    type V = Value;

    open spec fn view(&self) -> Value {
        match self {
            Number::Finite { negative, digits } => Value::Finite {
                negative: *negative,
                magnitude: digits_value(digits@),
            },
            Number::Infinite { negative } => Value::Infinite { negative: *negative },
            Number::NotANumber => Value::NotANumber,
        }
    }
}

/// What an optional number is worth.
pub open spec fn value_of(n: Option<Number>) -> Option<Value> {
    match n {
        Some(x) => Some(x@),
        None => None,
    }
}

pub open spec fn pow10(n: nat) -> nat
    decreases n,
{
    if n == 0 {
        1
    } else {
        10 * pow10((n - 1) as nat)
    }
}

pub open spec fn is_digit(c: char) -> bool {
    '0' <= c && c <= '9'
}

pub open spec fn digit_value(c: char) -> nat {
    (c as int - '0' as int) as nat
}

/// The value of a string of decimal digits.
pub open spec fn digits_value(s: Seq<char>) -> nat
    decreases s.len(),
{
    if s.len() == 0 {
        0
    } else {
        digits_value(s.drop_last()) * 10 + digit_value(s.last())
    }
}

/// The length of the run of digits that starts the text.
pub open spec fn lead_digits(s: Seq<char>) -> nat
    decreases s.len(),
{
    if s.len() > 0 && is_digit(s[0]) {
        1 + lead_digits(s.drop_first())
    } else {
        0
    }
}

/// The text without its commas.
pub open spec fn without_commas(s: Seq<char>) -> Seq<char>
    decreases s.len(),
{
    if s.len() == 0 {
        s
    } else if s.last() == ',' {
        without_commas(s.drop_last())
    } else {
        without_commas(s.drop_last()).push(s.last())
    }
}

pub open spec fn ascii_lower(c: char) -> char {
    if 'A' <= c && c <= 'Z' {
        ((c as int) + 32) as char
    } else {
        c
    }
}

/// Whether `s` equals the lower-case word `w` when ASCII letters are folded.
pub open spec fn eq_ignore_case(s: Seq<char>, w: Seq<char>) -> bool {
    s.len() == w.len() && forall|i: int| 0 <= i < s.len() ==> ascii_lower(#[trigger] s[i]) == w[i]
}

pub open spec fn word_inf() -> Seq<char> {
    seq!['i', 'n', 'f']
}

pub open spec fn word_infinity() -> Seq<char> {
    seq!['i', 'n', 'f', 'i', 'n', 'i', 't', 'y']
}

pub open spec fn word_nan() -> Seq<char> {
    seq!['n', 'a', 'n']
}

/// An optional leading sign: whether it is `-`, and the rest.
pub open spec fn sign_split(s: Seq<char>) -> (bool, Seq<char>) {
    if s.len() > 0 && s[0] == '-' {
        (true, s.drop_first())
    } else if s.len() > 0 && s[0] == '+' {
        (false, s.drop_first())
    } else {
        (false, s)
    }
}

/// The exponent suffix `e [+-] digits` (or `E ...`), where it is one.
pub open spec fn exponent_of(r: Seq<char>) -> Option<int> {
    if r.len() > 0 && (r[0] == 'e' || r[0] == 'E') {
        let (eneg, ed) = sign_split(r.drop_first());
        if ed.len() > 0 && lead_digits(ed) == ed.len() {
            Some(
                if eneg {
                    -digits_value(ed)
                } else {
                    digits_value(ed) as int
                },
            )
        } else {
            None
        }
    } else {
        None
    }
}

/// `digits [. digits] [e [+-] digits]` with at least one digit before the
/// exponent: the integer digits, the fraction digits and the exponent.
pub open spec fn decimal_parts(b: Seq<char>) -> Option<(Seq<char>, Seq<char>, int)> {
    let n1 = lead_digits(b);
    let int_part = b.take(n1 as int);
    let r1 = b.skip(n1 as int);
    let has_dot = r1.len() > 0 && r1[0] == '.';
    let r1b = if has_dot {
        r1.drop_first()
    } else {
        r1
    };
    let n2 = if has_dot {
        lead_digits(r1b)
    } else {
        0
    };
    let frac = r1b.take(n2 as int);
    let r2 = r1b.skip(n2 as int);
    if n1 + n2 == 0 {
        None
    } else if r2.len() == 0 {
        Some((int_part, frac, 0))
    } else {
        match exponent_of(r2) {
            Some(e) => Some((int_part, frac, e)),
            None => None,
        }
    }
}

/// The value of the decimal text `b` with the given sign, where it is one.
pub open spec fn decimal_value(negative: bool, b: Seq<char>) -> Option<Value> {
    match decimal_parts(b) {
        Some((ip, fp, e)) => Some(
            finite_or_infinite(
                negative,
                scaled(digits_value(ip + fp), e - fp.len() + FRACTION_DIGITS),
            ),
        ),
        None => None,
    }
}

/// `d / m` rounded half to even.
pub open spec fn round_div_even(d: nat, m: nat) -> nat
    recommends
        m > 0,
{
    let q = d / m;
    let r = d % m;
    if 2 * r > m || (2 * r == m && q % 2 == 1) {
        q + 1
    } else {
        q
    }
}

/// `d * 10^shift`, with the digits that fall below the units dropped where
/// `shift` is negative.
pub open spec fn scaled(d: nat, shift: int) -> nat {
    if shift >= 0 {
        d * pow10(shift as nat)
    } else {
        d / pow10((-shift) as nat)
    }
}

/// A magnitude as a value: finite below the overflow bound, infinite from
/// it on.
pub open spec fn finite_or_infinite(negative: bool, magnitude: nat) -> Value {
    if magnitude < overflow_magnitude() {
        Value::Finite { negative, magnitude }
    } else {
        Value::Infinite { negative }
    }
}

/// What a text reads as, where it is a number at all.
pub open spec fn number_of(text: Seq<char>) -> Option<Value> {
    let (negative, b) = sign_split(text);
    if eq_ignore_case(b, word_inf()) || eq_ignore_case(b, word_infinity()) {
        Some(Value::Infinite { negative })
    } else if eq_ignore_case(b, word_nan()) {
        Some(Value::NotANumber)
    } else {
        decimal_value(negative, b)
    }
}

/// What a monetary text reads as: commas (thousands separators) are dropped
/// and surrounding white space is ignored.
pub open spec fn amount_of(text: Seq<char>) -> Option<Value> {
    number_of(trim(without_commas(text)))
}

// ---------------------------------------------------------------------------
// Arithmetic lemmas
// ---------------------------------------------------------------------------

pub proof fn lemma_pow10_positive(n: nat)
    ensures
        pow10(n) >= 1,
    decreases n,
{
    if n > 0 {
        lemma_pow10_positive((n - 1) as nat);
    }
}

pub proof fn lemma_pow10_adds(a: nat, b: nat)
    ensures
        pow10(a + b) == pow10(a) * pow10(b),
    decreases b,
{
    if b == 0 {
        assert(pow10(0) == 1);
        assert(pow10(a) * 1 == pow10(a));
    } else {
        let b1 = (b - 1) as nat;
        lemma_pow10_adds(a, b1);
        let x = pow10(a);
        let y = pow10(b1);
        assert(pow10(a + b) == 10 * pow10(a + b1));
        assert(pow10(b) == 10 * y);
        assert(10 * (x * y) == x * (10 * y)) by (nonlinear_arith);
    }
}

pub proof fn lemma_pow10_monotone(a: nat, b: nat)
    requires
        a <= b,
    ensures
        pow10(a) <= pow10(b),
    decreases b,
{
    if a < b {
        lemma_pow10_monotone(a, (b - 1) as nat);
        lemma_pow10_positive((b - 1) as nat);
    }
}

pub proof fn lemma_pow10_38()
    ensures
        pow10(38) == SATURATION,
        pow10(37) * 10 == SATURATION,
        pow10(7) == 10_000_000,
{
    reveal_with_fuel(pow10, 39);
}

pub proof fn lemma_digits_value_push(s: Seq<char>, c: char)
    ensures
        digits_value(s.push(c)) == digits_value(s) * 10 + digit_value(c),
{
    assert(s.push(c).drop_last() =~= s);
}

/// The value of a concatenation of digit strings.
pub proof fn lemma_digits_value_concat(a: Seq<char>, b: Seq<char>)
    ensures
        digits_value(a + b) == digits_value(a) * pow10(b.len()) + digits_value(b),
    decreases b.len(),
{
    if b.len() == 0 {
        assert(a + b =~= a);
        assert(pow10(0) == 1);
        assert(digits_value(a) * 1 == digits_value(a));
    } else {
        let b0 = b.drop_last();
        lemma_digits_value_concat(a, b0);
        assert((a + b).drop_last() =~= a + b0);
        assert((a + b).last() == b.last());
        let va = digits_value(a);
        let vb0 = digits_value(b0);
        let p = pow10(b0.len());
        let l = digit_value(b.last());
        assert(digits_value(a + b) == digits_value(a + b0) * 10 + l);
        assert(digits_value(b) == vb0 * 10 + l);
        assert(pow10(b.len()) == 10 * p);
        assert((va * p + vb0) * 10 + l == va * (10 * p) + (vb0 * 10 + l)) by (nonlinear_arith);
    }
}

/// A string of `n` digits is worth less than `10^n`.
pub proof fn lemma_digits_value_bound(s: Seq<char>)
    requires
        forall|i: int| 0 <= i < s.len() ==> is_digit(#[trigger] s[i]),
    ensures
        digits_value(s) < pow10(s.len()),
    decreases s.len(),
{
    if s.len() > 0 {
        let s0 = s.drop_last();
        assert forall|i: int| 0 <= i < s0.len() implies is_digit(#[trigger] s0[i]) by {
            assert(s0[i] == s[i]);
        }
        lemma_digits_value_bound(s0);
        assert(is_digit(s[s.len() - 1]));
    }
}

/// A digit string is worth zero exactly when all its digits are `0`.
pub proof fn lemma_digits_value_zero(s: Seq<char>)
    requires
        forall|i: int| 0 <= i < s.len() ==> is_digit(#[trigger] s[i]),
    ensures
        digits_value(s) == 0 <==> forall|i: int| 0 <= i < s.len() ==> #[trigger] s[i] == '0',
    decreases s.len(),
{
    if s.len() > 0 {
        let s0 = s.drop_last();
        assert forall|i: int| 0 <= i < s0.len() implies is_digit(#[trigger] s0[i]) by {
            assert(s0[i] == s[i]);
        }
        lemma_digits_value_zero(s0);
        assert(is_digit(s[s.len() - 1]));
        if digits_value(s) == 0 {
            assert forall|i: int| 0 <= i < s.len() implies #[trigger] s[i] == '0' by {
                if i < s.len() - 1 {
                    assert(s0[i] == s[i]);
                }
            }
        }
        if forall|i: int| 0 <= i < s.len() ==> #[trigger] s[i] == '0' {
            assert forall|i: int| 0 <= i < s0.len() implies #[trigger] s0[i] == '0' by {
                assert(s0[i] == s[i]);
            }
            assert(s[s.len() - 1] == '0');
        }
    }
}

// ---------------------------------------------------------------------------
// Reading digits
// ---------------------------------------------------------------------------

pub open spec fn sat(x: nat) -> nat {
    if x < SATURATION {
        x
    } else {
        SATURATION as nat
    }
}

/// One decimal step (`10 * acc + d`) that sticks at the limit.
fn sat_step(acc: u128, d: u128) -> (r: u128)
    requires
        acc <= SATURATION,
        d <= 9,
    ensures
        forall|x: nat| #[trigger] sat(x) == acc ==> r == sat((x * 10 + d) as nat),
{
    proof {
        lemma_pow10_38();
    }
    if acc >= 10_000_000_000_000_000_000_000_000_000_000_000_000u128 {
        SATURATION
    } else {
        acc * 10 + d
    }
}

fn char_digit(c: char) -> (r: u128)
    requires
        is_digit(c),
    ensures
        r == digit_value(c),
        r <= 9,
{
    (c as u32 - '0' as u32) as u128
}

/// The saturated value of `ds[0..end]`.
fn prefix_value_sat(ds: &Vec<char>, end: usize) -> (r: u128)
    requires
        end <= ds.len(),
        forall|i: int| 0 <= i < ds.len() ==> is_digit(#[trigger] ds@[i]),
    ensures
        r == sat(digits_value(ds@.take(end as int))),
{
    let mut acc: u128 = 0;
    let mut i: usize = 0;
    assert(ds@.take(0) =~= Seq::<char>::empty());
    while i < end
        invariant
            end <= ds.len(),
            forall|k: int| 0 <= k < ds.len() ==> is_digit(#[trigger] ds@[k]),
            i <= end,
            acc == sat(digits_value(ds@.take(i as int))),
            acc <= SATURATION,
        decreases end - i,
    {
        let d = char_digit(ds[i]);
        proof {
            assert(ds@.take(i + 1) =~= ds@.take(i as int).push(ds@[i as int]));
            lemma_digits_value_push(ds@.take(i as int), ds@[i as int]);
        }
        acc = sat_step(acc, d);
        i = i + 1;
    }
    acc
}

/// `sat(d * 10^shift)` for a non-negative shift.
fn scale_up_sat(d_sat: u128, shift: u128, Ghost(d): Ghost<nat>) -> (r: u128)
    requires
        d_sat == sat(d),
    ensures
        r == sat(d * pow10(shift as nat)),
{
    let mut acc = d_sat;
    let mut i: u128 = 0;
    proof {
        assert(pow10(0) == 1);
        assert(d * pow10(0) == d) by (nonlinear_arith)
            requires
                pow10(0) == 1,
        ;
    }
    while i < shift && acc != 0 && acc < SATURATION
        invariant
            i <= shift,
            acc == sat(d * pow10(i as nat)),
        decreases shift - i,
    {
        proof {
            assert(pow10((i + 1) as nat) == 10 * pow10(i as nat));
            assert(d * (10 * pow10(i as nat)) == (d * pow10(i as nat)) * 10) by (nonlinear_arith);
        }
        acc = sat_step(acc, 0);
        i = i + 1;
    }
    proof {
        lemma_pow10_monotone(i as nat, shift as nat);
        lemma_pow10_positive(i as nat);
        assert(d * pow10(i as nat) <= d * pow10(shift as nat)) by (nonlinear_arith)
            requires
                pow10(i as nat) <= pow10(shift as nat),
        ;
        if acc == 0 {
            assert(d == 0) by (nonlinear_arith)
                requires
                    d * pow10(i as nat) == 0,
                    pow10(i as nat) >= 1,
            ;
            assert(d * pow10(shift as nat) == 0) by (nonlinear_arith)
                requires
                    d == 0,
            ;
        }
    }
    acc
}

/// Whether `value(ds) / 10^m`, rounded half to even, goes one above the
/// quotient `value(ds[..at])`, where `m` counts the digits from `at` on.
fn rounds_up(ds: &Vec<char>, at: usize) -> (r: bool)
    requires
        at < ds.len(),
        all_digits(ds@),
    ensures
        digits_value(ds@) / pow10((ds.len() - at) as nat) == digits_value(ds@.take(at as int)),
        round_div_even(digits_value(ds@), pow10((ds.len() - at) as nat)) == digits_value(
            ds@.take(at as int),
        ) + if r {
            1int
        } else {
            0int
        },
{
    let n = ds.len();
    let ghost d = digits_value(ds@);
    let ghost k = (n - at) as nat;
    let ghost a = ds@.take(at as int);
    let ghost b = ds@.skip(at as int);
    let ghost c = ds@.skip(at + 1);
    proof {
        lemma_value_split(ds@, at as int);
        lemma_all_digits_skip(ds@, at as int);
        lemma_all_digits_skip(ds@, at + 1);
        lemma_digits_value_bound(b);
        lemma_pow10_positive(k);
        vstd::arithmetic::div_mod::lemma_fundamental_div_mod_converse(
            d as int,
            pow10(k) as int,
            digits_value(a) as int,
            digits_value(b) as int,
        );
    }
    let f = digit_in(ds[at]);
    let mut rest_nonzero = false;
    let mut i: usize = at + 1;
    while i < n
        invariant
            at < n == ds.len(),
            at + 1 <= i <= n,
            rest_nonzero <==> exists|j: int| at + 1 <= j < i && ds@[j] != '0',
        decreases n - i,
    {
        if ds[i] != '0' {
            rest_nonzero = true;
        }
        i = i + 1;
    }
    let q_odd = at > 0 && digit_in(ds[at - 1]) % 2 == 1;
    proof {
        lemma_value_skip(ds@, at as int);
        lemma_digits_value_zero(c);
        lemma_digits_value_bound(c);
        if rest_nonzero {
            let j = choose|j: int| at + 1 <= j < n && ds@[j] != '0';
            assert(c[j - at - 1] != '0');
        } else {
            assert forall|t: int| 0 <= t < c.len() implies #[trigger] c[t] == '0' by {
                assert(c[t] == ds@[at + 1 + t]);
            }
        }
        let p = pow10((k - 1) as nat);
        assert(pow10(k) == 10 * p);
        let vc = digits_value(c);
        assert(rest_nonzero <==> vc > 0);
        assert((2 * (f * p + vc) > 10 * p) <==> (f > 5 || (f == 5 && vc > 0))) by (nonlinear_arith)
            requires
                0 <= vc < p,
                f <= 9,
        ;
        assert((2 * (f * p + vc) == 10 * p) <==> (f == 5 && vc == 0)) by (nonlinear_arith)
            requires
                0 <= vc < p,
                f <= 9,
        ;
        if at > 0 {
            let a0 = ds@.take(at - 1);
            assert(a.drop_last() =~= a0);
            assert(a.last() == ds@[at - 1]);
            let x = digits_value(a0);
            let l = digit_value(ds@[at - 1]);
            assert(digits_value(a) == x * 10 + l);
            vstd::arithmetic::div_mod::lemma_mod_multiples_vanish(5 * x as int, l as int, 2);
            assert(2 * (5 * x) + l == x * 10 + l);
        } else {
            assert(a =~= Seq::<char>::empty());
        }
    }
    f > 5 || (f == 5 && (rest_nonzero || q_odd))
}

/// Zero with the given sign.
pub fn zero_number(negative: bool) -> (r: Number)
    ensures
        r@ == (Value::Finite { negative, magnitude: 0 }),
        r.wf(),
{
    proof {
        lemma_overflow_bounds();
        lemma_pow10_positive((WIDTH - 3) as nat);
    }
    Number::Finite { negative, digits: zeros(WIDTH) }
}

/// A `WIDTH`-digit magnitude as a number: finite below the overflow bound,
/// infinite from it on.
fn finite_or_infinite_in(negative: bool, w: Vec<char>) -> (r: Number)
    requires
        w@.len() == WIDTH,
        all_digits(w@),
    ensures
        r@ == finite_or_infinite(negative, digits_value(w@)),
        r.wf(),
{
    proof {
        lemma_overflow_bounds();
    }
    if w[0] == '0' && w[1] == '0' && w[2] == '0' {
        proof {
            lemma_value_split(w@, 3);
            lemma_all_digits_skip(w@, 3);
            assert(w@.take(3) =~= seq!['0', '0', '0']);
            lemma_digits_value_zero(w@.take(3));
            lemma_digits_value_bound(w@.skip(3));
            assert(digits_value(w@.take(3)) * pow10((WIDTH - 3) as nat) == 0);
        }
        return Number::Finite { negative, digits: w };
    }
    let limit = overflow_digits();
    if less_digits(&w, &limit) {
        Number::Finite { negative, digits: w }
    } else {
        Number::Infinite { negative }
    }
}

/// Dropping the last digits of a digit string divides its value.
proof fn lemma_quotient(s: Seq<char>, at: int)
    requires
        0 <= at <= s.len(),
        all_digits(s),
    ensures
        digits_value(s) / pow10((s.len() - at) as nat) == digits_value(s.take(at)),
{
    lemma_value_split(s, at);
    lemma_all_digits_skip(s, at);
    lemma_digits_value_bound(s.skip(at));
    lemma_pow10_positive((s.len() - at) as nat);
    vstd::arithmetic::div_mod::lemma_fundamental_div_mod_converse(
        digits_value(s) as int,
        pow10((s.len() - at) as nat) as int,
        digits_value(s.take(at)) as int,
        digits_value(s.skip(at)) as int,
    );
}

proof fn lemma_scaled_zero(s: int)
    ensures
        scaled(0, s) == 0,
{
    if s >= 0 {
        assert(0 * pow10(s as nat) == 0);
    } else {
        lemma_pow10_positive((-s) as nat);
        vstd::arithmetic::div_mod::lemma_small_mod(0, pow10((-s) as nat));
        vstd::arithmetic::div_mod::lemma_basic_div(0, pow10((-s) as nat) as int);
    }
}

/// A value with `len` significant digits, moved up by `shift` places to
/// `WIDTH - 2` digits or more, is past the overflow bound.
proof fn lemma_scaled_large(d: nat, len: nat, shift: int)
    requires
        len >= 1,
        shift >= 0,
        d >= pow10((len - 1) as nat),
        shift + len > WIDTH - 2,
    ensures
        scaled(d, shift) >= overflow_magnitude(),
{
    lemma_overflow_bounds();
    lemma_pow10_adds((len - 1) as nat, shift as nat);
    lemma_pow10_monotone((WIDTH - 2) as nat, (len - 1 + shift) as nat);
    let p = pow10(shift as nat);
    assert(d * p >= pow10((len - 1) as nat) * p) by (nonlinear_arith)
        requires
            d >= pow10((len - 1) as nat),
            p >= 0,
    ;
}

/// Exponents past the cap give what the cap gives.
proof fn lemma_scaled_huge(negative: bool, d: nat, s1: int, s2: int)
    requires
        s1 >= WIDTH - 2,
        s2 >= WIDTH - 2,
    ensures
        finite_or_infinite(negative, scaled(d, s1)) == finite_or_infinite(negative, scaled(d, s2)),
{
    if d == 0 {
        lemma_scaled_zero(s1);
        lemma_scaled_zero(s2);
    } else {
        lemma_scaled_large(d, 1, s1);
        lemma_scaled_large(d, 1, s2);
    }
}

/// `value(ds) * 10^shift` with the digits below the units dropped (see
/// [`scaled`]), with the given sign; infinite from the overflow bound on.
fn scaled_number(negative: bool, ds: &Vec<char>, shift: i128) -> (r: Number)
    requires
        -1_000_000_000_000_000_000_000_000i128 < shift < 1_000_000_000_000_000_000_000_000i128,
        all_digits(ds@),
    ensures
        r@ == finite_or_infinite(negative, scaled(digits_value(ds@), shift as int)),
        r.wf(),
{
    let n = ds.len();
    let ghost d = digits_value(ds@);
    let mut k: usize = 0;
    while k < n && ds[k] == '0'
        invariant
            k <= n == ds.len(),
            forall|j: int| 0 <= j < k ==> #[trigger] ds@[j] == '0',
        decreases n - k,
    {
        k = k + 1;
    }
    proof {
        lemma_overflow_bounds();
        lemma_value_split(ds@, k as int);
        lemma_all_digits_skip(ds@, k as int);
        assert forall|j: int| 0 <= j < k implies #[trigger] ds@.take(k as int)[j] == '0' by {
            assert(ds@.take(k as int)[j] == ds@[j]);
        }
        lemma_digits_value_zero(ds@.take(k as int));
        assert(digits_value(ds@.take(k as int)) == 0);
        assert(digits_value(ds@.take(k as int)) * pow10((n - k) as nat) == 0);
    }
    if k == n {
        proof {
            assert(ds@.skip(k as int) =~= Seq::<char>::empty());
            lemma_scaled_zero(shift as int);
        }
        return zero_number(negative);
    }
    let len = n - k;
    proof {
        lemma_value_skip(ds@, k as int);
        lemma_pow10_positive((len - 1) as nat);
        let lead = digit_value(ds@[k as int]);
        let tail = digits_value(ds@.skip(k + 1));
        assert(lead >= 1);
        assert(lead * pow10((len - 1) as nat) + tail >= pow10((len - 1) as nat)) by (nonlinear_arith)
            requires
                lead >= 1,
                tail >= 0,
                pow10((len - 1) as nat) >= 1,
        ;
    }
    if shift >= 0 {
        if shift + (len as i128) > (WIDTH - 2) as i128 {
            proof {
                lemma_scaled_large(d, len as nat, shift as int);
            }
            return Number::Infinite { negative };
        }
        let w = place(ds, k, n, shift as usize);
        proof {
            assert(ds@.subrange(k as int, n as int) =~= ds@.skip(k as int));
        }
        return finite_or_infinite_in(negative, w);
    }
    let m_big: i128 = 0 - shift;
    if m_big > len as i128 {
        proof {
            lemma_digits_value_bound(ds@.skip(k as int));
            lemma_scaled_tiny_shift(d, len as nat, shift as int);
        }
        return zero_number(negative);
    }
    let m = m_big as usize;
    let at = n - m;
    proof {
        lemma_quotient(ds@, at as int);
    }
    let ghost q = digits_value(ds@.take(at as int));
    let ghost sig = ds@.subrange(k as int, at as int);
    proof {
        let t = ds@.take(at as int);
        lemma_value_split(t, k as int);
        assert(t.take(k as int) =~= ds@.take(k as int));
        assert(t.skip(k as int) =~= sig);
        assert(digits_value(t.take(k as int)) == 0);
        assert(digits_value(t.take(k as int)) * pow10((at - k) as nat) == 0) by (nonlinear_arith)
            requires
                digits_value(t.take(k as int)) == 0,
        ;
        assert(q == digits_value(sig));
    }
    if at - k > WIDTH - 2 {
        proof {
            lemma_all_digits_skip(ds@.take(at as int), k as int);
            lemma_value_skip(sig, 0);
            assert(sig[0] == ds@[k as int]);
            assert(sig.skip(0) =~= sig);
            let lead = digit_value(sig[0]);
            let tail = digits_value(sig.skip(1));
            lemma_pow10_monotone((WIDTH - 2) as nat, (sig.len() - 1) as nat);
            assert(lead * pow10((sig.len() - 1) as nat) + tail >= pow10((sig.len() - 1) as nat))
                by (nonlinear_arith)
                requires
                    lead >= 1,
                    tail >= 0,
                    pow10((sig.len() - 1) as nat) >= 1,
            ;
        }
        return Number::Infinite { negative };
    }
    let w = place(ds, k, at, 0);
    proof {
        assert(pow10(0) == 1);
        assert(digits_value(w@) == q);
    }
    finite_or_infinite_in(negative, w)
}

// ---------------------------------------------------------------------------
// Reading a whole text
// ---------------------------------------------------------------------------

fn ascii_lower_exec(c: char) -> (r: char)
    ensures
        r == ascii_lower(c),
{
    if 'A' <= c && c <= 'Z' {
        ((c as u8) + 32) as char
    } else {
        c
    }
}

/// Whether `v[lo..hi]` spells the lower-case word `w`, ignoring ASCII case.
fn word_matches(v: &Vec<char>, lo: usize, hi: usize, w: &Vec<char>) -> (r: bool)
    requires
        lo <= hi <= v.len(),
    ensures
        r == eq_ignore_case(v@.subrange(lo as int, hi as int), w@),
{
    let ghost s = v@.subrange(lo as int, hi as int);
    if hi - lo != w.len() {
        return false;
    }
    let mut i: usize = 0;
    while i < w.len()
        invariant
            lo <= hi <= v.len(),
            hi - lo == w.len(),
            s == v@.subrange(lo as int, hi as int),
            i <= w.len(),
            forall|k: int| 0 <= k < i ==> ascii_lower(#[trigger] s[k]) == w@[k],
        decreases w.len() - i,
    {
        if ascii_lower_exec(v[lo + i]) != w[i] {
            assert(s[i as int] == v@[lo + i]);
            return false;
        }
        assert(s[i as int] == v@[lo + i]);
        i = i + 1;
    }
    true
}

proof fn lemma_lead_digits_step(s: Seq<char>, i: int)
    requires
        0 <= i < s.len(),
        is_digit(s[i]),
    ensures
        lead_digits(s.skip(i)) == 1 + lead_digits(s.skip(i + 1)),
{
    assert(s.skip(i).drop_first() =~= s.skip(i + 1));
}

proof fn lemma_lead_digits_stop(s: Seq<char>, i: int)
    requires
        0 <= i <= s.len(),
        i == s.len() || !is_digit(s[i]),
    ensures
        lead_digits(s.skip(i)) == 0,
{
}

/// Skips the digits of `v[p..hi]`; `p + lead_digits(v[p..hi])` is returned.
fn skip_digits(v: &Vec<char>, p: usize, hi: usize) -> (r: usize)
    requires
        p <= hi <= v.len(),
    ensures
        p <= r <= hi,
        r - p == lead_digits(v@.subrange(p as int, hi as int)),
        forall|i: int| p <= i < r ==> is_digit(#[trigger] v@[i]),
{
    let ghost s = v@.subrange(p as int, hi as int);
    let mut q = p;
    assert(s.skip(0) =~= s);
    while q < hi && '0' <= v[q] && v[q] <= '9'
        invariant
            p <= q <= hi <= v.len(),
            s == v@.subrange(p as int, hi as int),
            lead_digits(s) == (q - p) + lead_digits(s.skip(q - p)),
            forall|i: int| p <= i < q ==> is_digit(#[trigger] v@[i]),
        decreases hi - q,
    {
        proof {
            assert(s[q - p] == v@[q as int]);
            lemma_lead_digits_step(s, q - p);
        }
        q = q + 1;
    }
    proof {
        if q < hi {
            assert(s[q - p] == v@[q as int]);
        }
        lemma_lead_digits_stop(s, q - p);
    }
    q
}

/// The exponent cap: any exponent at least this large gives the same value
/// as the cap itself.
pub const EXPONENT_CAP: u128 = 100_000_000_000_000_000_000u128;

/// The value of the digits `v[lo..hi]`, saturated at `EXPONENT_CAP`.
fn exponent_digits(v: &Vec<char>, lo: usize, hi: usize) -> (r: u128)
    requires
        lo <= hi <= v.len(),
        forall|i: int| lo <= i < hi ==> is_digit(#[trigger] v@[i]),
    ensures
        r == if digits_value(v@.subrange(lo as int, hi as int)) < EXPONENT_CAP {
            digits_value(v@.subrange(lo as int, hi as int))
        } else {
            EXPONENT_CAP as nat
        },
{
    let mut acc: u128 = 0;
    let mut i = lo;
    assert(v@.subrange(lo as int, lo as int) =~= Seq::<char>::empty());
    while i < hi
        invariant
            lo <= i <= hi <= v.len(),
            forall|k: int| lo <= k < hi ==> is_digit(#[trigger] v@[k]),
            acc == if digits_value(v@.subrange(lo as int, i as int)) < EXPONENT_CAP {
                digits_value(v@.subrange(lo as int, i as int))
            } else {
                EXPONENT_CAP as nat
            },
        decreases hi - i,
    {
        let d = char_digit(v[i]);
        proof {
            assert(v@.subrange(lo as int, i + 1) =~= v@.subrange(lo as int, i as int).push(
                v@[i as int],
            ));
            lemma_digits_value_push(v@.subrange(lo as int, i as int), v@[i as int]);
        }
        if acc >= 10_000_000_000_000_000_000u128 {
            acc = EXPONENT_CAP;
        } else {
            acc = acc * 10 + d;
        }
        i = i + 1;
    }
    acc
}

proof fn lemma_scaled_tiny_shift(d: nat, len: nat, s: int)
    requires
        d < pow10(len),
        -s > len,
    ensures
        scaled(d, s) == 0,
{
    let k = (-s) as nat;
    lemma_pow10_monotone(len, (k - 1) as nat);
    lemma_pow10_positive(k);
    assert(pow10(k) == 10 * pow10((k - 1) as nat));
    vstd::arithmetic::div_mod::lemma_basic_div(d as int, pow10(k) as int);
    vstd::arithmetic::div_mod::lemma_small_mod(d, pow10(k));
}

/// The exponent suffix `v[lo..hi]`: its sign and its magnitude capped at
/// [`EXPONENT_CAP`].
fn exponent_in(v: &Vec<char>, lo: usize, hi: usize) -> (r: Option<(bool, u128)>)
    requires
        lo < hi <= v.len(),
    ensures
        match r {
            None => exponent_of(v@.subrange(lo as int, hi as int)) is None,
            Some((neg, mag)) => exponent_of(v@.subrange(lo as int, hi as int)) matches Some(e) && {
                let m = if neg {
                    -e
                } else {
                    e
                };
                &&& m >= 0
                &&& mag == if m < EXPONENT_CAP {
                    m
                } else {
                    EXPONENT_CAP as int
                }
            },
        },
{
    let ghost s = v@.subrange(lo as int, hi as int);
    assert(s[0] == v@[lo as int]);
    if v[lo] != 'e' && v[lo] != 'E' {
        return None;
    }
    let mut q = lo + 1;
    let mut neg = false;
    if q < hi && v[q] == '-' {
        neg = true;
        q = q + 1;
    } else if q < hi && v[q] == '+' {
        q = q + 1;
    }
    let ghost ed = v@.subrange(q as int, hi as int);
    proof {
        let t = s.drop_first();
        assert(t =~= v@.subrange(lo + 1, hi as int));
        if q > lo + 1 {
            assert(t[0] == v@[lo + 1]);
            assert(t.drop_first() =~= ed);
        } else {
            if t.len() > 0 {
                assert(t[0] == v@[lo + 1]);
            }
            assert(t =~= ed);
        }
        assert(sign_split(t) == (neg, ed));
    }
    let end = skip_digits(v, q, hi);
    if q == hi || end != hi {
        return None;
    }
    let mag = exponent_digits(v, q, hi);
    Some((neg, mag))
}

/// The digits `v[a..b]` followed by the digits `v[c..d]`.
fn collect_digits(v: &Vec<char>, a: usize, b: usize, c: usize, d: usize) -> (ds: Vec<char>)
    requires
        a <= b <= v.len(),
        c <= d <= v.len(),
        forall|k: int| a <= k < b ==> is_digit(#[trigger] v@[k]),
        forall|k: int| c <= k < d ==> is_digit(#[trigger] v@[k]),
    ensures
        ds@ == v@.subrange(a as int, b as int) + v@.subrange(c as int, d as int),
        forall|k: int| 0 <= k < ds@.len() ==> is_digit(#[trigger] ds@[k]),
{
    let mut ds: Vec<char> = Vec::new();
    let mut i = a;
    while i < b
        invariant
            a <= i <= b <= v.len(),
            ds@ == v@.subrange(a as int, i as int),
        decreases b - i,
    {
        ds.push(v[i]);
        i = i + 1;
        assert(ds@ =~= v@.subrange(a as int, i as int));
    }
    let ghost first = ds@;
    let mut j = c;
    while j < d
        invariant
            c <= j <= d <= v.len(),
            ds@ == first + v@.subrange(c as int, j as int),
        decreases d - j,
    {
        ds.push(v[j]);
        j = j + 1;
        assert(ds@ =~= first + v@.subrange(c as int, j as int));
    }
    assert forall|k: int| 0 <= k < ds@.len() implies is_digit(#[trigger] ds@[k]) by {
        if k < first.len() {
            assert(ds@[k] == v@[a + k]);
        } else {
            assert(ds@[k] == v@[c + k - first.len()]);
        }
    }
    ds
}

/// Where the parts of the decimal text `v[p..hi]` lie: the end of the
/// integer digits, the span of the fraction digits, and the exponent's sign
/// and capped magnitude.
fn decimal_layout(v: &Vec<char>, p: usize, hi: usize) -> (r: Option<(usize, usize, usize, bool, u128)>)
    requires
        p <= hi <= v.len(),
    ensures
        match r {
            None => decimal_parts(v@.subrange(p as int, hi as int)) is None,
            Some((ie, fs, fe, neg, mag)) => {
                &&& p <= ie <= fs <= fe <= hi
                &&& forall|k: int| p <= k < ie ==> is_digit(#[trigger] v@[k])
                &&& forall|k: int| fs <= k < fe ==> is_digit(#[trigger] v@[k])
                &&& decimal_parts(v@.subrange(p as int, hi as int)) matches Some((ip, fp, e)) && {
                    let m = if neg {
                        -e
                    } else {
                        e
                    };
                    &&& ip == v@.subrange(p as int, ie as int)
                    &&& fp == v@.subrange(fs as int, fe as int)
                    &&& m >= 0
                    &&& mag == if m < EXPONENT_CAP {
                        m
                    } else {
                        EXPONENT_CAP as int
                    }
                }
            },
        },
{
    let ghost b = v@.subrange(p as int, hi as int);
    let int_end = skip_digits(v, p, hi);
    let ghost n1 = (int_end - p) as nat;
    let ghost r1 = b.skip(n1 as int);
    proof {
        assert(r1 =~= v@.subrange(int_end as int, hi as int));
        if int_end < hi {
            assert(r1[0] == v@[int_end as int]);
        }
    }
    let has_dot = int_end < hi && v[int_end] == '.';
    let frac_start = if has_dot {
        int_end + 1
    } else {
        int_end
    };
    let frac_end = if has_dot {
        skip_digits(v, frac_start, hi)
    } else {
        frac_start
    };
    let ghost r1b = if has_dot {
        r1.drop_first()
    } else {
        r1
    };
    let ghost n2 = (frac_end - frac_start) as nat;
    let ghost ip = b.take(n1 as int);
    let ghost fp = r1b.take(n2 as int);
    let ghost r2 = r1b.skip(n2 as int);
    proof {
        assert(has_dot == (r1.len() > 0 && r1[0] == '.'));
        assert(r1b =~= v@.subrange(frac_start as int, hi as int));
        assert(ip =~= v@.subrange(p as int, int_end as int));
        assert(fp =~= v@.subrange(frac_start as int, frac_end as int));
        assert(r2 =~= v@.subrange(frac_end as int, hi as int));
        if !has_dot {
            assert(n2 == 0);
        }
    }
    if int_end - p + (frac_end - frac_start) == 0 {
        return None;
    }
    if frac_end == hi {
        return Some((int_end, frac_start, frac_end, false, 0));
    }
    match exponent_in(v, frac_end, hi) {
        None => None,
        Some((neg, mag)) => Some((int_end, frac_start, frac_end, neg, mag)),
    }
}

/// The value of the decimal text `v[p..hi]` with the given sign.
fn decimal_in(v: &Vec<char>, p: usize, hi: usize, negative: bool) -> (r: Option<Number>)
    requires
        p <= hi <= v.len(),
    ensures
        value_of(r) == decimal_value(negative, v@.subrange(p as int, hi as int)),
        r matches Some(n) ==> n.wf(),
{
    let ghost b = v@.subrange(p as int, hi as int);
    let (int_end, frac_start, frac_end, exp_negative, exp_mag) = match decimal_layout(v, p, hi) {
        None => {
            return None;
        },
        Some(layout) => layout,
    };
    let ghost parts = decimal_parts(b)->0;
    let ghost ip = parts.0;
    let ghost fp = parts.1;
    let ghost e = parts.2;
    let ds = collect_digits(v, p, int_end, frac_start, frac_end);
    proof {
        assert(ds@ =~= ip + fp);
        lemma_digits_value_bound(ds@);
    }
    let frac_len = (frac_end - frac_start) as i128;
    let exp_value: i128 = if exp_negative {
        0 - (exp_mag as i128)
    } else {
        exp_mag as i128
    };
    let shift = exp_value - frac_len + FRACTION_DIGITS as i128;
    let r = scaled_number(negative, &ds, shift);
    proof {
        let d = digits_value(ds@);
        let exact_shift = e - fp.len() + FRACTION_DIGITS;
        if exp_mag < EXPONENT_CAP {
            assert(exact_shift == shift);
        } else if !exp_negative {
            assert(exact_shift >= WIDTH - 2 && shift >= WIDTH - 2);
            lemma_scaled_huge(negative, d, exact_shift, shift as int);
        } else {
            assert(-exact_shift > ds.len() && -shift > ds.len());
            lemma_scaled_tiny_shift(d, ds@.len(), exact_shift);
            lemma_scaled_tiny_shift(d, ds@.len(), shift as int);
        }
    }
    Some(r)
}

/// What `v[lo..hi]` reads as (see [`number_of`]).
pub fn number_in(v: &Vec<char>, lo: usize, hi: usize) -> (r: Option<Number>)
    requires
        lo <= hi <= v.len(),
    ensures
        value_of(r) == number_of(v@.subrange(lo as int, hi as int)),
        r matches Some(n) ==> n.wf(),
{
    let ghost text = v@.subrange(lo as int, hi as int);
    let mut p = lo;
    let mut negative = false;
    if p < hi && v[p] == '-' {
        negative = true;
        p = p + 1;
    } else if p < hi && v[p] == '+' {
        p = p + 1;
    }
    let ghost b = v@.subrange(p as int, hi as int);
    proof {
        if text.len() > 0 {
            assert(text[0] == v@[lo as int]);
        }
        if p > lo {
            assert(text.drop_first() =~= b);
        } else {
            assert(text =~= b);
        }
        assert(sign_split(text) == (negative, b));
    }
    let inf_word = vec!['i', 'n', 'f'];
    let infinity_word = vec!['i', 'n', 'f', 'i', 'n', 'i', 't', 'y'];
    let nan_word = vec!['n', 'a', 'n'];
    proof {
        assert(inf_word@ =~= word_inf());
        assert(infinity_word@ =~= word_infinity());
        assert(nan_word@ =~= word_nan());
    }
    if word_matches(v, p, hi, &inf_word) || word_matches(v, p, hi, &infinity_word) {
        return Some(Number::Infinite { negative });
    }
    if word_matches(v, p, hi, &nan_word) {
        return Some(Number::NotANumber);
    }
    decimal_in(v, p, hi, negative)
}

/// The characters of `s` without its commas.
fn chars_without_commas(s: &str) -> (r: Vec<char>)
    ensures
        r@ == without_commas(s@),
{
    let v = chars_of(s);
    let mut r: Vec<char> = Vec::new();
    let mut i: usize = 0;
    assert(v@.take(0) =~= Seq::<char>::empty());
    while i < v.len()
        invariant
            v@ == s@,
            i <= v.len(),
            r@ == without_commas(v@.take(i as int)),
        decreases v.len() - i,
    {
        proof {
            assert(v@.take(i + 1).drop_last() =~= v@.take(i as int));
        }
        if v[i] != ',' {
            r.push(v[i]);
        }
        i = i + 1;
    }
    assert(v@.take(v.len() as int) =~= v@);
    r
}

/// What a monetary text reads as (see [`amount_of`]).
pub fn amount_in(s: &str) -> (r: Option<Number>)
    ensures
        value_of(r) == amount_of(s@),
        r matches Some(n) ==> n.wf(),
{
    let v = chars_without_commas(s);
    let (lo, hi) = trim_bounds(&v);
    number_in(&v, lo, hi)
}

/// What a text reads as, taken as it stands (see [`number_of`]).
pub fn number_in_str(s: &str) -> (r: Option<Number>)
    ensures
        value_of(r) == number_of(s@),
        r matches Some(n) ==> n.wf(),
{
    let v = chars_of(s);
    assert(v@.subrange(0, v.len() as int) =~= v@);
    number_in(&v, 0, v.len())
}

// ---------------------------------------------------------------------------
// Arithmetic on numbers
// ---------------------------------------------------------------------------

/// The sum of two numbers, with the sign rules of IEEE addition: opposite
/// infinities give NaN, an exact zero sum is positive unless both terms are
/// negative, and a sum that reaches the overflow bound is infinite.
pub open spec fn sum(a: Value, b: Value) -> Value {
    match (a, b) {
        (Value::NotANumber, _) => Value::NotANumber,
        (_, Value::NotANumber) => Value::NotANumber,
        (Value::Infinite { negative: x }, Value::Infinite { negative: y }) => if x == y {
            a
        } else {
            Value::NotANumber
        },
        (Value::Infinite { .. }, _) => a,
        (_, Value::Infinite { .. }) => b,
        (Value::Finite { negative: x, magnitude: p }, Value::Finite { negative: y, magnitude: q }) => {
            if x == y {
                finite_or_infinite(x, p + q)
            } else if p > q {
                Value::Finite { negative: x, magnitude: (p - q) as nat }
            } else if q > p {
                Value::Finite { negative: y, magnitude: (q - p) as nat }
            } else {
                Value::Finite { negative: false, magnitude: 0 }
            }
        },
    }
}

pub fn add_numbers(a: &Number, b: &Number) -> (r: Number)
    requires
        a.wf(),
        b.wf(),
    ensures
        r@ == sum(a@, b@),
        r.wf(),
{
    match a {
        Number::NotANumber => Number::NotANumber,
        Number::Infinite { negative: x } => match b {
            Number::NotANumber => Number::NotANumber,
            Number::Infinite { negative: y } => if *x == *y {
                Number::Infinite { negative: *x }
            } else {
                Number::NotANumber
            },
            Number::Finite { .. } => Number::Infinite { negative: *x },
        },
        Number::Finite { negative: x, digits: p } => match b {
            Number::NotANumber => Number::NotANumber,
            Number::Infinite { negative: y } => Number::Infinite { negative: *y },
            Number::Finite { negative: y, digits: q } => {
                proof {
                    lemma_overflow_bounds();
                }
                if *x == *y {
                    let t = add_digits(p, q);
                    finite_or_infinite_in(*x, t)
                } else if less_digits(q, p) {
                    Number::Finite { negative: *x, digits: sub_digits(p, q) }
                } else if less_digits(p, q) {
                    Number::Finite { negative: *y, digits: sub_digits(q, p) }
                } else {
                    zero_number(false)
                }
            },
        },
    }
}

/// The signed magnitude of a finite number.
pub open spec fn signed_magnitude(n: Value) -> int {
    match n {
        Value::Finite { negative, magnitude } => if negative {
            -(magnitude as int)
        } else {
            magnitude as int
        },
        _ => 0,
    }
}

/// Two monetary values are equal when both are finite and they differ by
/// less than half a cent.
pub open spec fn within_half_cent(a: Value, b: Value) -> bool {
    &&& a is Finite
    &&& b is Finite
    &&& -(half_cent() as int) < signed_magnitude(a) - signed_magnitude(b) < half_cent() as int
}

pub fn money_eq(a: &Number, b: &Number) -> (r: bool)
    requires
        a.wf(),
        b.wf(),
    ensures
        r == within_half_cent(a@, b@),
{
    match a {
        Number::Finite { negative: x, digits: p } => match b {
            Number::Finite { negative: y, digits: q } => {
                proof {
                    lemma_overflow_bounds();
                    assert(5 < pow10(1)) by {
                        reveal_with_fuel(pow10, 2);
                    }
                }
                let five = from_u128(5, 1);
                let half = place(&five, 0, 1, FRACTION_DIGITS - 3);
                assert(five@.subrange(0, 1) =~= five@);
                if *x == *y {
                    let gap = if less_digits(q, p) {
                        sub_digits(p, q)
                    } else {
                        sub_digits(q, p)
                    };
                    less_digits(&gap, &half)
                } else {
                    let t = add_digits(p, q);
                    less_digits(&t, &half)
                }
            },
            _ => false,
        },
        _ => false,
    }
}

// ---------------------------------------------------------------------------
// A percent compared as written
// ---------------------------------------------------------------------------

/// Whether the decimal text is exactly the whole number `units`, taken as
/// written (its digits and its exponent, with no rounding). A `-` sign
/// leaves only zero.
pub open spec fn equals_units(text: Seq<char>, units: nat) -> bool {
    let (negative, b) = sign_split(text);
    match decimal_parts(b) {
        Some((ip, fp, e)) => {
            let d = digits_value(ip + fp);
            let x = e - fp.len();
            &&& !negative || units == 0
            &&& if x >= 0 {
                d * pow10(x as nat) == units
            } else {
                d == units * pow10((-x) as nat)
            }
        },
        None => false,
    }
}

proof fn lemma_large_product(d: nat, x: nat)
    requires
        d >= 1,
        x >= 38,
    ensures
        d * pow10(x) >= SATURATION,
{
    lemma_pow10_38();
    lemma_pow10_monotone(38, x);
    assert(d * pow10(x) >= pow10(x)) by (nonlinear_arith)
        requires
            d >= 1,
            pow10(x) >= 0,
    ;
}

/// Whether the text is exactly the whole number `units` (see
/// [`equals_units`]).
#[verifier::rlimit(60)]
pub fn text_equals_units(s: &str, units: u32) -> (r: bool)
    ensures
        r == equals_units(s@, units as nat),
{
    let v = chars_of(s);
    let hi = v.len();
    let ghost text = v@;
    let mut p: usize = 0;
    let mut negative = false;
    if p < hi && v[p] == '-' {
        negative = true;
        p = p + 1;
    } else if p < hi && v[p] == '+' {
        p = p + 1;
    }
    let ghost b = v@.subrange(p as int, hi as int);
    proof {
        if text.len() > 0 {
            assert(text[0] == v@[0]);
        }
        if p > 0 {
            assert(text.drop_first() =~= b);
        } else {
            assert(text =~= b);
        }
        assert(sign_split(text) == (negative, b));
    }
    let (int_end, frac_start, frac_end, exp_negative, exp_mag) = match decimal_layout(&v, p, hi) {
        None => {
            return false;
        },
        Some(layout) => layout,
    };
    let ghost parts = decimal_parts(b)->0;
    let ghost fp = parts.1;
    let ghost e = parts.2;
    let ds = collect_digits(&v, p, int_end, frac_start, frac_end);
    let ghost d = digits_value(ds@);
    let ghost xe = e - fp.len();
    proof {
        assert(ds@ =~= parts.0 + fp);
        lemma_digits_value_bound(ds@);
        lemma_pow10_38();
    }
    if negative && units != 0 {
        return false;
    }
    let n = ds.len();
    let mut k: usize = 0;
    while k < n && ds[k] == '0'
        invariant
            k <= n == ds.len(),
            forall|j: int| 0 <= j < k ==> #[trigger] ds@[j] == '0',
        decreases n - k,
    {
        k = k + 1;
    }
    if k == n {
        proof {
            lemma_digits_value_zero(ds@);
            assert(d == 0);
            if xe >= 0 {
                assert(0 * pow10(xe as nat) == 0);
            } else {
                lemma_pow10_positive((-xe) as nat);
                assert(units * pow10((-xe) as nat) == 0 <==> units == 0) by (nonlinear_arith)
                    requires
                        pow10((-xe) as nat) >= 1,
                ;
            }
        }
        return units == 0;
    }
    proof {
        assert(ds@[k as int] != '0');
        lemma_digits_value_zero(ds@);
        assert(d > 0);
    }
    if units == 0 {
        proof {
            if xe >= 0 {
                lemma_pow10_positive(xe as nat);
                assert(d * pow10(xe as nat) > 0) by (nonlinear_arith)
                    requires
                        d > 0,
                        pow10(xe as nat) >= 1,
                ;
            }
        }
        return false;
    }
    let frac_len = (frac_end - frac_start) as i128;
    let exp_value: i128 = if exp_negative {
        0 - (exp_mag as i128)
    } else {
        exp_mag as i128
    };
    let x = exp_value - frac_len;
    if x >= 0 {
        let d_sat = prefix_value_sat(&ds, n);
        proof {
            assert(ds@.take(n as int) =~= ds@);
        }
        let prod = scale_up_sat(d_sat, x as u128, Ghost(d));
        proof {
            if exp_mag >= EXPONENT_CAP {
                lemma_large_product(d, x as nat);
                lemma_large_product(d, xe as nat);
            } else {
                assert(xe == x);
            }
        }
        return prod == units as u128;
    }
    let m_big: i128 = 0 - x;
    if m_big > n as i128 {
        proof {
            let me = (-xe) as nat;
            assert(me >= m_big);
            lemma_pow10_monotone(n as nat, me);
            assert(units * pow10(me) >= pow10(me)) by (nonlinear_arith)
                requires
                    units >= 1,
                    pow10(me) >= 0,
            ;
        }
        return false;
    }
    let m = m_big as usize;
    let at = n - m;
    let mut i = at;
    let mut zero_tail = true;
    while i < n
        invariant
            at <= i <= n == ds.len(),
            zero_tail <==> forall|j: int| at <= j < i ==> #[trigger] ds@[j] == '0',
        decreases n - i,
    {
        if ds[i] != '0' {
            zero_tail = false;
        }
        i = i + 1;
    }
    let q_sat = prefix_value_sat(&ds, at);
    proof {
        assert(exp_mag < EXPONENT_CAP);
        assert(xe == x);
        let pm = pow10(m as nat);
        let qv = digits_value(ds@.take(at as int));
        let rv = digits_value(ds@.skip(at as int));
        lemma_value_split(ds@, at as int);
        lemma_all_digits_skip(ds@, at as int);
        lemma_digits_value_bound(ds@.skip(at as int));
        lemma_digits_value_zero(ds@.skip(at as int));
        lemma_pow10_positive(m as nat);
        vstd::arithmetic::div_mod::lemma_fundamental_div_mod_converse(
            d as int,
            pm as int,
            qv as int,
            rv as int,
        );
        if zero_tail {
            assert forall|j: int| 0 <= j < ds@.skip(at as int).len() implies #[trigger] ds@.skip(
                at as int,
            )[j] == '0' by {
                assert(ds@.skip(at as int)[j] == ds@[at + j]);
            }
        } else {
            let j = choose|j: int| at <= j < n && ds@[j] != '0';
            assert(ds@.skip(at as int)[j - at] != '0');
        }
        if d == units * pm {
            vstd::arithmetic::div_mod::lemma_fundamental_div_mod_converse(
                d as int,
                pm as int,
                units as int,
                0,
            );
        }
    }
    zero_tail && q_sat == units as u128
}

// ---------------------------------------------------------------------------
// Rendering
// ---------------------------------------------------------------------------

pub open spec fn minus_if(negative: bool) -> Seq<char> {
    if negative {
        seq!['-']
    } else {
        Seq::empty()
    }
}

/// The text without its leading zeros, keeping its last character.
pub open spec fn strip_leading_zeros(s: Seq<char>) -> Seq<char>
    decreases s.len(),
{
    if s.len() > 1 && s[0] == '0' {
        strip_leading_zeros(s.drop_first())
    } else {
        s
    }
}

/// The text without its trailing zeros.
pub open spec fn strip_trailing_zeros(s: Seq<char>) -> Seq<char>
    decreases s.len(),
{
    if s.len() > 0 && s.last() == '0' {
        strip_trailing_zeros(s.drop_last())
    } else {
        s
    }
}

/// A number with two decimals, rounded half to even at the cent: the whole
/// cents written out with no leading zeros but one, a point, the last two
/// digits; `inf`, `-inf` or `NaN` otherwise.
pub open spec fn two_decimals(n: Value) -> Seq<char> {
    match n {
        Value::NotANumber => seq!['N', 'a', 'N'],
        Value::Infinite { negative } => minus_if(negative) + seq!['i', 'n', 'f'],
        Value::Finite { negative, magnitude } => {
            let cents = padded_digits(
                round_div_even(magnitude, pow10((FRACTION_DIGITS - 2) as nat)),
                (WIDTH - FRACTION_DIGITS + 2) as nat,
            );
            minus_if(negative) + strip_leading_zeros(cents.take(WIDTH - FRACTION_DIGITS))
                + seq!['.'] + cents.skip(WIDTH - FRACTION_DIGITS)
        },
    }
}

/// A number in plain decimal: the whole part with no leading zeros but
/// one, then the fraction without trailing zeros (and no point for a whole
/// number); `inf`, `-inf` or `NaN` otherwise.
pub open spec fn plain_decimal(n: Value) -> Seq<char> {
    match n {
        Value::NotANumber => seq!['N', 'a', 'N'],
        Value::Infinite { negative } => minus_if(negative) + seq!['i', 'n', 'f'],
        Value::Finite { negative, magnitude } => {
            let all = padded_digits(magnitude, WIDTH as nat);
            let frac = strip_trailing_zeros(all.skip(WIDTH - FRACTION_DIGITS));
            minus_if(negative) + strip_leading_zeros(all.take(WIDTH - FRACTION_DIGITS)) + if frac.len()
                == 0 {
                Seq::empty()
            } else {
                seq!['.'] + frac
            }
        },
    }
}

/// A digit string is the padded rendering of its own value.
proof fn lemma_padded_of_digits(s: Seq<char>)
    requires
        all_digits(s),
    ensures
        padded_digits(digits_value(s), s.len()) == s,
    decreases s.len(),
{
    if s.len() == 0 {
        assert(s =~= Seq::<char>::empty());
    } else {
        let s0 = s.drop_last();
        assert forall|i: int| 0 <= i < s0.len() implies is_digit(#[trigger] s0[i]) by {
            assert(s0[i] == s[i]);
        }
        lemma_padded_of_digits(s0);
        let v0 = digits_value(s0);
        let l = digit_value(s.last());
        assert(is_digit(s[s.len() - 1]));
        assert(digits_value(s) == v0 * 10 + l);
        vstd::arithmetic::div_mod::lemma_fundamental_div_mod_converse(
            (v0 * 10 + l) as int,
            10,
            v0 as int,
            l as int,
        );
        assert(digit_char(l) == s.last());
        assert(s0.push(s.last()) =~= s);
    }
}

proof fn lemma_strip_leading(t: Seq<char>, j: int)
    requires
        0 <= j < t.len(),
        forall|i: int| 0 <= i < j ==> #[trigger] t[i] == '0',
        j == t.len() - 1 || t[j] != '0',
    ensures
        strip_leading_zeros(t) == t.skip(j),
    decreases j,
{
    if j == 0 {
        assert(t.skip(0) =~= t);
    } else {
        assert(t[0] == '0');
        let t1 = t.drop_first();
        assert forall|i: int| 0 <= i < j - 1 implies #[trigger] t1[i] == '0' by {
            assert(t1[i] == t[i + 1]);
        }
        assert(t1[j - 1] == t[j]);
        lemma_strip_leading(t1, j - 1);
        assert(t1.skip(j - 1) =~= t.skip(j));
    }
}

proof fn lemma_strip_trailing(t: Seq<char>, e: int)
    requires
        0 <= e <= t.len(),
        forall|i: int| e <= i < t.len() ==> #[trigger] t[i] == '0',
        e == 0 || t[e - 1] != '0',
    ensures
        strip_trailing_zeros(t) == t.take(e),
    decreases t.len() - e,
{
    if e == t.len() {
        assert(t.take(e) =~= t);
    } else {
        assert(t.last() == '0');
        let t1 = t.drop_last();
        assert forall|i: int| e <= i < t1.len() implies #[trigger] t1[i] == '0' by {
            assert(t1[i] == t[i]);
        }
        if e > 0 {
            assert(t1[e - 1] == t[e - 1]);
        }
        lemma_strip_trailing(t1, e);
        assert(t1.take(e) =~= t.take(e));
    }
}

fn push_minus_if(s: &mut String, negative: bool)
    ensures
        final(s)@ == old(s)@ + minus_if(negative),
{
    if negative {
        push_char(s, '-');
    } else {
        assert(s@ =~= s@ + Seq::<char>::empty());
    }
}

fn push_inf(s: &mut String)
    ensures
        final(s)@ == old(s)@ + seq!['i', 'n', 'f'],
{
    push_char(s, 'i');
    push_char(s, 'n');
    push_char(s, 'f');
    assert(s@ =~= old(s)@ + seq!['i', 'n', 'f']);
}

fn push_nan(s: &mut String)
    ensures
        final(s)@ == old(s)@ + seq!['N', 'a', 'N'],
{
    push_char(s, 'N');
    push_char(s, 'a');
    push_char(s, 'N');
    assert(s@ =~= old(s)@ + seq!['N', 'a', 'N']);
}

/// Appends `v[lo..hi]`.
fn push_range(s: &mut String, v: &Vec<char>, lo: usize, hi: usize)
    requires
        lo <= hi <= v.len(),
    ensures
        final(s)@ == old(s)@ + v@.subrange(lo as int, hi as int),
{
    let ghost start = s@;
    let mut i = lo;
    assert(start =~= start + v@.subrange(lo as int, lo as int));
    while i < hi
        invariant
            lo <= i <= hi <= v.len(),
            s@ == start + v@.subrange(lo as int, i as int),
        decreases hi - i,
    {
        push_char(s, v[i]);
        i = i + 1;
        assert(s@ =~= start + v@.subrange(lo as int, i as int));
    }
}

/// Appends `v[..hi]` without its leading zeros (keeping its last digit).
fn push_without_leading_zeros(s: &mut String, v: &Vec<char>, hi: usize)
    requires
        0 < hi <= v.len(),
    ensures
        final(s)@ == old(s)@ + strip_leading_zeros(v@.take(hi as int)),
{
    let mut j: usize = 0;
    while j + 1 < hi && v[j] == '0'
        invariant
            j < hi <= v.len(),
            forall|i: int| 0 <= i < j ==> #[trigger] v@[i] == '0',
        decreases hi - j,
    {
        j = j + 1;
    }
    proof {
        let t = v@.take(hi as int);
        assert forall|i: int| 0 <= i < j implies #[trigger] t[i] == '0' by {
            assert(t[i] == v@[i]);
        }
        assert(t[j as int] == v@[j as int]);
        lemma_strip_leading(t, j as int);
        assert(t.skip(j as int) =~= v@.subrange(j as int, hi as int));
    }
    push_range(s, v, j, hi);
}

/// The first `k` digits of `v`.
fn prefix(v: &Vec<char>, k: usize) -> (r: Vec<char>)
    requires
        k <= v.len(),
    ensures
        r@ == v@.take(k as int),
{
    let mut r: Vec<char> = Vec::new();
    let mut i: usize = 0;
    while i < k
        invariant
            i <= k <= v.len(),
            r@ == v@.take(i as int),
        decreases k - i,
    {
        r.push(v[i]);
        i = i + 1;
        assert(r@ =~= v@.take(i as int));
    }
    r
}

/// Appends `n` with two decimals (see [`two_decimals`]).
pub fn push_two_decimals(s: &mut String, n: &Number)
    requires
        n.wf(),
    ensures
        final(s)@ == old(s)@ + two_decimals(n@),
{
    let ghost start = s@;
    match n {
        Number::NotANumber => push_nan(s),
        Number::Infinite { negative } => {
            push_minus_if(s, *negative);
            push_inf(s);
            assert(s@ =~= start + two_decimals(n@));
        },
        Number::Finite { negative, digits } => {
            let ghost v = digits_value(digits@);
            let cw = WIDTH - FRACTION_DIGITS + 2;
            let up = rounds_up(digits, cw);
            let q = prefix(digits, cw);
            proof {
                lemma_overflow_bounds();
                lemma_all_digits_skip(digits@, cw as int);
                lemma_value_split(digits@, cw as int);
                let f = (FRACTION_DIGITS - 2) as nat;
                lemma_pow10_adds(311, f);
                lemma_pow10_adds(311, 2);
                lemma_pow10_positive(311);
                lemma_pow10_positive(f);
                lemma_pow10_positive(2);
                let qv = digits_value(q@);
                assert(qv * pow10(f) <= v);
                assert(qv < pow10(311)) by (nonlinear_arith)
                    requires
                        qv * pow10(f) <= v,
                        v < pow10(311) * pow10(f),
                        pow10(f) >= 1,
                ;
                assert(pow10(2) >= 10) by {
                    reveal_with_fuel(pow10, 3);
                }
                assert(pow10(311) * pow10(2) >= 10 * pow10(311)) by (nonlinear_arith)
                    requires
                        pow10(2) >= 10,
                        pow10(311) >= 1,
                ;
                assert(qv + 1 < pow10(cw as nat));
                assert(1 < pow10(cw as nat));
            }
            let c = if up {
                let one = from_u128(1, cw);
                add_digits(&q, &one)
            } else {
                q
            };
            proof {
                lemma_padded_of_digits(c@);
            }
            push_minus_if(s, *negative);
            push_without_leading_zeros(s, &c, cw - 2);
            push_char(s, '.');
            push_range(s, &c, cw - 2, cw);
            assert(c@.skip(cw - 2) =~= c@.subrange(cw - 2, cw as int));
            assert(s@ =~= start + two_decimals(n@));
        },
    }
}

/// Appends `n` in plain decimal (see [`plain_decimal`]).
pub fn push_plain_decimal(s: &mut String, n: &Number)
    requires
        n.wf(),
    ensures
        final(s)@ == old(s)@ + plain_decimal(n@),
{
    let ghost start = s@;
    match n {
        Number::NotANumber => push_nan(s),
        Number::Infinite { negative } => {
            push_minus_if(s, *negative);
            push_inf(s);
            assert(s@ =~= start + plain_decimal(n@));
        },
        Number::Finite { negative, digits } => {
            proof {
                lemma_padded_of_digits(digits@);
            }
            push_minus_if(s, *negative);
            push_without_leading_zeros(s, digits, WIDTH - FRACTION_DIGITS);
            let mut e: usize = WIDTH;
            while e > WIDTH - FRACTION_DIGITS && digits[e - 1] == '0'
                invariant
                    WIDTH - FRACTION_DIGITS <= e <= WIDTH == digits.len(),
                    forall|i: int| e <= i < WIDTH ==> #[trigger] digits@[i] == '0',
                decreases e,
            {
                e = e - 1;
            }
            let ghost t = digits@.skip(WIDTH - FRACTION_DIGITS);
            proof {
                let e2 = e - (WIDTH - FRACTION_DIGITS);
                assert forall|i: int| e2 <= i < t.len() implies #[trigger] t[i] == '0' by {
                    assert(t[i] == digits@[WIDTH - FRACTION_DIGITS + i]);
                }
                if e2 > 0 {
                    assert(t[e2 - 1] == digits@[e - 1]);
                }
                lemma_strip_trailing(t, e2);
                assert(t.take(e2) =~= digits@.subrange(WIDTH - FRACTION_DIGITS, e as int));
            }
            if e > WIDTH - FRACTION_DIGITS {
                push_char(s, '.');
                push_range(s, digits, WIDTH - FRACTION_DIGITS, e);
            }
            assert(s@ =~= start + plain_decimal(n@));
        },
    }
}

} // verus!
