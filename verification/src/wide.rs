//! Fixed-width decimal magnitudes.
//!
//! A magnitude is a string of decimal digits, most significant first. Two
//! strings of one length are added, subtracted and ordered digit by digit,
//! so values far beyond the machine integers stay exact. A finite amount is
//! held as its value times `10^FRACTION_DIGITS`, which holds every decimal
//! place of every binary64 float.

use vstd::prelude::*;

use crate::number::{
    digit_value, digits_value, is_digit, lemma_digits_value_bound, lemma_digits_value_concat,
    lemma_digits_value_zero, lemma_pow10_38, lemma_pow10_adds, lemma_pow10_positive, pow10,
};

verus! {

/// Decimal places kept for an amount: a binary64 float has at most 1074.
pub const FRACTION_DIGITS: usize = 1100;

/// Digits kept for a finite magnitude (its value times
/// `10^FRACTION_DIGITS`): 309 whole digits below the overflow bound, the
/// fraction, and room for the sum of two such magnitudes.
pub const WIDTH: usize = 1411;

/// `2^54 - 1`: the overflow bound is this times `2^970`.
pub const OVERFLOW_SEED: u128 = 18014398509481983u128;

pub open spec fn all_digits(s: Seq<char>) -> bool {
    forall|i: int| 0 <= i < s.len() ==> is_digit(#[trigger] s[i])
}

pub open spec fn two_pow(n: nat) -> nat
    decreases n,
{
    if n == 0 {
        1
    } else {
        2 * two_pow((n - 1) as nat)
    }
}

/// The first value that a binary64 float rounds to infinity, `2^1024 -
/// 2^970` (halfway between the largest finite float and `2^1024`, where
/// rounding to even goes up), as a magnitude: times `10^FRACTION_DIGITS`.
pub open spec fn overflow_magnitude() -> nat {
    ((two_pow(1024) - two_pow(970)) * pow10(FRACTION_DIGITS as nat)) as nat
}

pub proof fn lemma_two_pow_adds(a: nat, b: nat)
    ensures
        two_pow(a + b) == two_pow(a) * two_pow(b),
    decreases b,
{
    if b == 0 {
        assert(two_pow(0) == 1);
        assert(two_pow(a) * 1 == two_pow(a));
    } else {
        lemma_two_pow_adds(a, (b - 1) as nat);
        assert(two_pow(a + b) == 2 * two_pow((a + b - 1) as nat));
        assert(two_pow(a) * (2 * two_pow((b - 1) as nat)) == 2 * (two_pow(a) * two_pow(
            (b - 1) as nat,
        ))) by (nonlinear_arith);
    }
}

proof fn lemma_two_pow_positive(n: nat)
    ensures
        two_pow(n) >= 1,
    decreases n,
{
    if n > 0 {
        lemma_two_pow_positive((n - 1) as nat);
    }
}

proof fn lemma_two_pow_small()
    ensures
        two_pow(2) == 4,
        two_pow(8) == 256,
        two_pow(54) == 18014398509481984,
        two_pow(64) == 18446744073709551616,
{
    reveal_with_fuel(two_pow, 65);
}

proof fn lemma_ten_pow_small()
    ensures
        pow10(2) == 100,
        pow10(8) == 100000000,
        pow10(9) == 1000000000,
        pow10(10) == 10000000000,
{
    reveal_with_fuel(pow10, 11);
}

/// The bounds of `2^1024 - 2^970`, computed from the powers that define it.
proof fn lemma_float_bound()
    ensures
        pow10(308) <= two_pow(1024) - two_pow(970) < pow10(309),
        two_pow(1024) - two_pow(970) == OVERFLOW_SEED * two_pow(970),
{
    lemma_two_pow_small();
    lemma_ten_pow_small();
    lemma_two_pow_adds(64, 64);
    assert(two_pow(128) == 340282366920938463463374607431768211456);
    lemma_two_pow_adds(128, 128);
    assert(two_pow(256) == 115792089237316195423570985008687907853269984665640564039457584007913129639936);
    lemma_two_pow_adds(256, 256);
    assert(two_pow(512) == 13407807929942597099574024998205846127479365820592393377723561443721764030073546976801874298166903427690031858186486050853753882811946569946433649006084096);
    lemma_two_pow_adds(512, 512);
    assert(two_pow(1024) == 179769313486231590772930519078902473361797697894230657273430081157732675805500963132708477322407536021120113879871393357658789768814416622492847430639474124377767893424865485276302219601246094119453082952085005768838150682342462881473913110540827237163350510684586298239947245938479716304835356329624224137216);
    lemma_two_pow_adds(512, 256);
    assert(two_pow(768) == 1552518092300708935148979488462502555256886017116696611139052038026050952686376886330878408828646477950487730697131073206171580044114814391444287275041181139204454976020849905550265285631598444825262999193716468750892846853816057856);
    lemma_two_pow_adds(768, 128);
    assert(two_pow(896) == 528294531135665246352339784916516606518847326036121522127960709026673902556724859474417255887657187894674394993257128678882347559502685537250538978462939576908386683999005084168731517676426441053024232908211188404148028292751561738838396898767036476489538580897737998336);
    lemma_two_pow_adds(896, 64);
    assert(two_pow(960) == 9745314011399999080353382387875188310876226857595007526867906457212948690766426102465615065882010259225304916231408668183459169865203094046577987296312653419531277699956473029870789655490053648352799593479218378873685597925394874945746363615468965612827738803104277547081828589991914110976);
    lemma_two_pow_adds(960, 8);
    assert(two_pow(968) == 2494800386918399764570465891296048207584314075544321926878184053046514864836205082231197456865794626361678058555240619054965547485491992075923964747856039275400007091188857095646922151805453733978316695930679904991663513068901087986111069085560055196883901133594695052052948119037930012409856);
    lemma_two_pow_adds(968, 2);
    assert(two_pow(970) == 9979201547673599058281863565184192830337256302177287707512736212186059459344820328924789827463178505446712234220962476219862189941967968303695858991424157101600028364755428382587688607221814935913266783722719619966654052275604351944444276342240220787535604534378780208211792476151720049639424);
    lemma_two_pow_adds(54, 970);
    lemma_pow10_adds(10, 10);
    assert(pow10(20) == 100000000000000000000);
    lemma_pow10_adds(20, 20);
    assert(pow10(40) == 10000000000000000000000000000000000000000);
    lemma_pow10_adds(40, 40);
    assert(pow10(80) == 100000000000000000000000000000000000000000000000000000000000000000000000000000000);
    lemma_pow10_adds(80, 80);
    assert(pow10(160) == 10000000000000000000000000000000000000000000000000000000000000000000000000000000000000000000000000000000000000000000000000000000000000000000000000000000000000000);
    lemma_pow10_adds(160, 80);
    assert(pow10(240) == 1000000000000000000000000000000000000000000000000000000000000000000000000000000000000000000000000000000000000000000000000000000000000000000000000000000000000000000000000000000000000000000000000000000000000000000000000000000000000000000000000);
    lemma_pow10_adds(240, 40);
    assert(pow10(280) == 10000000000000000000000000000000000000000000000000000000000000000000000000000000000000000000000000000000000000000000000000000000000000000000000000000000000000000000000000000000000000000000000000000000000000000000000000000000000000000000000000000000000000000000000000000000000000000);
    lemma_pow10_adds(280, 20);
    assert(pow10(300) == 1000000000000000000000000000000000000000000000000000000000000000000000000000000000000000000000000000000000000000000000000000000000000000000000000000000000000000000000000000000000000000000000000000000000000000000000000000000000000000000000000000000000000000000000000000000000000000000000000000000000000);
    lemma_pow10_adds(300, 9);
    assert(pow10(309) == 1000000000000000000000000000000000000000000000000000000000000000000000000000000000000000000000000000000000000000000000000000000000000000000000000000000000000000000000000000000000000000000000000000000000000000000000000000000000000000000000000000000000000000000000000000000000000000000000000000000000000000000000);
    lemma_pow10_adds(300, 8);
    assert(pow10(308) == 100000000000000000000000000000000000000000000000000000000000000000000000000000000000000000000000000000000000000000000000000000000000000000000000000000000000000000000000000000000000000000000000000000000000000000000000000000000000000000000000000000000000000000000000000000000000000000000000000000000000000000000);
    assert(two_pow(1024) - two_pow(970) == OVERFLOW_SEED * two_pow(970));
}

/// The bounds of the overflow magnitude.
pub proof fn lemma_overflow_bounds()
    ensures
        pow10((WIDTH - 3) as nat) <= overflow_magnitude() < pow10((WIDTH - 2) as nat),
        pow10((WIDTH - 2) as nat) * 100 == pow10(WIDTH as nat),
        overflow_magnitude() == OVERFLOW_SEED * pow10(FRACTION_DIGITS as nat) * two_pow(970),
{
    lemma_float_bound();
    lemma_ten_pow_small();
    let f = FRACTION_DIGITS as nat;
    let p = pow10(f);
    let a = two_pow(1024) - two_pow(970);
    lemma_pow10_adds(308, f);
    lemma_pow10_adds(309, f);
    lemma_pow10_adds((WIDTH - 2) as nat, 2);
    lemma_pow10_positive(f);
    assert(pow10(308) * p <= a * p < pow10(309) * p) by (nonlinear_arith)
        requires
            pow10(308) <= a < pow10(309),
            p >= 1,
    ;
    assert(a * p == OVERFLOW_SEED * p * two_pow(970)) by (nonlinear_arith)
        requires
            a == OVERFLOW_SEED * two_pow(970),
    ;
}
pub proof fn lemma_value_single(c: char)
    ensures
        digits_value(seq![c]) == digit_value(c),
{
    assert(seq![c].drop_last() =~= Seq::<char>::empty());
    assert(seq![c].last() == c);
    assert(digits_value(Seq::<char>::empty()) == 0);
}

/// The value of a digit string splits at any point.
pub proof fn lemma_value_split(s: Seq<char>, i: int)
    requires
        0 <= i <= s.len(),
    ensures
        digits_value(s) == digits_value(s.take(i)) * pow10((s.len() - i) as nat) + digits_value(
            s.skip(i),
        ),
{
    assert(s.take(i) + s.skip(i) =~= s);
    lemma_digits_value_concat(s.take(i), s.skip(i));
}

/// The value of `s[i..]` is its first digit in place plus the rest.
pub proof fn lemma_value_skip(s: Seq<char>, i: int)
    requires
        0 <= i < s.len(),
    ensures
        digits_value(s.skip(i)) == digit_value(s[i]) * pow10((s.len() - i - 1) as nat)
            + digits_value(s.skip(i + 1)),
{
    assert(s.skip(i) =~= seq![s[i]] + s.skip(i + 1));
    lemma_digits_value_concat(seq![s[i]], s.skip(i + 1));
    lemma_value_single(s[i]);
}

pub proof fn lemma_all_digits_skip(s: Seq<char>, i: int)
    requires
        0 <= i <= s.len(),
        all_digits(s),
    ensures
        all_digits(s.skip(i)),
        all_digits(s.take(i)),
{
    assert forall|k: int| 0 <= k < s.skip(i).len() implies is_digit(#[trigger] s.skip(i)[k]) by {
        assert(s.skip(i)[k] == s[i + k]);
    }
    assert forall|k: int| 0 <= k < s.take(i).len() implies is_digit(#[trigger] s.take(i)[k]) by {
        assert(s.take(i)[k] == s[k]);
    }
}

pub fn digit_in(c: char) -> (r: u8)
    requires
        is_digit(c),
    ensures
        r == digit_value(c),
        r <= 9,
{
    (c as u32 - 48u32) as u8
}

pub fn digit_of(d: u8) -> (c: char)
    requires
        d <= 9,
    ensures
        is_digit(c),
        digit_value(c) == d,
{
    (48u8 + d) as char
}

/// `n` zeros.
pub fn zeros(n: usize) -> (r: Vec<char>)
    ensures
        r@.len() == n,
        all_digits(r@),
        digits_value(r@) == 0,
        forall|i: int| 0 <= i < n ==> #[trigger] r@[i] == '0',
{
    let mut r: Vec<char> = Vec::new();
    while r.len() < n
        invariant
            r@.len() <= n,
            forall|i: int| 0 <= i < r@.len() ==> #[trigger] r@[i] == '0',
        decreases n - r.len(),
    {
        r.push('0');
    }
    proof {
        lemma_digits_value_zero(r@);
    }
    r
}

/// The `n`-digit string of `x`.
pub fn from_u128(x: u128, n: usize) -> (r: Vec<char>)
    requires
        x < pow10(n as nat),
    ensures
        r@.len() == n,
        all_digits(r@),
        digits_value(r@) == x,
{
    let mut r = zeros(n);
    let mut rest = x;
    let mut i = n;
    proof {
        assert(r@.skip(n as int) =~= Seq::<char>::empty());
        assert(pow10(0) == 1);
        assert(rest * 1 == rest);
    }
    while i > 0
        invariant
            i <= n,
            r@.len() == n,
            all_digits(r@),
            rest < pow10(i as nat),
            rest * pow10((n - i) as nat) + digits_value(r@.skip(i as int)) == x,
        decreases i,
    {
        i = i - 1;
        let d = (rest % 10) as u8;
        let ghost old_r = r@;
        r.set(i, digit_of(d));
        proof {
            assert(r@.skip(i + 1) =~= old_r.skip(i + 1));
            lemma_value_skip(r@, i as int);
            let p = pow10((n - i - 1) as nat);
            let t = digits_value(r@.skip(i + 1));
            assert(pow10((n - i) as nat) == 10 * p);
            assert(pow10((i + 1) as nat) == 10 * pow10(i as nat));
            assert(rest * p == (rest / 10) * (10 * p) + (rest % 10) * p) by (nonlinear_arith);
            assert(rest / 10 < pow10(i as nat)) by (nonlinear_arith)
                requires
                    rest < 10 * pow10(i as nat),
            ;
        }
        rest = rest / 10;
    }
    proof {
        assert(r@.skip(0) =~= r@);
        assert(pow10(0) == 1);
    }
    r
}

/// `a + b` for digit strings of one length whose sum needs no more digits.
pub fn add_digits(a: &Vec<char>, b: &Vec<char>) -> (r: Vec<char>)
    requires
        a.len() == b.len(),
        all_digits(a@),
        all_digits(b@),
        digits_value(a@) + digits_value(b@) < pow10(a.len() as nat),
    ensures
        r@.len() == a.len(),
        all_digits(r@),
        digits_value(r@) == digits_value(a@) + digits_value(b@),
{
    let n = a.len();
    let mut r = zeros(n);
    let mut carry: u8 = 0;
    let mut i = n;
    proof {
        assert(r@.skip(n as int) =~= Seq::<char>::empty());
        assert(a@.skip(n as int) =~= Seq::<char>::empty());
        assert(b@.skip(n as int) =~= Seq::<char>::empty());
    }
    while i > 0
        invariant
            n == a.len() == b.len() == r.len(),
            all_digits(a@),
            all_digits(b@),
            all_digits(r@),
            i <= n,
            carry <= 1,
            digits_value(r@.skip(i as int)) + carry * pow10((n - i) as nat) == digits_value(
                a@.skip(i as int),
            ) + digits_value(b@.skip(i as int)),
        decreases i,
    {
        i = i - 1;
        let da = digit_in(a[i]);
        let db = digit_in(b[i]);
        let s = da + db + carry;
        let d = s % 10;
        let c2 = s / 10;
        let ghost old_r = r@;
        r.set(i, digit_of(d));
        proof {
            assert(r@.skip(i + 1) =~= old_r.skip(i + 1));
            lemma_value_skip(r@, i as int);
            lemma_value_skip(a@, i as int);
            lemma_value_skip(b@, i as int);
            let p = pow10((n - i - 1) as nat);
            assert(pow10((n - i) as nat) == 10 * p);
            let ra = digits_value(r@.skip(i + 1));
            let ta = digits_value(a@.skip(i + 1));
            let tb = digits_value(b@.skip(i + 1));
            assert(d * p + ra + c2 * (10 * p) == da * p + ta + (db * p + tb)) by (nonlinear_arith)
                requires
                    s == d + 10 * c2,
                    s == da + db + carry,
                    ra + carry * p == ta + tb,
            ;
        }
        carry = c2;
    }
    proof {
        assert(r@.skip(0) =~= r@);
        assert(a@.skip(0) =~= a@);
        assert(b@.skip(0) =~= b@);
        lemma_digits_value_bound(r@);
    }
    r
}

/// `a - b` for digit strings of one length with `a >= b`.
pub fn sub_digits(a: &Vec<char>, b: &Vec<char>) -> (r: Vec<char>)
    requires
        a.len() == b.len(),
        all_digits(a@),
        all_digits(b@),
        digits_value(a@) >= digits_value(b@),
    ensures
        r@.len() == a.len(),
        all_digits(r@),
        digits_value(r@) == digits_value(a@) - digits_value(b@),
{
    let n = a.len();
    let mut r = zeros(n);
    let mut borrow: u8 = 0;
    let mut i = n;
    proof {
        assert(r@.skip(n as int) =~= Seq::<char>::empty());
        assert(a@.skip(n as int) =~= Seq::<char>::empty());
        assert(b@.skip(n as int) =~= Seq::<char>::empty());
    }
    while i > 0
        invariant
            n == a.len() == b.len() == r.len(),
            all_digits(a@),
            all_digits(b@),
            all_digits(r@),
            i <= n,
            borrow <= 1,
            digits_value(r@.skip(i as int)) + digits_value(b@.skip(i as int)) == digits_value(
                a@.skip(i as int),
            ) + borrow * pow10((n - i) as nat),
        decreases i,
    {
        i = i - 1;
        let da = digit_in(a[i]);
        let db = digit_in(b[i]);
        let s = da + 10 - db - borrow;
        let d = s % 10;
        let b2: u8 = if s >= 10 {
            0
        } else {
            1
        };
        let ghost old_r = r@;
        r.set(i, digit_of(d));
        proof {
            assert(r@.skip(i + 1) =~= old_r.skip(i + 1));
            lemma_value_skip(r@, i as int);
            lemma_value_skip(a@, i as int);
            lemma_value_skip(b@, i as int);
            let p = pow10((n - i - 1) as nat);
            assert(pow10((n - i) as nat) == 10 * p);
            let ra = digits_value(r@.skip(i + 1));
            let ta = digits_value(a@.skip(i + 1));
            let tb = digits_value(b@.skip(i + 1));
            assert(s == d + 10 * (1 - b2));
            assert(d * p + ra + (db * p + tb) == da * p + ta + b2 * (10 * p)) by (nonlinear_arith)
                requires
                    s == d + 10 * (1 - b2),
                    s == da + 10 - db - borrow,
                    ra + tb == ta + borrow * p,
            ;
        }
        borrow = b2;
    }
    proof {
        assert(r@.skip(0) =~= r@);
        assert(a@.skip(0) =~= a@);
        assert(b@.skip(0) =~= b@);
        lemma_digits_value_bound(r@);
        lemma_digits_value_bound(a@);
        assert(digits_value(r@) + digits_value(b@) == digits_value(a@) + borrow * pow10(
            n as nat,
        ));
        if borrow == 1 {
            assert(digits_value(r@) >= pow10(n as nat));
        }
    }
    r
}

/// Whether `a < b`, for digit strings of one length.
pub fn less_digits(a: &Vec<char>, b: &Vec<char>) -> (r: bool)
    requires
        a.len() == b.len(),
        all_digits(a@),
        all_digits(b@),
    ensures
        r == (digits_value(a@) < digits_value(b@)),
{
    let n = a.len();
    let mut i: usize = 0;
    assert(a@.take(0) =~= b@.take(0));
    while i < n && a[i] == b[i]
        invariant
            i <= n == a.len() == b.len(),
            a@.take(i as int) == b@.take(i as int),
        decreases n - i,
    {
        proof {
            assert(a@.take(i + 1) =~= a@.take(i as int).push(a@[i as int]));
            assert(b@.take(i + 1) =~= b@.take(i as int).push(b@[i as int]));
        }
        i = i + 1;
    }
    if i == n {
        proof {
            assert(a@ =~= a@.take(n as int));
            assert(b@ =~= b@.take(n as int));
        }
        return false;
    }
    let da = digit_in(a[i]);
    let db = digit_in(b[i]);
    proof {
        lemma_value_split(a@, i as int);
        lemma_value_split(b@, i as int);
        lemma_value_skip(a@, i as int);
        lemma_value_skip(b@, i as int);
        lemma_all_digits_skip(a@, i + 1);
        lemma_all_digits_skip(b@, i + 1);
        lemma_digits_value_bound(a@.skip(i + 1));
        lemma_digits_value_bound(b@.skip(i + 1));
        let p = pow10((n - i - 1) as nat);
        let ta = digits_value(a@.skip(i + 1));
        let tb = digits_value(b@.skip(i + 1));
        assert(da != db);
        assert((da * p + ta < db * p + tb) <==> (da < db)) by (nonlinear_arith)
            requires
                0 <= ta < p,
                0 <= tb < p,
                da != db,
                0 <= da,
                0 <= db,
        ;
    }
    da < db
}

/// The digits `ds[lo..hi]` followed by `extra` zeros, as a `WIDTH`-digit
/// string.
pub fn place(ds: &Vec<char>, lo: usize, hi: usize, extra: usize) -> (w: Vec<char>)
    requires
        lo <= hi <= ds.len(),
        hi - lo + extra <= WIDTH,
        all_digits(ds@),
    ensures
        w@.len() == WIDTH,
        all_digits(w@),
        digits_value(w@) == digits_value(ds@.subrange(lo as int, hi as int)) * pow10(extra as nat),
{
    let mut w = zeros(WIDTH - (hi - lo) - extra);
    let ghost z = w@;
    let mut i = lo;
    assert(w@ =~= z + ds@.subrange(lo as int, lo as int));
    while i < hi
        invariant
            lo <= i <= hi <= ds.len(),
            w@ == z + ds@.subrange(lo as int, i as int),
        decreases hi - i,
    {
        w.push(ds[i]);
        i = i + 1;
        assert(w@ =~= z + ds@.subrange(lo as int, i as int));
    }
    let ghost t = ds@.subrange(lo as int, hi as int);
    let ghost zt = w@;
    let ghost mut e: Seq<char> = Seq::empty();
    let mut j: usize = 0;
    assert(zt =~= zt + e);
    while j < extra
        invariant
            j <= extra,
            w@ == zt + e,
            e.len() == j,
            forall|x: int| 0 <= x < e.len() ==> #[trigger] e[x] == '0',
        decreases extra - j,
    {
        w.push('0');
        proof {
            e = e.push('0');
        }
        j = j + 1;
        assert(w@ =~= zt + e);
    }
    proof {
        assert forall|x: int| 0 <= x < t.len() implies is_digit(#[trigger] t[x]) by {
            assert(t[x] == ds@[lo + x]);
        }
        assert forall|x: int| 0 <= x < e.len() implies is_digit(#[trigger] e[x]) by {}
        lemma_digits_value_concat(z, t);
        assert(digits_value(z) * pow10(t.len()) == 0);
        lemma_digits_value_zero(e);
        lemma_digits_value_concat(zt, e);
        assert forall|x: int| 0 <= x < w@.len() implies is_digit(#[trigger] w@[x]) by {
            if x < z.len() {
                assert(w@[x] == z[x]);
            } else if x < zt.len() {
                assert(w@[x] == t[x - z.len()]);
            } else {
                assert(w@[x] == e[x - zt.len()]);
            }
        }
    }
    w
}

/// The overflow bound as a `WIDTH`-digit string.
pub fn overflow_digits() -> (r: Vec<char>)
    ensures
        r@.len() == WIDTH,
        all_digits(r@),
        digits_value(r@) == overflow_magnitude(),
{
    let ghost c = OVERFLOW_SEED * pow10(FRACTION_DIGITS as nat);
    proof {
        lemma_overflow_bounds();
        lemma_two_pow_positive(970);
        lemma_pow10_38();
        lemma_pow10_positive(FRACTION_DIGITS as nat);
        assert(c >= 1) by (nonlinear_arith)
            requires
                c == OVERFLOW_SEED * pow10(FRACTION_DIGITS as nat),
                pow10(FRACTION_DIGITS as nat) >= 1,
        ;
        assert(c * 1 <= c * two_pow(970)) by (nonlinear_arith)
            requires
                two_pow(970) >= 1,
                c >= 1,
        ;
    }
    let seed = from_u128(OVERFLOW_SEED, 38);
    let mut x = place(&seed, 0, 38, FRACTION_DIGITS);
    assert(seed@.subrange(0, 38) =~= seed@);
    let mut i: usize = 0;
    proof {
        assert(two_pow(0) == 1);
    }
    while i < 970
        invariant
            i <= 970,
            x@.len() == WIDTH,
            all_digits(x@),
            digits_value(x@) == c * two_pow(i as nat),
            c >= 1,
            overflow_magnitude() == c * two_pow(970),
            overflow_magnitude() < pow10((WIDTH - 2) as nat),
            pow10((WIDTH - 2) as nat) * 100 == pow10(WIDTH as nat),
        decreases 970 - i,
    {
        proof {
            lemma_two_pow_adds((i + 1) as nat, (970 - i - 1) as nat);
            lemma_two_pow_positive((970 - i - 1) as nat);
            let t = two_pow((i + 1) as nat);
            assert(t == 2 * two_pow(i as nat));
            assert(c * t <= c * (t * two_pow((970 - i - 1) as nat))) by (nonlinear_arith)
                requires
                    two_pow((970 - i - 1) as nat) >= 1,
                    t >= 0,
                    c >= 0,
            ;
            assert(c * two_pow(i as nat) + c * two_pow(i as nat) == c * t) by (nonlinear_arith)
                requires
                    t == 2 * two_pow(i as nat),
            ;
        }
        x = add_digits(&x, &x);
        i = i + 1;
    }
    x
}

} // verus!
