//! Whether a floating-point literal denotes a finite double.
//!
//! A literal `digits ['.' digits] [('e' | 'E') ['+' | '-'] digits]` denotes
//! the rational number `m * 10^k`: `m` is its digits, those after the point
//! included, read as one decimal number, and `k` is its exponent less the
//! number of digits after the point. Rounded to the nearest double, that
//! number is finite exactly when it lies below `2^1024 - 2^970`, the point
//! halfway between the largest finite double, `2^1024 - 2^971`, and
//! `2^1024`: a number at that point rounds to the even one of the two,
//! which is infinity.

use vstd::prelude::*;

verus! {

pub open spec fn is_digit(c: char) -> bool {
    '0' <= c && c <= '9'
}

pub open spec fn digit_of(c: char) -> nat {
    (c as nat - 48) as nat
}

pub open spec fn all_digits(s: Seq<char>) -> bool {
    forall|i: int| 0 <= i < s.len() ==> is_digit(#[trigger] s[i])
}

/// The value of the decimal digits `s`.
pub open spec fn dec_value(s: Seq<char>) -> nat
    decreases s.len(),
{
    if s.len() == 0 {
        0
    } else {
        dec_value(s.drop_last()) * 10 + digit_of(s.last())
    }
}

pub open spec fn pow10(n: nat) -> nat
    decreases n,
{
    if n == 0 { 1 } else { 10 * pow10((n - 1) as nat) }
}

pub open spec fn pow2(n: nat) -> nat
    decreases n,
{
    if n == 0 { 1 } else { 2 * pow2((n - 1) as nat) }
}

/// The numbers from `2^1024 - 2^970` up round to an infinite double.
pub open spec fn overflow_bound() -> nat {
    (pow2(1024) - pow2(970)) as nat
}

/// How many digits `s` starts with.
pub open spec fn lead_digits(s: Seq<char>) -> nat
    decreases s.len(),
{
    if s.len() == 0 || !is_digit(s[0]) {
        0
    } else {
        1 + lead_digits(s.drop_first())
    }
}

/// The digits before the point.
pub open spec fn int_digits(t: Seq<char>) -> Seq<char> {
    t.take(lead_digits(t) as int)
}

pub open spec fn after_int(t: Seq<char>) -> Seq<char> {
    t.skip(lead_digits(t) as int)
}

pub open spec fn has_point(t: Seq<char>) -> bool {
    after_int(t).len() > 0 && after_int(t)[0] == '.'
}

/// The digits after the point.
pub open spec fn frac_digits(t: Seq<char>) -> Seq<char> {
    if has_point(t) {
        after_int(t).skip(1).take(lead_digits(after_int(t).skip(1)) as int)
    } else {
        seq![]
    }
}

/// What follows the digits: the exponent, if any.
pub open spec fn exponent_part(t: Seq<char>) -> Seq<char> {
    if has_point(t) {
        after_int(t).skip(1).skip(lead_digits(after_int(t).skip(1)) as int)
    } else {
        after_int(t)
    }
}

/// The exponent part `ep` has a minus sign after its `e`.
pub open spec fn exp_negative(ep: Seq<char>) -> bool {
    ep.len() > 1 && ep[1] == '-'
}

/// The digits of the exponent part `ep`, after its `e` and its sign.
pub open spec fn exp_digits(ep: Seq<char>) -> Seq<char> {
    if ep.len() > 1 && (ep[1] == '-' || ep[1] == '+') {
        ep.skip(2)
    } else {
        ep.skip(1)
    }
}

/// The exponent part `ep` is nothing, or `e` or `E`, a sign or not, and
/// digits.
pub open spec fn exp_ok(ep: Seq<char>) -> bool {
    ep.len() == 0 || ((ep[0] == 'e' || ep[0] == 'E') && exp_digits(ep).len() >= 1 && all_digits(exp_digits(ep)))
}

/// The magnitude of the exponent written `ep`.
pub open spec fn exp_magnitude(ep: Seq<char>) -> nat {
    if ep.len() == 0 { 0 } else { dec_value(exp_digits(ep)) }
}

/// The exponent written `ep`.
pub open spec fn exp_value(ep: Seq<char>) -> int {
    if exp_negative(ep) { -(exp_magnitude(ep) as int) } else { exp_magnitude(ep) as int }
}

/// `t` is a decimal literal: a digit at least, before or after the point,
/// and then nothing or an exponent.
pub open spec fn well_formed(t: Seq<char>) -> bool {
    int_digits(t).len() + frac_digits(t).len() >= 1 && exp_ok(exponent_part(t))
}

pub open spec fn exponent(t: Seq<char>) -> int {
    exp_value(exponent_part(t))
}

/// All digits of the literal, read as one number.
pub open spec fn mantissa(t: Seq<char>) -> nat {
    dec_value(int_digits(t) + frac_digits(t))
}

/// The power of ten the mantissa is to be multiplied by.
pub open spec fn scale(t: Seq<char>) -> int {
    exponent(t) - frac_digits(t).len()
}

/// `m * 10^k < 2^1024 - 2^970`.
pub open spec fn below_bound(m: nat, k: int) -> bool {
    if k >= 0 {
        m * pow10(k as nat) < overflow_bound()
    } else {
        m < overflow_bound() * pow10((-k) as nat)
    }
}

/// Whether `t` is a decimal literal whose number rounds to a finite double.
pub open spec fn finite_double(t: Seq<char>) -> bool {
    well_formed(t) && below_bound(mantissa(t), scale(t))
}

// ---------------------------------------------------------------------------
// Powers and digits
// ---------------------------------------------------------------------------

proof fn lemma_pow10_adds(a: nat, b: nat)
    ensures
        pow10(a + b) == pow10(a) * pow10(b),
    decreases a,
{
    if a == 0 {
        assert(pow10(0) == 1);
        assert(pow10(a) * pow10(b) == pow10(b));
    } else {
        lemma_pow10_adds((a - 1) as nat, b);
        let x = pow10((a - 1) as nat);
        let y = pow10(b);
        assert(((a - 1) as nat + b) == (a + b - 1) as nat);
        assert((10 * x) * y == 10 * (x * y)) by (nonlinear_arith);
    }
}

proof fn lemma_pow10_pos(a: nat)
    ensures
        pow10(a) >= 1,
    decreases a,
{
    if a > 0 {
        lemma_pow10_pos((a - 1) as nat);
    }
}

proof fn lemma_pow10_mono(a: nat, b: nat)
    requires
        a <= b,
    ensures
        pow10(a) <= pow10(b),
    decreases b,
{
    if a < b {
        lemma_pow10_mono(a, (b - 1) as nat);
        lemma_pow10_pos((b - 1) as nat);
    }
}

proof fn lemma_pow2_adds(a: nat, b: nat)
    ensures
        pow2(a + b) == pow2(a) * pow2(b),
    decreases a,
{
    if a == 0 {
        assert(pow2(0) == 1);
        assert(pow2(a) * pow2(b) == pow2(b));
    } else {
        lemma_pow2_adds((a - 1) as nat, b);
        let x = pow2((a - 1) as nat);
        let y = pow2(b);
        assert(((a - 1) as nat + b) == (a + b - 1) as nat);
        assert((2 * x) * y == 2 * (x * y)) by (nonlinear_arith);
    }
}

/// The bound, written out, and the powers of ten around it.
proof fn lemma_bound_value()
    ensures
        overflow_bound() == 179769313486231580793728971405303415079934132710037826936173778980444968292764750946649017977587207096330286416692887910946555547851940402630657488671505820681908902000708383676273854845817711531764475730270069855571366959622842914819860834936475292719074168444365510704342711559699508093042880177904174497792nat,
        pow10(308) <= overflow_bound() < pow10(309),
        pow10(18) == 1_000_000_000_000_000_000,
{
    reveal_with_fuel(pow2, 9);
    assert(pow2(8) == 256);
    lemma_pow2_adds(8, 8);
    assert(pow2(16) == 65536nat);
    lemma_pow2_adds(16, 16);
    assert(pow2(32) == 4294967296nat);
    lemma_pow2_adds(32, 32);
    assert(pow2(64) == 18446744073709551616nat);
    lemma_pow2_adds(64, 64);
    assert(pow2(128) == 340282366920938463463374607431768211456nat);
    lemma_pow2_adds(128, 128);
    assert(pow2(256) == 115792089237316195423570985008687907853269984665640564039457584007913129639936nat);
    lemma_pow2_adds(256, 256);
    assert(pow2(512) == 13407807929942597099574024998205846127479365820592393377723561443721764030073546976801874298166903427690031858186486050853753882811946569946433649006084096nat);
    lemma_pow2_adds(512, 512);
    assert(pow2(1024) == 179769313486231590772930519078902473361797697894230657273430081157732675805500963132708477322407536021120113879871393357658789768814416622492847430639474124377767893424865485276302219601246094119453082952085005768838150682342462881473913110540827237163350510684586298239947245938479716304835356329624224137216nat);
    lemma_pow2_adds(512, 256);
    lemma_pow2_adds(768, 128);
    lemma_pow2_adds(896, 64);
    lemma_pow2_adds(960, 8);
    lemma_pow2_adds(968, 2);
    assert(pow2(2) == 4);
    reveal_with_fuel(pow10, 5);
    assert(pow10(4) == 10000);
    lemma_pow10_adds(4, 4);
    assert(pow10(8) == 100000000nat);
    lemma_pow10_adds(8, 8);
    assert(pow10(16) == 10000000000000000nat);
    lemma_pow10_adds(16, 16);
    assert(pow10(32) == 100000000000000000000000000000000nat);
    lemma_pow10_adds(32, 32);
    assert(pow10(64) == 10000000000000000000000000000000000000000000000000000000000000000nat);
    lemma_pow10_adds(64, 64);
    assert(pow10(128) == 100000000000000000000000000000000000000000000000000000000000000000000000000000000000000000000000000000000000000000000000000000000nat);
    lemma_pow10_adds(128, 128);
    assert(pow10(256) == 10000000000000000000000000000000000000000000000000000000000000000000000000000000000000000000000000000000000000000000000000000000000000000000000000000000000000000000000000000000000000000000000000000000000000000000000000000000000000000000000000000000000000000nat);
    lemma_pow10_adds(256, 32);
    lemma_pow10_adds(288, 16);
    lemma_pow10_adds(304, 4);
    lemma_pow10_adds(16, 2);
    assert(pow10(2) == 100);
    assert(pow10(308) == 100000000000000000000000000000000000000000000000000000000000000000000000000000000000000000000000000000000000000000000000000000000000000000000000000000000000000000000000000000000000000000000000000000000000000000000000000000000000000000000000000000000000000000000000000000000000000000000000000000000000000000000nat);
    assert(pow10(309) == 10 * pow10(308));
}

/// Digits written after others scale those by a power of ten.
proof fn lemma_dec_concat(s: Seq<char>, t: Seq<char>)
    ensures
        dec_value(s + t) == dec_value(s) * pow10(t.len()) + dec_value(t),
    decreases t.len(),
{
    if t.len() == 0 {
        assert(s + t =~= s);
        assert(pow10(0) == 1);
        assert(dec_value(t) == 0);
        assert(dec_value(s) * pow10(t.len()) == dec_value(s));
    } else {
        lemma_dec_concat(s, t.drop_last());
        assert((s + t).drop_last() =~= s + t.drop_last());
        assert((s + t).last() == t.last());
        let a = dec_value(s);
        let p = pow10(t.drop_last().len());
        let b = dec_value(t.drop_last());
        let d = digit_of(t.last());
        assert(dec_value(s + t) == dec_value(s + t.drop_last()) * 10 + d);
        assert(dec_value(t) == b * 10 + d);
        assert(pow10(t.len()) == 10 * p);
        assert((a * p + b) * 10 == a * (10 * p) + b * 10) by (nonlinear_arith);
    }
}

/// `n` digits stand for less than `10^n`.
proof fn lemma_dec_lt(s: Seq<char>)
    requires
        all_digits(s),
    ensures
        dec_value(s) < pow10(s.len()),
    decreases s.len(),
{
    if s.len() > 0 {
        lemma_dec_lt(s.drop_last());
        assert(is_digit(s[s.len() - 1]));
        assert(dec_value(s.drop_last()) + 1 <= pow10((s.len() - 1) as nat));
    }
}

/// Zeros stand for zero.
proof fn lemma_dec_zeros(s: Seq<char>)
    requires
        forall|i: int| 0 <= i < s.len() ==> #[trigger] s[i] == '0',
    ensures
        dec_value(s) == 0,
    decreases s.len(),
{
    if s.len() > 0 {
        lemma_dec_zeros(s.drop_last());
    }
}

/// `n` digits that do not start with a zero stand for `10^(n - 1)` at least.
proof fn lemma_dec_ge(s: Seq<char>)
    requires
        s.len() >= 1,
        all_digits(s),
        s[0] != '0',
    ensures
        dec_value(s) >= pow10((s.len() - 1) as nat),
{
    let head = s.take(1);
    let rest = s.skip(1);
    assert(s =~= head + rest);
    lemma_dec_concat(head, rest);
    assert(head.drop_last() =~= Seq::<char>::empty());
    assert(head.last() == s[0]);
    assert(dec_value(Seq::<char>::empty()) == 0);
    assert(dec_value(head) == digit_of(s[0]));
    assert(digit_of(s[0]) >= 1);
    let p = pow10(rest.len());
    assert(dec_value(head) * p >= p) by (nonlinear_arith)
        requires
            dec_value(head) >= 1,
    ;
}

// ---------------------------------------------------------------------------
// Comparing with the bound
// ---------------------------------------------------------------------------

/// `c` read in base `10^18`.
pub open spec fn horner(c: Seq<u64>) -> nat
    decreases c.len(),
{
    if c.len() == 0 {
        0
    } else {
        horner(c.drop_last()) * 1_000_000_000_000_000_000 + c.last() as nat
    }
}

pub open spec fn small(c: Seq<u64>) -> bool {
    forall|i: int| 0 <= i < c.len() ==> #[trigger] c[i] < 1_000_000_000_000_000_000
}

/// In base `10^18`, where two numbers of as many places first differ
/// decides which is smaller.
proof fn lemma_horner_lex(c: Seq<u64>, b: Seq<u64>, j: int)
    requires
        c.len() == b.len(),
        0 <= j < c.len(),
        small(c),
        small(b),
        forall|i: int| 0 <= i < j ==> c[i] == b[i],
        c[j] < b[j],
    ensures
        horner(c) < horner(b),
    decreases c.len(),
{
    let n = c.len() - 1;
    let hc = horner(c.drop_last());
    let hb = horner(b.drop_last());
    if j == n {
        assert(c.drop_last() =~= b.drop_last());
    } else {
        lemma_horner_lex(c.drop_last(), b.drop_last(), j);
        assert(c[n] < 1_000_000_000_000_000_000);
        assert(hc * 1_000_000_000_000_000_000 + 1_000_000_000_000_000_000 <= hb * 1_000_000_000_000_000_000) by (nonlinear_arith)
            requires
                hc + 1 <= hb,
        ;
    }
}

/// The 309 digits compared with the bound: the significant digits of
/// `m`, from position `z` on, cut or filled with zeros.
pub open spec fn leading309(m: Seq<char>, z: int) -> Seq<char> {
    Seq::new(309, |j: int| if z + j < m.len() { m[z + j] } else { '0' })
}

/// Where chunk `i` of 309 digits starts: the first has 3 digits, the other
/// 17 have 18 each.
pub open spec fn chunk_start(i: int) -> int {
    if i == 0 { 0 } else { 18 * i - 15 }
}

/// The value of chunk `i` of `s`.
pub open spec fn chunk(s: Seq<char>, i: int) -> nat {
    dec_value(s.subrange(chunk_start(i), chunk_start(i + 1)))
}

/// 309 digits are read chunk by chunk in base `10^18`.
proof fn lemma_chunks(s: Seq<char>, c: Seq<u64>, n: int)
    requires
        s.len() == 309,
        1 <= n <= 18,
        c.len() >= n,
        forall|i: int| 0 <= i < n ==> c[i] as nat == chunk(s, i),
    ensures
        dec_value(s.take(chunk_start(n))) == horner(c.take(n)),
    decreases n,
{
    lemma_bound_value();
    if n == 1 {
        assert(s.take(3) =~= s.subrange(0, 3));
        assert(chunk_start(1) == 3);
        assert(c.take(1).drop_last() =~= Seq::<u64>::empty());
        assert(c.take(1).last() == c[0]);
        assert(horner(Seq::<u64>::empty()) == 0);
        assert(horner(c.take(1)) == c[0] as nat);
    } else {
        lemma_chunks(s, c, n - 1);
        let prev = s.take(chunk_start(n - 1));
        let part = s.subrange(chunk_start(n - 1), chunk_start(n));
        assert(s.take(chunk_start(n)) =~= prev + part);
        lemma_dec_concat(prev, part);
        assert(part.len() == 18);
        assert(c.take(n).drop_last() =~= c.take(n - 1));
        assert(c.take(n).last() == c[n - 1]);
        assert(c[n - 1] as nat == dec_value(part));
        assert(horner(c.take(n)) == horner(c.take(n - 1)) * 1_000_000_000_000_000_000 + c[n - 1] as nat);
    }
}

/// Reads the 309 digits `leading309(m, z)` chunk by chunk.
fn chunks_of(m: &[char], z: usize) -> (c: Vec<u64>)
    requires
        z <= m@.len(),
        all_digits(m@),
    ensures
        c@.len() == 18,
        small(c@),
        forall|i: int| 0 <= i < 18 ==> #[trigger] c@[i] as nat == chunk(leading309(m@, z as int), i),
{
    let ghost s = leading309(m@, z as int);
    proof { lemma_bound_value(); }
    let mut c: Vec<u64> = Vec::new();
    let mut i: usize = 0;
    while i < 18
        invariant
            z <= m@.len(),
            all_digits(m@),
            s == leading309(m@, z as int),
            pow10(18) == 1_000_000_000_000_000_000,
            i <= 18,
            c@.len() == i,
            small(c@),
            forall|k: int| 0 <= k < i ==> #[trigger] c@[k] as nat == chunk(s, k),
        decreases 18 - i,
    {
        let lo: usize = if i == 0 { 0 } else { 18 * i - 15 };
        let hi: usize = 18 * i + 3;
        let mut v: u64 = 0;
        let mut j = lo;
        while j < hi
            invariant
                z <= m@.len(),
                all_digits(m@),
                s == leading309(m@, z as int),
                pow10(18) == 1_000_000_000_000_000_000,
                lo == chunk_start(i as int),
                hi == chunk_start(i + 1),
                lo <= j <= hi,
                hi - lo <= 18,
                hi <= 309,
                v as nat == dec_value(s.subrange(lo as int, j as int)),
            decreases hi - j,
        {
            let ch = if z < m.len() && j < m.len() - z { m[z + j] } else { '0' };
            assert(ch == s[j as int]);
            proof {
                assert(s.subrange(lo as int, j + 1).drop_last() =~= s.subrange(lo as int, j as int));
                if z + j < m@.len() {
                    assert(is_digit(m@[z + j]));
                }
                lemma_dec_lt(s.subrange(lo as int, j as int));
                lemma_pow10_mono((j - lo) as nat, 17);
                reveal_with_fuel(pow10, 19);
                assert(pow10(17) == 100_000_000_000_000_000);
            }
            v = v * 10 + ((ch as u64) - 48);
            j += 1;
        }
        proof {
            assert forall|k: int| 0 <= k < s.len() implies is_digit(#[trigger] s[k]) by {
                if z + k < m@.len() {
                    assert(is_digit(m@[z + k]));
                }
            }
            lemma_dec_lt(s.subrange(lo as int, hi as int));
            lemma_pow10_mono((hi - lo) as nat, 18);
        }
        c.push(v);
        i += 1;
    }
    c
}

/// The bound in base `10^18`.
proof fn lemma_bound_chunks(b: Seq<u64>)
    requires
        b == seq![179u64, 769313486231580793, 728971405303415079, 934132710037826936, 173778980444968292, 764750946649017977, 587207096330286416, 692887910946555547, 851940402630657488, 671505820681908902, 708383676273854, 845817711531764475, 730270069855571366, 959622842914819860, 834936475292719074, 168444365510704342, 711559699508093042, 880177904174497792],
    ensures
        horner(b) == overflow_bound(),
        small(b),
{
    lemma_bound_value();
    reveal_with_fuel(horner, 19);
}

/// Whether the 309 digits of `m` from `z` on, cut or filled with zeros,
/// stand for a number below the bound.
fn below_bound_309(m: &[char], z: usize) -> (r: bool)
    requires
        z <= m@.len(),
        all_digits(m@),
    ensures
        r == (dec_value(leading309(m@, z as int)) < overflow_bound()),
{
    let bound: [u64; 18] = [179, 769313486231580793, 728971405303415079, 934132710037826936, 173778980444968292, 764750946649017977, 587207096330286416, 692887910946555547, 851940402630657488, 671505820681908902, 708383676273854, 845817711531764475, 730270069855571366, 959622842914819860, 834936475292719074, 168444365510704342, 711559699508093042, 880177904174497792];
    let c = chunks_of(m, z);
    let ghost s = leading309(m@, z as int);
    proof {
        assert(bound@ =~= seq![179, 769313486231580793, 728971405303415079, 934132710037826936, 173778980444968292, 764750946649017977, 587207096330286416, 692887910946555547, 851940402630657488, 671505820681908902, 708383676273854, 845817711531764475, 730270069855571366, 959622842914819860, 834936475292719074, 168444365510704342, 711559699508093042, 880177904174497792]);
        lemma_bound_chunks(bound@);
        lemma_chunks(s, c@, 18);
        assert(s.take(309) =~= s);
        assert(c@.take(18) =~= c@);
    }
    let mut i: usize = 0;
    while i < 18
        invariant
            i <= 18,
            c@.len() == 18,
            bound@.len() == 18,
            small(c@),
            small(bound@),
            horner(bound@) == overflow_bound(),
            s == leading309(m@, z as int),
            dec_value(s) == horner(c@),
            forall|k: int| 0 <= k < i ==> c@[k] == bound@[k],
        decreases 18 - i,
    {
        if c[i] != bound[i] {
            proof {
                if c@[i as int] < bound@[i as int] {
                    lemma_horner_lex(c@, bound@, i as int);
                } else {
                    lemma_horner_lex(bound@, c@, i as int);
                }
            }
            return c[i] < bound[i];
        }
        i += 1;
    }
    assert(c@ =~= bound@);
    false
}

// ---------------------------------------------------------------------------
// Deciding
// ---------------------------------------------------------------------------

/// A number of `d` digits times `10^k` is below the bound when it has 308
/// places at most, and above when it has 310 at least.
proof fn lemma_range(m: nat, d: nat, k: int)
    requires
        d >= 1,
        pow10((d - 1) as nat) <= m < pow10(d),
    ensures
        d + k <= 308 ==> below_bound(m, k),
        d + k >= 310 ==> !below_bound(m, k),
{
    lemma_bound_value();
    let b = overflow_bound();
    if k >= 0 {
        let p = pow10(k as nat);
        lemma_pow10_pos(k as nat);
        lemma_pow10_adds(d, k as nat);
        lemma_pow10_adds((d - 1) as nat, k as nat);
        assert(m * p < pow10(d) * p) by (nonlinear_arith)
            requires
                m < pow10(d),
                p >= 1,
        ;
        assert(m * p >= pow10((d - 1) as nat) * p) by (nonlinear_arith)
            requires
                m >= pow10((d - 1) as nat),
        ;
        lemma_pow10_pos(k as nat);
        if d + k <= 308 {
            lemma_pow10_mono((d + k) as nat, 308);
        }
        if d + k >= 310 {
            lemma_pow10_mono(309, (d - 1 + k) as nat);
        }
    } else {
        let j = (-k) as nat;
        let p = pow10(j);
        lemma_pow10_pos(j);
        if d + k <= 308 {
            lemma_pow10_mono(d, 308 + j);
            lemma_pow10_adds(308, j);
            assert(pow10(308) * p <= b * p) by (nonlinear_arith)
                requires
                    pow10(308) <= b,
            ;
        }
        if d + k >= 310 {
            lemma_pow10_mono(309 + j, (d - 1) as nat);
            lemma_pow10_adds(309, j);
            assert(b * p < pow10(309) * p) by (nonlinear_arith)
                requires
                    b < pow10(309),
                    p >= 1,
            ;
        }
    }
}

/// With 309 places, the first 309 digits decide.
proof fn lemma_places_309(m: Seq<char>, z: int, k: int)
    requires
        0 <= z < m.len(),
        all_digits(m),
        (m.len() - z) + k == 309,
    ensures
        below_bound(dec_value(m.skip(z)), k) == (dec_value(leading309(m, z)) < overflow_bound()),
{
    let s = m.skip(z);
    let d = s.len();
    let l = leading309(m, z);
    let b = overflow_bound();
    assert(all_digits(s));
    if k >= 0 {
        let zeros = Seq::new((309 - d) as nat, |i: int| '0');
        assert(l =~= s + zeros);
        lemma_dec_concat(s, zeros);
        lemma_dec_zeros(zeros);
        assert((309 - d) as nat == k as nat);
    } else {
        let j = (-k) as nat;
        let head = s.take(309);
        let tail = s.skip(309);
        assert(l =~= head);
        assert(s =~= head + tail);
        lemma_dec_concat(head, tail);
        assert(tail.len() == j);
        assert(all_digits(tail));
        lemma_dec_lt(tail);
        let p = pow10(j);
        let h = dec_value(head);
        let r = dec_value(tail);
        if h < b {
            assert(h * p + r < b * p) by (nonlinear_arith)
                requires
                    h + 1 <= b,
                    r < p,
            ;
        } else {
            assert(h * p + r >= b * p) by (nonlinear_arith)
                requires
                    h >= b,
            ;
        }
    }
}

proof fn lemma_lead_digits(u: Seq<char>)
    ensures
        lead_digits(u) <= u.len(),
        lead_digits(u) < u.len() ==> !is_digit(u[lead_digits(u) as int]),
    decreases u.len(),
{
    if u.len() > 0 && is_digit(u[0]) {
        lemma_lead_digits(u.drop_first());
        if lead_digits(u) < u.len() {
            assert(u.drop_first()[lead_digits(u.drop_first()) as int] == u[lead_digits(u) as int]);
        }
    }
}

/// How many digits `s` has from `from` on.
fn lead_count(s: &[char], from: usize) -> (k: usize)
    requires
        from <= s@.len(),
    ensures
        from <= k <= s@.len(),
        k - from == lead_digits(s@.skip(from as int)),
        forall|i: int| from <= i < k ==> is_digit(#[trigger] s@[i]),
{
    let mut k = from;
    while k < s.len() && '0' <= s[k] && s[k] <= '9'
        invariant
            from <= k <= s@.len(),
            lead_digits(s@.skip(from as int)) == (k - from) + lead_digits(s@.skip(k as int)),
            forall|i: int| from <= i < k ==> is_digit(#[trigger] s@[i]),
        decreases s@.len() - k,
    {
        assert(s@.skip(k as int).drop_first() =~= s@.skip(k + 1));
        k += 1;
    }
    proof {
        if k < s@.len() {
            assert(s@.skip(k as int)[0] == s@[k as int]);
        }
    }
    k
}

/// The exponent written `s[x..]`, if it is one: its sign, and its
/// magnitude, capped at `2^62`.
fn read_exponent(s: &[char], x: usize) -> (r: Option<(bool, u128)>)
    requires
        x <= s@.len(),
    ensures
        match r {
            None => !exp_ok(s@.skip(x as int)),
            Some((neg, e)) => exp_ok(s@.skip(x as int))
                && exp_value(s@.skip(x as int)) == (if neg { -(exp_magnitude(s@.skip(x as int)) as int) } else { exp_magnitude(s@.skip(x as int)) as int })
                && e == (if exp_magnitude(s@.skip(x as int)) < 0x4000_0000_0000_0000 { exp_magnitude(s@.skip(x as int)) } else { 0x4000_0000_0000_0000nat }),
        },
{
    let ghost ep = s@.skip(x as int);
    let n = s.len();
    if x == n {
        return Some((false, 0));
    }
    if s[x] != 'e' && s[x] != 'E' {
        return None;
    }
    let mut q = x + 1;
    let neg = q < n && s[q] == '-';
    if q < n && (s[q] == '-' || s[q] == '+') {
        q = q + 1;
    }
    assert(exp_digits(ep) =~= s@.skip(q as int));
    if q == n {
        assert(exp_digits(ep).len() == 0);
        return None;
    }
    let end = lead_count(s, q);
    if end != n {
        proof {
            lemma_lead_digits(s@.skip(q as int));
            assert(s@.skip(q as int)[end - q] == s@[end as int]);
            assert(exp_digits(ep)[end - q] == s@[end as int]);
        }
        return None;
    }
    let cap: u128 = 0x4000_0000_0000_0000;
    let mut e: u128 = 0;
    let mut j = q;
    while j < n
        invariant
            q <= j <= n,
            n == s@.len(),
            cap == 0x4000_0000_0000_0000,
            forall|i: int| q <= i < n ==> is_digit(#[trigger] s@[i]),
            e == (if dec_value(s@.subrange(q as int, j as int)) < cap { dec_value(s@.subrange(q as int, j as int)) } else { cap as nat }),
        decreases n - j,
    {
        assert(s@.subrange(q as int, j + 1).drop_last() =~= s@.subrange(q as int, j as int));
        assert(is_digit(s@[j as int]));
        let dig = (s[j] as u128) - 48;
        if e < cap {
            let w = e * 10 + dig;
            e = if w >= cap { cap } else { w };
        }
        j += 1;
    }
    assert(s@.subrange(q as int, n as int) =~= exp_digits(ep));
    Some((neg, e))
}

/// The digits of `s` before the point at `a`, and, when there is a point,
/// those after it, up to `x`.
fn mantissa_digits(s: &[char], a: usize, point: bool, x: usize) -> (m: Vec<char>)
    requires
        a <= x <= s@.len(),
        point ==> a + 1 <= x,
        !point ==> x == a,
        forall|i: int| 0 <= i < a ==> is_digit(#[trigger] s@[i]),
        forall|i: int| a + 1 <= i < x ==> is_digit(#[trigger] s@[i]),
    ensures
        m@ == s@.subrange(0, a as int) + (if point { s@.subrange(a + 1, x as int) } else { seq![] }),
        all_digits(m@),
{
    let mut m: Vec<char> = Vec::new();
    let mut i: usize = 0;
    while i < a
        invariant
            i <= a <= s@.len(),
            m@ == s@.subrange(0, i as int),
        decreases a - i,
    {
        m.push(s[i]);
        assert(s@.subrange(0, i + 1) =~= s@.subrange(0, i as int).push(s@[i as int]));
        i += 1;
    }
    if point {
        let mut i: usize = a + 1;
        while i < x
            invariant
                a + 1 <= i <= x <= s@.len(),
                m@ == s@.subrange(0, a as int) + s@.subrange(a + 1, i as int),
            decreases x - i,
        {
            m.push(s[i]);
            assert(s@.subrange(a + 1, i + 1) =~= s@.subrange(a + 1, i as int).push(s@[i as int]));
            i += 1;
        }
    } else {
        assert(m@ =~= s@.subrange(0, a as int) + Seq::<char>::empty());
    }
    assert forall|k: int| 0 <= k < m@.len() implies is_digit(#[trigger] m@[k]) by {
        if k < a {
            assert(m@[k] == s@[k]);
        } else {
            assert(m@[k] == s@[k + 1]);
        }
    }
    m
}

/// Whether the number written with the digits `m`, times `10^k`, is below
/// the bound, where `k` is `e`, negated when `neg`, less `f`, and `e` is
/// capped at `2^62`.
fn decide(m: &[char], f: usize, neg: bool, e: u128, Ghost(mag): Ghost<nat>, Ghost(k): Ghost<int>) -> (r: bool)
    requires
        all_digits(m@),
        m@.len() < 0x1000_0000_0000_0000,
        f < 0x1000_0000_0000_0000,
        e == (if mag < 0x4000_0000_0000_0000 { mag } else { 0x4000_0000_0000_0000nat }),
        k == (if neg { -(mag as int) } else { mag as int }) - f,
    ensures
        r == below_bound(dec_value(m@), k),
{
    let mut z: usize = 0;
    while z < m.len() && m[z] == '0'
        invariant
            z <= m@.len(),
            forall|i: int| 0 <= i < z ==> #[trigger] m@[i] == '0',
        decreases m@.len() - z,
    {
        z += 1;
    }
    proof {
        assert(m@ =~= m@.take(z as int) + m@.skip(z as int));
        lemma_dec_concat(m@.take(z as int), m@.skip(z as int));
        lemma_dec_zeros(m@.take(z as int));
        lemma_bound_value();
        let zs = m@.take(z as int);
        let rest = m@.skip(z as int);
        assert(dec_value(zs) == 0);
        assert(dec_value(zs) * pow10(rest.len()) == 0);
        assert(dec_value(m@) == dec_value(zs + rest));
        assert(dec_value(m@) == dec_value(rest));
    }
    if z == m.len() {
        proof {
            assert(m@.skip(z as int) =~= Seq::<char>::empty());
            if k >= 0 {
                assert(0 * pow10(k as nat) == 0);
            } else {
                lemma_pow10_pos((-k) as nat);
                assert(overflow_bound() * pow10((-k) as nat) >= overflow_bound()) by (nonlinear_arith)
                    requires
                        pow10((-k) as nat) >= 1,
                ;
            }
        }
        return true;
    }
    let d = m.len() - z;
    proof {
        assert(all_digits(m@.skip(z as int)));
        assert(m@.skip(z as int)[0] == m@[z as int]);
        lemma_dec_ge(m@.skip(z as int));
        lemma_dec_lt(m@.skip(z as int));
        lemma_range(dec_value(m@), d as nat, k);
    }
    let signed: i128 = if neg { -(e as i128) } else { e as i128 };
    let places: i128 = d as i128 + signed - f as i128;
    if places <= 308 {
        return true;
    }
    if places >= 310 {
        return false;
    }
    proof {
        lemma_places_309(m@, z as int, k);
    }
    below_bound_309(m, z)
}

/// Whether the characters `s` are a decimal literal whose number rounds
/// to a finite double.
pub fn is_finite_double(s: &[char]) -> (r: bool)
    requires
        s@.len() < 0x1000_0000_0000_0000,
    ensures
        r == finite_double(s@),
{
    let ghost t = s@;
    let n = s.len();
    let a = lead_count(s, 0);
    let point = a < n && s[a] == '.';
    let f: usize = if point { lead_count(s, a + 1) - (a + 1) } else { 0 };
    let x: usize = if point { a + 1 + f } else { a };
    proof {
        assert(t.skip(0) =~= t);
        assert(int_digits(t) =~= t.subrange(0, a as int));
        assert(after_int(t) =~= t.skip(a as int));
        if point {
            assert(after_int(t)[0] == t[a as int]);
            assert(after_int(t).skip(1) =~= t.skip(a + 1));
            assert(frac_digits(t) =~= t.subrange(a + 1, x as int));
            assert(exponent_part(t) =~= t.skip(x as int));
        } else {
            assert(frac_digits(t) =~= Seq::<char>::empty());
            assert(exponent_part(t) =~= t.skip(x as int));
        }
    }
    if a + f == 0 {
        return false;
    }
    let (neg, e) = match read_exponent(s, x) {
        Some(p) => p,
        None => {
            return false;
        },
    };
    let m = mantissa_digits(s, a, point, x);
    proof {
        assert(m@ =~= int_digits(t) + frac_digits(t));
    }
    decide(m.as_slice(), f, neg, e, Ghost(exp_magnitude(exponent_part(t))), Ghost(scale(t)))
}

} // verus!
