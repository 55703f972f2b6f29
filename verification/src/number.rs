//! Numbers. A number of the language is an IEEE 754 double; here it is held
//! as its 64 bits. What the bits say outright (order, zero, conversion from
//! and to integers) is computed from them. What needs the arithmetic of the
//! machine comes from a [`Numbers`].

use crate::ast::BinOp;
#[allow(unused_imports)]
use vstd::arithmetic::power2::*;
use vstd::prelude::*;

verus! {

/// The bits of a double.
pub type Bits = u64;

/// 2^52: the number of fractions that share one exponent.
pub const UNIT: u64 = 0x0010_0000_0000_0000;

/// The sign bit.
pub const SIGN: u64 = 0x8000_0000_0000_0000;

/// The bits of 1.0.
pub const ONE: u64 = 0x3ff0_0000_0000_0000;

/// The bits of the quiet NaN.
pub const NAN: u64 = 0x7ff8_0000_0000_0000;

/// The operations on doubles that their bits alone do not answer. An
/// implementation is free to answer as it likes; see [`computes`].
pub trait Numbers {
    /// The number that `text` denotes, if it denotes one.
    fn parse(&self, text: &str) -> Option<Bits>;

    /// The shortest decimal text that denotes `n`.
    fn show(&self, n: Bits) -> String;

    /// `l op r` where `op` is `+`, `-`, `*`, `/` or `^`.
    fn arith(&self, op: BinOp, l: Bits, r: Bits) -> Bits;

    /// `x` to the power of an integer.
    fn powi(&self, x: Bits, n: i32) -> Bits;
}

/// Four functions, one for each operation of a [`Numbers`].
#[verifier::ext_equal]
pub struct NumberModel {
    pub parse: spec_fn(Seq<char>) -> Option<Bits>,
    pub show: spec_fn(Bits) -> Seq<char>,
    pub arith: spec_fn(BinOp, Bits, Bits) -> Bits,
    pub powi: spec_fn(Bits, i32) -> Bits,
}

/// Whatever `n` answers is what `m` says.
pub open spec fn computes<N: Numbers>(n: N, m: NumberModel) -> bool {
    &&& forall|s: &str, r: Option<Bits>| #[trigger]
        call_ensures(N::parse, (&n, s), r) ==> r == (m.parse)(s@)
    &&& forall|b: Bits, r: String| #[trigger]
        call_ensures(N::show, (&n, b), r) ==> r@ == (m.show)(b)
    &&& forall|op: BinOp, x: Bits, y: Bits, r: Bits| #[trigger]
        call_ensures(N::arith, (&n, op, x, y), r) ==> r == (m.arith)(op, x, y)
    &&& forall|x: Bits, k: i32, r: Bits| #[trigger]
        call_ensures(N::powi, (&n, x, k), r) ==> r == (m.powi)(x, k)
}

/// Whether the sign bit is set.
pub open spec fn is_negative(b: Bits) -> bool {
    b >= SIGN
}

/// The bits without the sign bit.
pub open spec fn magnitude(b: Bits) -> int {
    if is_negative(b) {
        b - SIGN
    } else {
        b as int
    }
}

/// Whether the bits are those of a NaN.
pub open spec fn is_nan(b: Bits) -> bool {
    magnitude(b) > 0x7ff0_0000_0000_0000
}

/// Whether the number is neither infinite nor NaN.
pub open spec fn is_finite(b: Bits) -> bool {
    magnitude(b) < 0x7ff0_0000_0000_0000
}

/// What a magnitude stands for, in units of 2^-1074. (An infinity stands for
/// 2^1024.)
pub open spec fn scaled_magnitude(mag: int) -> int {
    let e = mag / (UNIT as int);
    let f = mag % (UNIT as int);
    if e == 0 {
        f
    } else {
        (UNIT + f) * pow2((e - 1) as nat)
    }
}

/// The value of a number that is not NaN, in units of 2^-1074.
pub open spec fn scaled(b: Bits) -> int {
    if is_negative(b) {
        -scaled_magnitude(magnitude(b))
    } else {
        scaled_magnitude(magnitude(b))
    }
}

/// `a < b`: false where either is NaN.
pub open spec fn less(a: Bits, b: Bits) -> bool {
    !is_nan(a) && !is_nan(b) && scaled(a) < scaled(b)
}

/// `a == b`: false where either is NaN.
pub open spec fn equal(a: Bits, b: Bits) -> bool {
    !is_nan(a) && !is_nan(b) && scaled(a) == scaled(b)
}

/// Whether the number is 0.0 or -0.0.
pub open spec fn is_zero(b: Bits) -> bool {
    magnitude(b) == 0
}

/// 1.0 for true, 0.0 for false.
pub open spec fn truth(b: bool) -> Bits {
    if b {
        ONE
    } else {
        0
    }
}

/// The result of a binary operation; `None` for a division by zero.
pub open spec fn binary_result(m: NumberModel, op: BinOp, l: Bits, r: Bits) -> Option<Bits> {
    match op {
        BinOp::Div => if is_zero(r) {
            None
        } else {
            Some((m.arith)(op, l, r))
        },
        BinOp::Lt => Some(truth(less(l, r))),
        BinOp::Gt => Some(truth(less(r, l))),
        BinOp::Le => Some(truth(less(l, r) || equal(l, r))),
        BinOp::Ge => Some(truth(less(r, l) || equal(l, r))),
        BinOp::Eq => Some(truth(equal(l, r))),
        BinOp::Ne => Some(truth(!equal(l, r))),
        _ => Some((m.arith)(op, l, r)),
    }
}

// ---- order ------------------------------------------------------------

proof fn lemma_magnitude_grows(x: int, y: int)
    requires
        0 <= x < y,
    ensures
        0 <= scaled_magnitude(x) < scaled_magnitude(y),
{
    let u = UNIT as int;
    let (ex, fx) = (x / u, x % u);
    let (ey, fy) = (y / u, y % u);
    assert(x == ex * u + fx && y == ey * u + fy && 0 <= fx < u && 0 <= fy < u) by {
        vstd::arithmetic::div_mod::lemma_fundamental_div_mod(x, u);
        vstd::arithmetic::div_mod::lemma_fundamental_div_mod(y, u);
    }
    assert(0 <= ex <= ey) by (nonlinear_arith)
        requires
            ex * u + fx < ey * u + fy,
            0 <= fx < u,
            0 <= fy < u,
            0 <= ex * u + fx,
    ;
    if ex == ey {
        if ex > 0 {
            lemma_pow2_pos((ex - 1) as nat);
            let p = pow2((ex - 1) as nat) as int;
            assert(0 <= (u + fx) * p < (u + fy) * p) by (nonlinear_arith)
                requires
                    0 <= fx < fy,
                    u > 0,
                    p > 0,
            ;
        }
    } else {
        lemma_pow2_pos((ey - 1) as nat);
        let q = pow2((ey - 1) as nat) as int;
        if ex == 0 {
            assert(fx < (u + fy) * q) by (nonlinear_arith)
                requires
                    fx < u,
                    0 <= fy,
                    u > 0,
                    q >= 1,
            ;
        } else {
            let p = pow2((ex - 1) as nat) as int;
            lemma_pow2_pos((ex - 1) as nat);
            let d = (ey - ex) as nat;
            lemma_pow2_adds((ex - 1) as nat, d);
            lemma_pow2_unfold(d);
            lemma_pow2_pos((d - 1) as nat);
            let t = pow2(d) as int;
            assert(q == p * t);
            assert(t >= 2);
            assert(0 <= (u + fx) * p < (u + fy) * q) by (nonlinear_arith)
                requires
                    0 <= fx < u,
                    0 <= fy,
                    u > 0,
                    p > 0,
                    q == p * t,
                    t >= 2,
            ;
        }
    }
}

/// The signed magnitude. Numbers are ordered as these are.
spec fn rank(b: Bits) -> int {
    if is_negative(b) {
        -magnitude(b)
    } else {
        magnitude(b)
    }
}

proof fn lemma_rank_orders(a: Bits, b: Bits)
    ensures
        rank(a) < rank(b) <==> scaled(a) < scaled(b),
        rank(a) == rank(b) <==> scaled(a) == scaled(b),
{
    let (x, y) = (magnitude(a), magnitude(b));
    assert(scaled_magnitude(0) == 0);
    if x > 0 {
        lemma_magnitude_grows(0, x);
    }
    if y > 0 {
        lemma_magnitude_grows(0, y);
    }
    if x < y {
        lemma_magnitude_grows(x, y);
    } else if y < x {
        lemma_magnitude_grows(y, x);
    }
}

/// The zeros are the numbers whose value is 0.
pub proof fn lemma_zero(b: Bits)
    ensures
        is_zero(b) <==> scaled(b) == 0,
{
    assert(scaled_magnitude(0) == 0);
    if magnitude(b) > 0 {
        lemma_magnitude_grows(0, magnitude(b));
    }
}

/// Numbers that are equal have the same bits, but for the zeros.
pub proof fn lemma_equal_bits(a: Bits, b: Bits)
    ensures
        equal(a, b) && !is_zero(a) ==> a == b,
        a == b && !is_nan(a) ==> equal(a, b),
{
    lemma_rank_orders(a, b);
}

/// A magnitude stands for nothing negative.
pub proof fn lemma_magnitude(b: Bits)
    ensures
        scaled_magnitude(magnitude(b)) >= 0,
{
    lemma_zero(b);
    if magnitude(b) > 0 {
        lemma_magnitude_grows(0, magnitude(b));
    }
}

fn magnitude_of(b: Bits) -> (r: u64)
    ensures
        r == magnitude(b),
{
    if b >= SIGN {
        b - SIGN
    } else {
        b
    }
}

fn rank_of(b: Bits) -> (r: i64)
    ensures
        r == rank(b),
{
    let m: i64 = magnitude_of(b) as i64;
    if b >= SIGN {
        -m
    } else {
        m
    }
}

/// Whether `b` is NaN.
pub fn nan(b: Bits) -> (r: bool)
    ensures
        r == is_nan(b),
{
    magnitude_of(b) > 0x7ff0_0000_0000_0000
}

/// Whether `b` is neither infinite nor NaN.
pub fn finite(b: Bits) -> (r: bool)
    ensures
        r == is_finite(b),
{
    magnitude_of(b) < 0x7ff0_0000_0000_0000
}

/// `a < b`.
pub fn lt(a: Bits, b: Bits) -> (r: bool)
    ensures
        r == less(a, b),
{
    proof {
        lemma_rank_orders(a, b);
    }
    !nan(a) && !nan(b) && rank_of(a) < rank_of(b)
}

/// `a == b`.
pub fn eq(a: Bits, b: Bits) -> (r: bool)
    ensures
        r == equal(a, b),
{
    proof {
        lemma_rank_orders(a, b);
    }
    !nan(a) && !nan(b) && rank_of(a) == rank_of(b)
}

/// Whether `b` is a zero of either sign.
pub fn zero(b: Bits) -> (r: bool)
    ensures
        r == is_zero(b),
{
    magnitude_of(b) == 0
}

/// A truth value as a number.
pub fn bool_num(b: bool) -> (r: Bits)
    ensures
        r == truth(b),
{
    if b {
        ONE
    } else {
        0
    }
}

/// `l op r`, or `None` where that divides by zero.
pub fn eval_binop<N: Numbers>(nums: &N, op: BinOp, l: Bits, r: Bits) -> (res: Option<Bits>)
    ensures
        forall|m: NumberModel| #[trigger]
            computes(*nums, m) ==> res == binary_result(m, op, l, r),
{
    match op {
        BinOp::Div => {
            if zero(r) {
                None
            } else {
                Some(nums.arith(op, l, r))
            }
        },
        BinOp::Lt => Some(bool_num(lt(l, r))),
        BinOp::Gt => Some(bool_num(lt(r, l))),
        BinOp::Le => Some(bool_num(lt(l, r) || eq(l, r))),
        BinOp::Ge => Some(bool_num(lt(r, l) || eq(l, r))),
        BinOp::Eq => Some(bool_num(eq(l, r))),
        BinOp::Ne => Some(bool_num(!eq(l, r))),
        _ => Some(nums.arith(op, l, r)),
    }
}

// ---- integers ---------------------------------------------------------

/// The largest `e` with 2^e at most `m`.
pub open spec fn floor_log2(m: nat) -> nat
    decreases m,
{
    if m <= 1 {
        0
    } else {
        1 + floor_log2(m / 2)
    }
}

/// `m / p` rounded to the nearest integer, ties to even.
pub open spec fn nearest(m: nat, p: nat) -> nat {
    let q = m / p;
    let r = m % p;
    if 2 * r < p || (2 * r == p && q % 2 == 0) {
        q
    } else {
        q + 1
    }
}

/// The magnitude of the double nearest to `m`: the exponent field is 1023
/// more than the exponent of `m`, and 53 significant bits are kept.
pub open spec fn magnitude_of_nat(m: nat) -> int {
    if m == 0 {
        0
    } else {
        let e = floor_log2(m);
        let significand = if e <= 52 {
            m * pow2((52 - e) as nat)
        } else {
            nearest(m, pow2((e - 52) as nat))
        };
        (1022 + e) * UNIT + significand
    }
}

/// The bits of the double nearest to `n`.
pub open spec fn bits_of_int(n: int) -> Bits {
    if n < 0 {
        (SIGN + magnitude_of_nat((-n) as nat)) as u64
    } else {
        magnitude_of_nat(n as nat) as u64
    }
}

proof fn lemma_floor_log2(m: nat)
    requires
        m > 0,
    ensures
        pow2(floor_log2(m)) <= m < pow2(floor_log2(m) + 1),
    decreases m,
{
    if m == 1 {
        vstd::arithmetic::power2::lemma2_to64();
    } else {
        lemma_floor_log2(m / 2);
        lemma_pow2_unfold(floor_log2(m));
        lemma_pow2_unfold(floor_log2(m) + 1);
    }
}

proof fn lemma_pow2_le(a: nat, b: nat)
    requires
        a <= b,
    ensures
        pow2(a) <= pow2(b),
    decreases b - a,
{
    if a < b {
        lemma_pow2_unfold(b);
        lemma_pow2_le(a, (b - 1) as nat);
    }
}

/// The exponent field and the significand of a whole number below 2^64.
proof fn lemma_significand(m: nat)
    requires
        0 < m < 0x1_0000_0000_0000_0000,
    ensures
        floor_log2(m) <= 63,
        floor_log2(m) <= 52 ==> UNIT <= m * pow2((52 - floor_log2(m)) as nat) < 2 * UNIT,
        floor_log2(m) > 52 ==> UNIT <= m / pow2((floor_log2(m) - 52) as nat) < 2 * UNIT,
{
    let e = floor_log2(m);
    lemma_floor_log2(m);
    vstd::arithmetic::power2::lemma2_to64();
    vstd::arithmetic::power2::lemma2_to64_rest();
    if e >= 64 {
        lemma_pow2_le(64, e);
    }
    if e <= 52 {
        let k = (52 - e) as nat;
        lemma_pow2_adds(e, k);
        lemma_pow2_adds(e + 1, k);
        lemma_pow2_pos(k);
        let (p, a, b) = (pow2(k) as int, pow2(e) as int, pow2(e + 1) as int);
        assert(a * p <= m * p < b * p) by (nonlinear_arith)
            requires
                a <= m < b,
                p > 0,
        ;
    } else {
        let k = (e - 52) as nat;
        lemma_pow2_adds(52, k);
        lemma_pow2_adds(53, k);
        lemma_pow2_pos(k);
        let p = pow2(k) as int;
        let q = m as int / p;
        let r = m as int % p;
        vstd::arithmetic::div_mod::lemma_fundamental_div_mod(m as int, p);
        assert(UNIT * p <= m < 2 * UNIT * p);
        assert(UNIT <= q < 2 * UNIT) by (nonlinear_arith)
            requires
                m == p * q + r,
                0 <= r < p,
                UNIT * p <= m < 2 * UNIT * p,
        ;
    }
}

fn magnitude_from(m: u64) -> (r: u64)
    ensures
        r == magnitude_of_nat(m as nat),
        r < SIGN,
{
    if m == 0 {
        return 0;
    }
    let mut e: u64 = 0;
    let mut rest: u64 = m;
    proof {
        lemma_significand(m as nat);
    }
    while rest > 1
        invariant
            rest >= 1,
            floor_log2(m as nat) == e + floor_log2(rest as nat),
            floor_log2(m as nat) <= 63,
        decreases rest,
    {
        rest = rest / 2;
        e = e + 1;
    }
    let significand: u64 = if e <= 52 {
        let mut s: u64 = m;
        let mut k: u64 = 0;
        proof {
            vstd::arithmetic::power2::lemma2_to64();
        }
        while k < 52 - e
            invariant
                e <= 52,
                e == floor_log2(m as nat),
                k <= 52 - e,
                s == m * pow2(k as nat),
                UNIT <= m * pow2((52 - e) as nat) < 2 * UNIT,
            decreases 52 - e - k,
        {
            proof {
                lemma_pow2_unfold((k + 1) as nat);
                lemma_pow2_le((k + 1) as nat, (52 - e) as nat);
                let (a, b) = (pow2(k as nat) as int, pow2((52 - e) as nat) as int);
                assert(m * (2 * a) == 2 * (m * a)) by (nonlinear_arith);
                assert(m * (2 * a) <= m * b) by (nonlinear_arith)
                    requires
                        2 * a <= b,
                        m >= 0,
                ;
            }
            s = s * 2;
            k = k + 1;
        }
        s
    } else {
        let mut p: u64 = 1;
        let mut k: u64 = 0;
        proof {
            vstd::arithmetic::power2::lemma2_to64();
        }
        while k < e - 52
            invariant
                52 < e <= 63,
                k <= e - 52,
                p == pow2(k as nat),
                p <= 0x800,
            decreases e - 52 - k,
        {
            proof {
                lemma_pow2_unfold((k + 1) as nat);
                lemma_pow2_le((k + 1) as nat, 11);
                vstd::arithmetic::power2::lemma2_to64();
            }
            p = p * 2;
            k = k + 1;
        }
        proof {
            lemma_pow2_pos(k as nat);
        }
        let q: u64 = m / p;
        let r: u64 = m % p;
        if 2 * r < p || (2 * r == p && q % 2 == 0) {
            q
        } else {
            q + 1
        }
    };
    (1022 + e) * UNIT + significand
}

/// The double nearest to `n`.
pub fn of_int(n: i64) -> (r: Bits)
    ensures
        r == bits_of_int(n as int),
{
    if n < 0 {
        let m: i128 = -(n as i128);
        SIGN + magnitude_from(m as u64)
    } else {
        magnitude_from(n as u64)
    }
}

/// An integer of up to 53 bits is converted without loss.
pub proof fn law_small_integers_are_exact(n: i64)
    requires
        -0x20_0000_0000_0000 <= n <= 0x20_0000_0000_0000,
    ensures
        !is_nan(bits_of_int(n as int)),
        scaled(bits_of_int(n as int)) == n * pow2(1074),
{
    let m: nat = if n < 0 {
        (-n) as nat
    } else {
        n as nat
    };
    if m == 0 {
        assert(scaled_magnitude(0) == 0);
        assert(0 * pow2(1074) == 0);
    } else {
        let e = floor_log2(m);
        lemma_significand(m);
        lemma_floor_log2(m);
        vstd::arithmetic::power2::lemma2_to64();
        vstd::arithmetic::power2::lemma2_to64_rest();
        if e >= 54 {
            lemma_pow2_le(54, e);
        }
        let mag = magnitude_of_nat(m);
        if e <= 52 {
            let s = m * pow2((52 - e) as nat);
            vstd::arithmetic::div_mod::lemma_fundamental_div_mod_converse(
                mag,
                UNIT as int,
                1023 + e as int,
                s - UNIT,
            );
            assert(scaled_magnitude(mag) == s * pow2((1022 + e) as nat));
            lemma_pow2_adds((52 - e) as nat, (1022 + e) as nat);
            let (a, b) = (pow2((52 - e) as nat) as int, pow2((1022 + e) as nat) as int);
            assert((m * a) * b == m * (a * b)) by (nonlinear_arith);
            assert(scaled_magnitude(mag) == m * pow2(1074));
        } else {
            assert(e == 53 && m == 0x20_0000_0000_0000);
            assert(pow2(1) == 2);
            assert(nearest(m, 2) == UNIT);
            vstd::arithmetic::div_mod::lemma_fundamental_div_mod_converse(
                mag,
                UNIT as int,
                1076,
                0,
            );
            lemma_pow2_unfold(1075);
            let b = pow2(1074) as int;
            assert(UNIT * (2 * b) == (2 * UNIT) * b) by (nonlinear_arith);
            assert(scaled_magnitude(mag) == m * pow2(1074));
        }
        let b = pow2(1074) as int;
        assert((-m) * b == -(m * b)) by (nonlinear_arith);
    }
}

/// What a significand of 53 bits, or one more than the largest, stands for.
proof fn lemma_placed(e: nat, q: int)
    requires
        52 < e <= 63,
        UNIT <= q <= 2 * UNIT,
    ensures
        scaled_magnitude((1022 + e) * UNIT + q) == q * pow2((e - 52) as nat) * pow2(1074),
{
    let mag = (1022 + e) * UNIT + q;
    let (p, t) = (pow2((e - 52) as nat) as int, pow2(1074) as int);
    let w = pow2((1022 + e) as nat) as int;
    lemma_pow2_adds((e - 52) as nat, 1074);
    assert(w == p * t);
    assert(q * p * t == q * (p * t)) by (nonlinear_arith);
    if q < 2 * UNIT {
        vstd::arithmetic::div_mod::lemma_fundamental_div_mod_converse(
            mag,
            UNIT as int,
            1023 + e as int,
            q - UNIT,
        );
        assert(scaled_magnitude(mag) == q * w);
    } else {
        vstd::arithmetic::div_mod::lemma_fundamental_div_mod_converse(
            mag,
            UNIT as int,
            1024 + e as int,
            0,
        );
        lemma_pow2_unfold((1023 + e) as nat);
        assert(scaled_magnitude(mag) == UNIT * (2 * w));
        assert(UNIT * (2 * w) == (2 * UNIT) * w) by (nonlinear_arith);
    }
}

/// The distance of a number to an integer, in units of 2^-1074.
pub open spec fn distance(b: Bits, n: int) -> int {
    let d = scaled(b) - n * pow2(1074);
    if d < 0 {
        -d
    } else {
        d
    }
}

/// An integer becomes the double that is nearest to it, and of two that are as near
/// the one whose last bit is 0.
pub proof fn law_integers_become_the_nearest(n: i64, b: Bits)
    requires
        !is_nan(b),
    ensures
        distance(bits_of_int(n as int), n as int) <= distance(b, n as int),
        distance(bits_of_int(n as int), n as int) == distance(b, n as int) && scaled(b) != scaled(
            bits_of_int(n as int),
        ) ==> bits_of_int(n as int) % 2 == 0,
{
    let m: nat = if n < 0 {
        (-n) as nat
    } else {
        n as nat
    };
    let t = pow2(1074) as int;
    lemma_pow2_pos(1074);
    if -0x20_0000_0000_0000 <= n <= 0x20_0000_0000_0000 {
        law_small_integers_are_exact(n);
    } else {
        lemma2_to64();
        lemma2_to64_rest();
        lemma_floor_log2(m);
        lemma_significand(m);
        let e = floor_log2(m);
        if e <= 52 {
            lemma_pow2_le(e + 1, 53);
        }
        let p = pow2((e - 52) as nat) as int;
        lemma_pow2_pos((e - 52) as nat);
        let q = m as int / p;
        let r = m as int % p;
        vstd::arithmetic::div_mod::lemma_fundamental_div_mod(m as int, p);
        let low = (1022 + e) * UNIT + q;
        let (v0, v1) = (q * p * t, (q + 1) * p * t);
        lemma_placed(e, q);
        lemma_placed(e, q + 1);
        assert(m * t == v0 + r * t) by (nonlinear_arith)
            requires
                m == p * q + r,
                v0 == q * p * t,
        ;
        assert(v1 == v0 + p * t) by (nonlinear_arith)
            requires
                v0 == q * p * t,
                v1 == (q + 1) * p * t,
        ;
        assert(v1 - m * t == (p - r) * t) by (nonlinear_arith)
            requires
                m * t == v0 + r * t,
                v1 == v0 + p * t,
        ;
        assert(p * t <= v0) by (nonlinear_arith)
            requires
                v0 == q * p * t,
                q >= 1,
                p > 0,
                t > 0,
        ;
        assert(0 <= r * t) by (nonlinear_arith)
            requires
                r >= 0,
                t > 0,
        ;
        assert(2 * r < p ==> r * t < (p - r) * t) by (nonlinear_arith)
            requires
                t > 0,
        ;
        assert(2 * r > p ==> r * t > (p - r) * t) by (nonlinear_arith)
            requires
                t > 0,
        ;
        assert(2 * r == p ==> r * t == (p - r) * t) by (nonlinear_arith);
        assert((p - r) * t > 0) by (nonlinear_arith)
            requires
                r < p,
                t > 0,
        ;
        let x = magnitude(b);
        lemma_magnitude(b);
        if x < low {
            lemma_magnitude_grows(x, low);
        }
        if x > low + 1 {
            lemma_magnitude_grows(low + 1, x);
        }
        let sig = nearest(m, pow2((e - 52) as nat));
        let mag = (1022 + e) * UNIT + sig;
        assert(sig == q || sig == q + 1);
        assert(mag == magnitude_of_nat(m));
        assert(0 <= mag < SIGN);
        let c = bits_of_int(n as int);
        assert(magnitude(c) == mag && is_negative(c) == (n < 0));
        assert((-m) * t == -(m * t)) by (nonlinear_arith);
        assert(n * t == if n < 0 {
            -(m * t)
        } else {
            m * t
        });
        assert(2 * r == p ==> sig % 2 == 0);
        assert(sig % 2 == 0 ==> c % 2 == 0);
    }
}

/// An integer becomes a finite number.
pub proof fn law_integers_are_finite(n: i64)
    ensures
        is_finite(bits_of_int(n as int)),
        is_negative(bits_of_int(n as int)) == (n < 0),
{
    let m: nat = if n < 0 {
        (-n) as nat
    } else {
        n as nat
    };
    if m > 0 {
        lemma_significand(m);
        let e = floor_log2(m);
        assert(0 <= magnitude_of_nat(m) <= (1022 + e) * UNIT + 2 * UNIT);
    }
}

/// The integers below 10^15 in absolute value.
pub open spec fn is_short(n: int) -> bool {
    -1_000_000_000_000_000 < n < 1_000_000_000_000_000
}

/// Whether the number is the short integer `n`.
pub open spec fn is_short_int(b: Bits, n: int) -> bool {
    is_short(n) && !is_nan(b) && scaled(b) == n * pow2(1074)
}

/// The short integer that the number is, if it is one.
pub open spec fn short_int(b: Bits) -> Option<i64> {
    if exists|n: int| is_short_int(b, n) {
        Some((choose|n: int| is_short_int(b, n)) as i64)
    } else {
        None
    }
}

proof fn lemma_short_int_unique(b: Bits, n: int)
    requires
        is_short_int(b, n),
    ensures
        short_int(b) == Some(n as i64),
{
    let k = choose|k: int| is_short_int(b, k);
    lemma_pow2_pos(1074);
    let p = pow2(1074) as int;
    assert(n == k) by (nonlinear_arith)
        requires
            n * p == k * p,
            p > 0,
    ;
}

/// The short integer that `b` is, if it is one.
pub fn to_short_int(b: Bits) -> (r: Option<i64>)
    ensures
        r == short_int(b),
{
    let mag: u64 = magnitude_of(b);
    if mag == 0 {
        proof {
            assert(scaled_magnitude(0) == 0);
            assert(0 * pow2(1074) == 0);
            assert(is_short_int(b, 0));
            lemma_short_int_unique(b, 0);
        }
        return Some(0);
    }
    let e: u64 = mag / UNIT;
    let f: u64 = mag % UNIT;
    let ghost p1074 = pow2(1074) as int;
    proof {
        lemma_pow2_pos(1074);
        lemma_magnitude_grows(0, mag as int);
        assert(scaled_magnitude(0) == 0);
    }
    if e < 1023 {
        proof {
            // The number is not zero and less than one in absolute value.
            vstd::arithmetic::power2::lemma2_to64_rest();
            if e == 0 {
                vstd::arithmetic::power2::lemma2_to64();
                lemma_pow2_le(52, 1074);
            } else {
                lemma_pow2_pos((e - 1) as nat);
                lemma_pow2_adds(53, (e - 1) as nat);
                lemma_pow2_le((52 + e) as nat, 1074);
                vstd::arithmetic::power2::lemma2_to64();
                let p = pow2((e - 1) as nat) as int;
                assert((UNIT + f) * p < (2 * UNIT) * p) by (nonlinear_arith)
                    requires
                        f < UNIT,
                        p > 0,
                ;
            }
            assert(0 < scaled_magnitude(mag as int) < p1074);
            assert forall|n: int| !is_short_int(b, n) by {
                if n >= 1 {
                    assert(n * p1074 >= p1074) by (nonlinear_arith)
                        requires
                            n >= 1,
                            p1074 > 0,
                    ;
                } else if n <= -1 {
                    assert(n * p1074 <= -p1074) by (nonlinear_arith)
                        requires
                            n <= -1,
                            p1074 > 0,
                    ;
                } else {
                    assert(0 * p1074 == 0);
                }
            }
        }
        return None;
    }
    if e >= 1075 {
        proof {
            // The number is at least 2^52 in absolute value.
            lemma_pow2_le(1074, (e - 1) as nat);
            let p = pow2((e - 1) as nat) as int;
            assert((UNIT + f) * p >= UNIT * p1074) by (nonlinear_arith)
                requires
                    f >= 0,
                    p >= p1074,
                    p1074 > 0,
            ;
            assert forall|n: int| !is_short_int(b, n) by {
                if is_short(n) {
                    assert(n * p1074 < UNIT * p1074 && n * p1074 > -(UNIT * p1074))
                        by (nonlinear_arith)
                        requires
                            -1_000_000_000_000_000 < n < 1_000_000_000_000_000,
                            UNIT == 0x10_0000_0000_0000,
                            p1074 > 0,
                    ;
                }
            }
        }
        return None;
    }
    let mut left: u64 = 1075 - e;
    let mut v: u64 = UNIT + f;
    let ghost s = (UNIT + f) as int;
    let ghost pe = pow2((e - 1) as nat) as int;
    proof {
        vstd::arithmetic::power2::lemma2_to64();
        lemma_pow2_pos((e - 1) as nat);
        assert(s * 1 == s);
    }
    while left > 0
        invariant
            1023 <= e < 1075,
            left <= 1075 - e,
            s == v * pow2((1075 - e - left) as nat),
            s < 2 * UNIT,
            v <= s,
            s == UNIT + f,
            mag == magnitude(b),
            mag != 0,
            e == mag / UNIT,
            f == mag % UNIT,
            pe == pow2((e - 1) as nat),
            pe > 0,
            p1074 == pow2(1074),
            p1074 > 0,
        decreases left,
    {
        let ghost done = (1075 - e - left) as nat;
        if v % 2 != 0 {
            proof {
                assert forall|n: int| !is_short_int(b, n) by {
                    if is_short_int(b, n) {
                        let a: int = if n < 0 {
                            -n
                        } else {
                            n
                        };
                        assert(a * p1074 == s * pe) by {
                            assert((-n) * p1074 == -(n * p1074)) by (nonlinear_arith);
                            if n >= 0 {
                                assert(n * p1074 >= 0) by (nonlinear_arith)
                                    requires
                                        n >= 0,
                                        p1074 > 0,
                                ;
                            } else {
                                assert(n * p1074 < 0) by (nonlinear_arith)
                                    requires
                                        n < 0,
                                        p1074 > 0,
                                ;
                            }
                            assert(s * pe > 0) by (nonlinear_arith)
                                requires
                                    s > 0,
                                    pe > 0,
                            ;
                        }
                        let d = (1075 - e) as nat;
                        lemma_pow2_adds(d, (e - 1) as nat);
                        let pd = pow2(d) as int;
                        assert(p1074 == pd * pe);
                        assert(a * pd == s) by (nonlinear_arith)
                            requires
                                a * (pd * pe) == s * pe,
                                pe > 0,
                        ;
                        lemma_pow2_adds(done, left as nat);
                        lemma_pow2_unfold(left as nat);
                        let (pk, h) = (pow2(done) as int, pow2((left - 1) as nat) as int);
                        lemma_pow2_pos(done);
                        assert(pd == pk * (2 * h));
                        assert(v == 2 * (a * h)) by (nonlinear_arith)
                            requires
                                a * (pk * (2 * h)) == v * pk,
                                pk > 0,
                        ;
                        assert(false);
                    }
                }
            }
            return None;
        }
        proof {
            lemma_pow2_unfold(done + 1);
            let pk = pow2(done) as int;
            let w = (v / 2) as int;
            assert(v == 2 * w);
            assert(w * (2 * pk) == v * pk) by (nonlinear_arith)
                requires
                    v == 2 * w,
            ;
        }
        v = v / 2;
        left = left - 1;
    }
    proof {
        let d = (1075 - e) as nat;
        lemma_pow2_adds(d, (e - 1) as nat);
        let pd = pow2(d) as int;
        assert((v * pd) * pe == v * (pd * pe)) by (nonlinear_arith);
        assert(scaled_magnitude(mag as int) == v * p1074);
        assert((-v) * p1074 == -(v * p1074)) by (nonlinear_arith);
    }
    let signed: i64 = if b >= SIGN {
        -(v as i64)
    } else {
        v as i64
    };
    proof {
        assert(scaled(b) == signed * p1074);
    }
    if v < 1_000_000_000_000_000 {
        proof {
            assert(is_short_int(b, signed as int));
            lemma_short_int_unique(b, signed as int);
        }
        Some(signed)
    } else {
        proof {
            assert forall|n: int| !is_short_int(b, n) by {
                if is_short_int(b, n) {
                    assert(n == signed) by (nonlinear_arith)
                        requires
                            n * p1074 == signed * p1074,
                            p1074 > 0,
                    ;
                }
            }
        }
        None
    }
}

/// A number that is a short integer is the number that the integer is
/// converted to, but for the negative zero.
pub proof fn law_short_ints_convert_back(b: Bits)
    requires
        short_int(b) is Some,
        b != SIGN,
    ensures
        bits_of_int(short_int(b)->0 as int) == b,
{
    let n = choose|n: int| is_short_int(b, n);
    assert(is_short_int(b, n));
    let i = short_int(b)->0;
    assert(i == n);
    law_small_integers_are_exact(i);
    let c = bits_of_int(i as int);
    lemma_rank_orders(b, c);
    assert(rank(b) == rank(c));
    if rank(b) == 0 {
        assert(b == 0);
        lemma_pow2_pos(1074);
        let p = pow2(1074) as int;
        assert(scaled_magnitude(0) == 0);
        assert(scaled(b) == 0);
        assert(n == 0) by (nonlinear_arith)
            requires
                n * p == 0,
                p > 0,
        ;
    }
}

/// The integer nearest to a magnitude, halves away from zero.
pub open spec fn rounded_magnitude(mag: int) -> int {
    (scaled_magnitude(mag) + pow2(1073)) / (pow2(1074) as int)
}

/// The integer nearest to a number, halves away from zero, or the nearest of
/// those that an `i64` can be; 0 for NaN.
pub open spec fn rounded(b: Bits) -> int {
    let q = rounded_magnitude(magnitude(b));
    if is_nan(b) {
        0
    } else if is_negative(b) {
        if q > 0x8000_0000_0000_0000 {
            i64::MIN as int
        } else {
            -q
        }
    } else if q > i64::MAX {
        i64::MAX as int
    } else {
        q
    }
}

/// 2^k.
fn power_of_two(k: u64) -> (r: u64)
    requires
        k < 64,
    ensures
        r == pow2(k as nat),
{
    proof {
        lemma2_to64();
    }
    let mut r: u64 = 1;
    let mut i: u64 = 0;
    while i < k
        invariant
            i <= k < 64,
            r == pow2(i as nat),
        decreases k - i,
    {
        proof {
            lemma_pow2_unfold((i + 1) as nat);
            lemma_pow2_le((i + 1) as nat, 63);
            lemma2_to64_rest();
        }
        r = r * 2;
        i = i + 1;
    }
    r
}

/// The integer nearest to a magnitude between 1/2 and 2^63.
fn round_magnitude(e: u64, f: u64) -> (r: u64)
    requires
        1022 <= e <= 1085,
        f < UNIT,
    ensures
        r == rounded_magnitude(e * UNIT + f),
        r <= 0x8000_0000_0000_0000,
{
    let s: u64 = UNIT + f;
    let ghost p = pow2((e - 1) as nat) as int;
    proof {
        vstd::arithmetic::div_mod::lemma_fundamental_div_mod_converse(
            e * UNIT + f,
            UNIT as int,
            e as int,
            f as int,
        );
        assert(scaled_magnitude(e * UNIT + f) == s * p);
        lemma_pow2_pos((e - 1) as nat);
        lemma2_to64();
        lemma2_to64_rest();
    }
    if e >= 1075 {
        let k: u64 = e - 1075;
        let t: u64 = power_of_two(k);
        proof {
            let d = pow2(1074) as int;
            lemma_pow2_pos(1074);
            lemma_pow2_adds(k as nat, 1074);
            assert(p == t * d);
            lemma_pow2_le(k as nat, 10);
            assert(s * t <= (2 * UNIT) * 1024) by (nonlinear_arith)
                requires
                    s <= 2 * UNIT,
                    t <= 1024,
            ;
            lemma_pow2_unfold(1074);
            let h = pow2(1073) as int;
            assert(s * p == d * (s * t)) by (nonlinear_arith)
                requires
                    p == t * d,
            ;
            vstd::arithmetic::div_mod::lemma_fundamental_div_mod_converse(
                s * p + h,
                d,
                s * t,
                h,
            );
        }
        s * t
    } else {
        let k: u64 = 1075 - e;
        let half: u64 = power_of_two(k - 1);
        proof {
            lemma_pow2_unfold(k as nat);
            lemma_pow2_le(k as nat, 53);
            let whole = pow2(k as nat) as int;
            lemma_pow2_adds(k as nat, (e - 1) as nat);
            lemma_pow2_adds((k - 1) as nat, (e - 1) as nat);
            assert(pow2(1074) == whole * p);
            assert(pow2(1073) == half * p);
            assert(s * p + half * p == p * (s + half)) by (nonlinear_arith);
            assert(whole * p == p * whole) by (nonlinear_arith);
            vstd::arithmetic::div_mod::lemma_div_denominator(p * (s + half), p, whole);
            vstd::arithmetic::div_mod::lemma_div_multiples_vanish(s + half, p);
            assert((s + half) / whole <= s + half) by (nonlinear_arith)
                requires
                    whole >= 1,
                    s + half >= 0,
            ;
        }
        (s + half) / (half * 2)
    }
}

/// The integer nearest to `b`, halves away from zero.
pub fn round_to_int(b: Bits) -> (r: i64)
    ensures
        r == rounded(b),
{
    let mag: u64 = magnitude_of(b);
    if mag > 0x7ff0_0000_0000_0000 {
        return 0;
    }
    let e: u64 = mag / UNIT;
    let f: u64 = mag % UNIT;
    proof {
        vstd::arithmetic::div_mod::lemma_fundamental_div_mod(mag as int, UNIT as int);
        assert(mag == e * UNIT + f) by (nonlinear_arith)
            requires
                mag == UNIT * e + f,
        ;
        lemma_pow2_pos(1073);
        lemma_pow2_unfold(1074);
        lemma2_to64();
        lemma2_to64_rest();
    }
    if e < 1022 {
        proof {
            let h = pow2(1073) as int;
            if e == 0 {
                lemma_pow2_le(52, 1073);
            } else {
                let p = pow2((e - 1) as nat) as int;
                lemma_pow2_pos((e - 1) as nat);
                lemma_pow2_adds(53, (e - 1) as nat);
                lemma_pow2_le((52 + e) as nat, 1073);
                assert((UNIT + f) * p < (2 * UNIT) * p) by (nonlinear_arith)
                    requires
                        f < UNIT,
                        p > 0,
                ;
                assert(0 <= (UNIT + f) * p) by (nonlinear_arith)
                    requires
                        p > 0,
                ;
            }
            assert(0 <= scaled_magnitude(mag as int) < h);
            vstd::arithmetic::div_mod::lemma_fundamental_div_mod_converse(
                scaled_magnitude(mag as int) + h,
                2 * h,
                0,
                scaled_magnitude(mag as int) + h,
            );
        }
        return 0;
    }
    if e >= 1086 {
        proof {
            let d = pow2(1074) as int;
            let h = pow2(1073) as int;
            let p = pow2((e - 1) as nat) as int;
            lemma_pow2_le(1085, (e - 1) as nat);
            lemma_pow2_adds(11, 1074);
            lemma_pow2_pos(1074);
            assert(2048 * d <= p);
            let big: int = 0x8000_0000_0000_0000;
            assert((UNIT + f) * p >= big * d) by (nonlinear_arith)
                requires
                    2048 * d <= p,
                    d > 0,
                    UNIT == 0x10_0000_0000_0000,
                    f >= 0,
                    big == 0x8000_0000_0000_0000,
            ;
            let x = scaled_magnitude(mag as int) + h;
            vstd::arithmetic::div_mod::lemma_div_is_ordered(big * d, x, d);
            vstd::arithmetic::div_mod::lemma_div_multiples_vanish(big, d);
            assert(big * d == d * big) by (nonlinear_arith);
        }
        if b >= SIGN {
            return i64::MIN;
        }
        return i64::MAX;
    }
    let q: u64 = round_magnitude(e, f);
    if b >= SIGN {
        if q == 0x8000_0000_0000_0000 {
            i64::MIN
        } else {
            -(q as i64)
        }
    } else if q >= 0x8000_0000_0000_0000 {
        i64::MAX
    } else {
        q as i64
    }
}

} // verus!
