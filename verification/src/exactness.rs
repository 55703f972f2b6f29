//! What numbers stand for, as real numbers, and what programs compute where
//! arithmetic is exact.

#[allow(unused_imports)]
use crate::ast::{BinOp, SpecExpr};
#[allow(unused_imports)]
use crate::number::{self, Bits, NumberModel};
#[allow(unused_imports)]
use crate::semantics::{self, Meaning, Run};
#[allow(unused_imports)]
use crate::value::SpecValue;
#[allow(unused_imports)]
use vstd::arithmetic::power2::*;
use vstd::prelude::*;

verus! {

/// The real number that a finite double is.
pub open spec fn real_of(b: Bits) -> real {
    number::scaled(b) as real / pow2(1074) as real
}

/// Whether a real number has a double.
pub open spec fn fits(x: real) -> bool {
    exists|b: Bits| #[trigger] number::is_finite(b) && real_of(b) == x
}

/// A product of `n` factors `x`.
pub open spec fn power(x: real, n: nat) -> real
    decreases n,
{
    if n == 0 {
        1 as real
    } else {
        power(x, (n - 1) as nat) * x
    }
}

/// `c` is the finite double of `x`.
pub open spec fn is_double_of(c: Bits, x: real) -> bool {
    number::is_finite(c) && real_of(c) == x
}

/// Arithmetic gives the true result wherever that has a double.
pub open spec fn exact(m: NumberModel) -> bool {
    forall|a: Bits, b: Bits|
        #![trigger (m.arith)(BinOp::Add, a, b)]
        #![trigger (m.arith)(BinOp::Sub, a, b)]
        #![trigger (m.arith)(BinOp::Mul, a, b)]
        #![trigger (m.arith)(BinOp::Div, a, b)]
        number::is_finite(a) && number::is_finite(b) ==> {
            let (x, y) = (real_of(a), real_of(b));
            &&& fits(x + y) ==> is_double_of((m.arith)(BinOp::Add, a, b), x + y)
            &&& fits(x - y) ==> is_double_of((m.arith)(BinOp::Sub, a, b), x - y)
            &&& fits(x * y) ==> is_double_of((m.arith)(BinOp::Mul, a, b), x * y)
            &&& y != 0 as real && fits(x / y) ==> is_double_of(
                (m.arith)(BinOp::Div, a, b),
                x / y,
            )
        }
}

/// Powers with a whole exponent that is not negative are the true ones
/// wherever those have a double.
pub open spec fn exact_powers(m: NumberModel) -> bool {
    &&& forall|a: Bits, k: i32|
        number::is_finite(a) && k >= 0 && fits(power(real_of(a), k as nat)) ==> is_double_of(
            #[trigger] (m.powi)(a, k),
            power(real_of(a), k as nat),
        )
    &&& forall|a: Bits, b: Bits, k: nat|
        #![trigger (m.arith)(BinOp::Power, a, b), power(real_of(a), k)]
        number::is_finite(a) && is_double_of(b, k as real) && fits(power(real_of(a), k))
            ==> is_double_of((m.arith)(BinOp::Power, a, b), power(real_of(a), k))
}

/// Numbers are ordered as the real numbers that they are. A NaN is neither
/// less than anything nor equal to anything.
pub proof fn law_order(a: Bits, b: Bits)
    ensures
        number::is_finite(a) && number::is_finite(b) ==> (number::less(a, b) <==> real_of(a)
            < real_of(b)),
        number::is_finite(a) && number::is_finite(b) ==> (number::equal(a, b) <==> real_of(a)
            == real_of(b)),
        number::is_zero(a) <==> real_of(a) == 0 as real,
        number::is_nan(a) || number::is_nan(b) ==> !number::less(a, b) && !number::equal(a, b),
{
    lemma_pow2_pos(1074);
    let p = pow2(1074) as real;
    let (x, y) = (number::scaled(a) as real, number::scaled(b) as real);
    assert(x < y <==> x / p < y / p) by (nonlinear_arith)
        requires
            p > 0 as real,
    ;
    assert(x == y <==> x / p == y / p) by (nonlinear_arith)
        requires
            p > 0 as real,
    ;
    assert(x == 0 as real <==> x / p == 0 as real) by (nonlinear_arith)
        requires
            p > 0 as real,
    ;
    number::lemma_zero(a);
}

/// A whole number of up to 53 bits is itself.
pub proof fn law_integers(n: i64)
    requires
        -0x20_0000_0000_0000 <= n <= 0x20_0000_0000_0000,
    ensures
        real_of(number::bits_of_int(n as int)) == n as real,
{
    number::law_small_integers_are_exact(n);
    lemma_pow2_pos(1074);
    let p = pow2(1074) as real;
    let k = n as int as real;
    let s = number::scaled(number::bits_of_int(n as int));
    assert(s as real == k * p) by {
        assert(s == n * pow2(1074));
        lemma_real_product(n as int, pow2(1074) as int);
    }
    assert((k * p) / p == k) by (nonlinear_arith)
        requires
            p > 0 as real,
    ;
}

proof fn lemma_real_product(a: int, b: int)
    ensures
        (a * b) as real == (a as real) * (b as real),
{
    assert((a * b) as real == (a as real) * (b as real)) by (nonlinear_arith);
}

/// What 0 and 1 stand for.
pub proof fn lemma_units()
    ensures
        is_double_of(number::ONE, 1 as real),
        is_double_of(0, 0 as real),
        number::bits_of_int(1) == number::ONE,
        number::bits_of_int(0) == 0,
{
    law_integers(0);
    law_integers(1);
    lemma2_to64_rest();
    assert(number::floor_log2(1) == 0);
    assert(1 * pow2(52) == number::UNIT);
    assert(1022 * number::UNIT + number::UNIT == number::ONE);
}

/// A literal gives the number or the text that it is, and changes nothing. (A whole
/// number of more than 53 bits gives the nearest double.)
pub proof fn law_literals(m: NumberModel, r: Run, n: i64, b: Bits, s: Seq<char>, fuel: nat)
    requires
        fuel > 0,
    ensures
        semantics::eval(m, r, SpecExpr::Int(n), fuel) matches Meaning::Is(v, end) && end == r && (
        v matches SpecValue::Number(c) && number::is_finite(c) && (-0x20_0000_0000_0000 <= n
            <= 0x20_0000_0000_0000 ==> real_of(c) == n as int as real) && (forall|d: Bits|
            !number::is_nan(d) ==> number::distance(c, n as int) <= #[trigger] number::distance(
                d,
                n as int,
            ))),
        semantics::eval(m, r, SpecExpr::Float(b), fuel) == Meaning::Is(SpecValue::Number(b), r),
        semantics::eval(m, r, SpecExpr::Str(s), fuel) == Meaning::Is(SpecValue::Str(s), r),
{
    number::law_integers_are_finite(n);
    if -0x20_0000_0000_0000 <= n <= 0x20_0000_0000_0000 {
        law_integers(n);
    }
    let c = number::bits_of_int(n as int);
    assert forall|d: Bits| !number::is_nan(d) implies number::distance(c, n as int)
        <= #[trigger] number::distance(d, n as int) by {
        number::law_integers_become_the_nearest(n, d);
    }
}

/// What an operator gives for two finite numbers, where arithmetic is exact: the
/// sum, the difference, the product, the quotient or the power wherever that has
/// a double, and 1 or 0 for a comparison that holds or does not. Dividing by zero
/// is the only error.
pub proof fn law_operators(
    m: NumberModel,
    r: Run,
    op: BinOp,
    lhs: SpecExpr,
    rhs: SpecExpr,
    a: Bits,
    r1: Run,
    b: Bits,
    r2: Run,
    fuel: nat,
)
    requires
        exact(m),
        exact_powers(m),
        number::is_finite(a),
        number::is_finite(b),
        semantics::eval(m, r, lhs, fuel) == Meaning::Is(SpecValue::Number(a), r1),
        semantics::eval(m, r1, rhs, fuel) == Meaning::Is(SpecValue::Number(b), r2),
    ensures
        ({
            let e = SpecExpr::Binary { op, lhs: Box::new(lhs), rhs: Box::new(rhs) };
            let (x, y) = (real_of(a), real_of(b));
            match semantics::eval(m, r, e, fuel + 1) {
                Meaning::Is(v, after) => after == r2 && (v matches SpecValue::Number(c) && match op {
                    BinOp::Add => fits(x + y) ==> is_double_of(c, x + y),
                    BinOp::Sub => fits(x - y) ==> is_double_of(c, x - y),
                    BinOp::Mul => fits(x * y) ==> is_double_of(c, x * y),
                    BinOp::Div => y != 0 as real && (fits(x / y) ==> is_double_of(c, x / y)),
                    BinOp::Power => forall|k: nat|
                        y == k as real && fits(#[trigger] power(x, k)) ==> is_double_of(
                            c,
                            power(x, k),
                        ),
                    BinOp::Lt => is_double_of(c, (if x < y { 1int } else { 0int }) as real),
                    BinOp::Gt => is_double_of(c, (if x > y { 1int } else { 0int }) as real),
                    BinOp::Le => is_double_of(c, (if x <= y { 1int } else { 0int }) as real),
                    BinOp::Ge => is_double_of(c, (if x >= y { 1int } else { 0int }) as real),
                    BinOp::Eq => is_double_of(c, (if x == y { 1int } else { 0int }) as real),
                    BinOp::Ne => is_double_of(c, (if x != y { 1int } else { 0int }) as real),
                }),
                Meaning::Wrong(text, after) => {
                    after == r2 && op == BinOp::Div && y == 0 as real && text
                        == "division by zero"@
                },
                Meaning::Out => false,
            }
        }),
{
    law_order(a, b);
    law_order(b, a);
    lemma_units();
    let (x, y) = (real_of(a), real_of(b));
    let e = SpecExpr::Binary { op, lhs: Box::new(lhs), rhs: Box::new(rhs) };
    assert(semantics::eval(m, r, e, fuel + 1) == semantics::outcome(
        crate::machine::binary_value(m, op, a, b),
        r2,
    ));
    let c = (m.arith)(op, a, b);
    assert(op == BinOp::Power ==> (forall|k: nat|
        y == k as real && fits(#[trigger] power(x, k)) ==> is_double_of(c, power(x, k))));
}

/// A comparison in which a NaN takes part does not hold, but for `!=`, which
/// does.
pub proof fn law_nan(m: NumberModel, op: BinOp, a: Bits, b: Bits)
    requires
        number::is_nan(a) || number::is_nan(b),
    ensures
        match op {
            BinOp::Lt | BinOp::Gt | BinOp::Le | BinOp::Ge | BinOp::Eq => number::binary_result(
                m,
                op,
                a,
                b,
            ) matches Some(c) && is_double_of(c, 0 as real),
            BinOp::Ne => number::binary_result(m, op, a, b) matches Some(c) && is_double_of(
                c,
                1 as real,
            ),
            _ => true,
        },
{
    lemma_units();
}

/// Rounding gives the nearest whole number, and of two that are as near the one
/// farther from zero.
pub proof fn law_rounding(b: Bits, n: int)
    requires
        number::is_finite(b),
        i64::MIN <= n <= i64::MAX,
        real_of(b) >= 0 as real ==> (2 * n - 1) as real <= real_of(b) * (2 as real) && real_of(b) * (
        2 as real) < (2 * n + 1) as real,
        real_of(b) <= 0 as real ==> ((2 * n - 1) as real) < real_of(b) * (2 as real) && real_of(b)
            * (2 as real) <= (2 * n + 1) as real,
    ensures
        number::rounded(b) == n,
{
    let x = real_of(b);
    let s = number::scaled(b);
    let p = pow2(1074) as int;
    let h = pow2(1073) as int;
    lemma_pow2_pos(1073);
    lemma_pow2_unfold(1074);
    assert(p == 2 * h);
    let pr = p as real;
    assert(x == s as real / pr);
    assert(s as real == x * pr) by (nonlinear_arith)
        requires
            x == s as real / pr,
            pr > 0 as real,
    ;
    let (lo, hi) = (2 * n - 1, 2 * n + 1);
    lemma_real_product(lo, h);
    lemma_real_product(hi, h);
    let (l, u, d, hr) = (lo as real, hi as real, x * (2 as real), h as real);
    assert(pr == 2 as real * hr);
    assert(s as real == d * hr) by (nonlinear_arith)
        requires
            s as real == x * pr,
            pr == 2 as real * hr,
            d == x * (2 as real),
    ;
    assert(l <= d ==> l * hr <= d * hr) by (nonlinear_arith)
        requires
            hr > 0 as real,
    ;
    assert(l < d ==> l * hr < d * hr) by (nonlinear_arith)
        requires
            hr > 0 as real,
    ;
    assert(d <= u ==> d * hr <= u * hr) by (nonlinear_arith)
        requires
            hr > 0 as real,
    ;
    assert(d < u ==> d * hr < u * hr) by (nonlinear_arith)
        requires
            hr > 0 as real,
    ;
    assert(lo * h == n * p - h) by (nonlinear_arith)
        requires
            p == 2 * h,
            lo == 2 * n - 1,
    ;
    assert(hi * h == n * p + h) by (nonlinear_arith)
        requires
            p == 2 * h,
            hi == 2 * n + 1,
    ;
    assert(s >= 0 <==> x >= 0 as real) by (nonlinear_arith)
        requires
            s as real == x * pr,
            pr > 0 as real,
    ;
    let mag = number::scaled_magnitude(number::magnitude(b));
    number::lemma_magnitude(b);
    if number::is_negative(b) {
        assert(s == -mag);
        assert(x <= 0 as real) by (nonlinear_arith)
            requires
                s as real == x * pr,
                pr > 0 as real,
                s <= 0,
        ;
        assert(n * p - h < s <= n * p + h);
        assert((-n) * p == -(n * p)) by (nonlinear_arith);
        vstd::arithmetic::div_mod::lemma_fundamental_div_mod_converse(
            mag + h,
            p,
            -n,
            mag + h - (-n) * p,
        );
    } else {
        assert(s == mag);
        assert(n * p - h <= s < n * p + h);
        vstd::arithmetic::div_mod::lemma_fundamental_div_mod_converse(
            mag + h,
            p,
            n,
            mag + h - n * p,
        );
    }
}

/// A number that is too large for an `i64` is rounded to the largest, one that is too
/// small to the smallest, and NaN to 0.
pub proof fn law_rounding_stays_in_range(b: Bits)
    ensures
        number::is_nan(b) ==> number::rounded(b) == 0,
        !number::is_nan(b) && real_of(b) >= 0x8000_0000_0000_0000int as real ==> number::rounded(b)
            == i64::MAX,
        !number::is_nan(b) && real_of(b) <= -0x8000_0000_0000_0000int as real ==> number::rounded(
            b,
        ) == i64::MIN,
{
    let s = number::scaled(b);
    let p = pow2(1074) as int;
    let h = pow2(1073) as int;
    lemma_pow2_pos(1073);
    lemma_pow2_unfold(1074);
    let pr = p as real;
    let x = real_of(b);
    let k: int = 0x8000_0000_0000_0000;
    let kr = k as real;
    assert(s as real == x * pr) by (nonlinear_arith)
        requires
            x == s as real / pr,
            pr > 0 as real,
    ;
    lemma_real_product(k, p);
    lemma_real_product(-k, p);
    number::lemma_magnitude(b);
    let mag = number::scaled_magnitude(number::magnitude(b));
    if !number::is_nan(b) && x >= kr {
        assert(x * pr >= kr * pr) by (nonlinear_arith)
            requires
                x >= kr,
                pr > 0 as real,
        ;
        assert(s >= k * p);
        assert(k * p > 0) by (nonlinear_arith)
            requires
                k > 0,
                p > 0,
        ;
        assert(mag + h >= k * p);
        assert((mag + h) / p >= k) by (nonlinear_arith)
            requires
                mag + h >= k * p,
                p > 0,
        ;
    }
    if !number::is_nan(b) && x <= (-k) as real {
        let nk = (-k) as real;
        assert(x * pr <= nk * pr) by (nonlinear_arith)
            requires
                x <= nk,
                pr > 0 as real,
        ;
        assert(s <= (-k) * p);
        assert((-k) * p == -(k * p)) by (nonlinear_arith);
        assert(k * p > 0) by (nonlinear_arith)
            requires
                k > 0,
                p > 0,
        ;
        assert(mag + h >= k * p);
        assert((mag + h) / p >= k) by (nonlinear_arith)
            requires
                mag + h >= k * p,
                p > 0,
        ;
    }
}

// ---- real numbers -----------------------------------------------------

pub(crate) proof fn lemma_power_not_zero(x: real, n: nat)
    requires
        x != 0 as real,
    ensures
        power(x, n) != 0 as real,
    decreases n,
{
    if n > 0 {
        lemma_power_not_zero(x, (n - 1) as nat);
        let y = power(x, (n - 1) as nat);
        assert(y * x != 0 as real) by (nonlinear_arith)
            requires
                y != 0 as real,
                x != 0 as real,
        ;
    }
}

pub(crate) proof fn lemma_product(x: real, y: real)
    requires
        x != 0 as real,
        y != 0 as real,
    ensures
        x * y != 0 as real,
{
    assert(x * y != 0 as real) by (nonlinear_arith)
        requires
            x != 0 as real,
            y != 0 as real,
    ;
}

pub(crate) proof fn lemma_quotient(x: real, y: real)
    requires
        y != 0 as real,
    ensures
        (x / y) * y == x,
{
    assert((x / y) * y == x) by (nonlinear_arith)
        requires
            y != 0 as real,
    ;
}

pub(crate) proof fn lemma_cancel(x: real, y: real, z: real)
    requires
        z != 0 as real,
        x * z == y * z,
    ensures
        x == y,
{
    assert(x == y) by (nonlinear_arith)
        requires
            z != 0 as real,
            x * z == y * z,
    ;
}

/// To divide twice is to divide by the product.
pub(crate) proof fn lemma_quotients(x: real, p: real, d: real)
    requires
        p != 0 as real,
        d != 0 as real,
    ensures
        (x / p) / d == x / (p * d),
{
    lemma_product(p, d);
    let (u, w) = (x / p, x / (p * d));
    let v = u / d;
    lemma_quotient(x, p);
    lemma_quotient(u, d);
    lemma_quotient(x, p * d);
    assert(v * (p * d) == (v * d) * p) by (nonlinear_arith);
    lemma_cancel(v, w, p * d);
}

} // verus!
