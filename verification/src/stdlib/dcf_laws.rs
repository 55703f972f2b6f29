//! What a discounted-cash-flow valuation is worth, in real numbers.

#[allow(unused_imports)]
use crate::ast::BinOp;
#[allow(unused_imports)]
use crate::exactness::{self, exact, exact_powers, fits, is_double_of, power, real_of};
#[allow(unused_imports)]
use crate::number::{self, Bits, NumberModel};
#[allow(unused_imports)]
use crate::stdlib::dcf;
#[allow(unused_imports)]
use crate::value::{SpecResult, SpecValue};
use vstd::prelude::*;

verus! {

/// What the cash flows of the years 1 to `n` are worth today: for each year `k`
/// the flow `f` with `k` years of growth at the rate `g`, divided by `1 + r` once
/// for each of the years.
pub open spec fn flows(f: real, g: real, r: real, n: nat) -> real
    decreases n,
{
    if n == 0 {
        0 as real
    } else {
        flows(f, g, r, (n - 1) as nat) + f * power(1 as real + g, n) / power(1 as real + r, n)
    }
}

/// What the flows after the year `n` are worth today, where they grow at the
/// rate `t` for ever.
pub open spec fn tail(f: real, g: real, r: real, t: real, n: nat) -> real {
    f * power(1 as real + g, n) * (1 as real + t) / ((r - t) * power(1 as real + r, n))
}

/// What the flows of all years are worth today.
pub open spec fn worth(f: real, g: real, r: real, t: real, n: nat) -> real {
    flows(f, g, r, n) + tail(f, g, r, t, n)
}

/// The numbers that come up in the valuation of a window of `n` years have
/// doubles.
pub open spec fn window_fits(f: real, g: real, r: real, t: real, n: nat) -> bool {
    let flow = f * power(1 as real + g, n) * (1 as real + t);
    &&& fits(1 as real + g)
    &&& fits(1 as real + r)
    &&& fits(1 as real + t)
    &&& fits(r - t)
    &&& forall|k: nat|
        #![trigger power(1 as real + g, k)]
        #![trigger power(1 as real + r, k)]
        k <= n ==> {
            &&& fits(f * power(1 as real + g, k))
            &&& fits(power(1 as real + r, k))
            &&& fits(f * power(1 as real + g, k) / power(1 as real + r, k))
            &&& fits(flows(f, g, r, k))
        }
    &&& fits(flow)
    &&& fits(flow / (r - t))
    &&& fits(tail(f, g, r, t, n))
    &&& fits(worth(f, g, r, t, n))
}

proof fn lemma_projected(m: NumberModel, fcf: Bits, growth: Bits, k: nat, n: nat)
    requires
        exact(m),
        k <= n,
        number::is_finite(fcf),
        number::is_finite(growth),
        fits(1 as real + real_of(growth)),
        forall|j: nat|
            j <= n ==> fits(real_of(fcf) * #[trigger] power(1 as real + real_of(growth), j)),
    ensures
        is_double_of(
            dcf::projected(m, fcf, growth, k as int),
            real_of(fcf) * power(1 as real + real_of(growth), k),
        ),
    decreases k,
{
    let f = real_of(fcf);
    let q = 1 as real + real_of(growth);
    exactness::lemma_units();
    let rate = (m.arith)(BinOp::Add, number::ONE, growth);
    assert(is_double_of(rate, q));
    if k == 0 {
        assert(f * (1 as real) == f);
    } else {
        let j = (k - 1) as nat;
        lemma_projected(m, fcf, growth, j, n);
        let before = dcf::projected(m, fcf, growth, j as int);
        let p = power(q, j);
        assert((f * p) * q == f * (p * q)) by (nonlinear_arith);
        assert(fits(f * power(q, k)));
        assert(is_double_of((m.arith)(BinOp::Mul, before, rate), f * (p * q)));
    }
}

/// A flow that comes one year later is worth what it was worth before, divided
/// once more by one and the rate. What comes today is worth itself.
pub proof fn law_discount(m: NumberModel, flow: Bits, rate: Bits, k: i64)
    requires
        exact(m),
        exact_powers(m),
        number::is_finite(flow),
        number::is_finite(rate),
        1 as real + real_of(rate) != 0 as real,
        fits(1 as real + real_of(rate)),
        0 <= k < i32::MAX,
        fits(power(1 as real + real_of(rate), k as nat)),
        fits(power(1 as real + real_of(rate), (k + 1) as nat)),
        fits(real_of(flow) / power(1 as real + real_of(rate), k as nat)),
        fits(real_of(flow) / power(1 as real + real_of(rate), (k + 1) as nat)),
    ensures
        real_of(dcf::discounted(m, flow, rate, 0)) == real_of(flow),
        real_of(dcf::discounted(m, flow, rate, (k + 1) as i64)) == real_of(
            dcf::discounted(m, flow, rate, k),
        ) / (1 as real + real_of(rate)),
{
    let x = real_of(flow);
    let d = 1 as real + real_of(rate);
    exactness::lemma_units();
    assert(fits(power(d, 0)));
    assert(x / (1 as real) == x) by (nonlinear_arith);
    assert(fits(x / power(d, 0)));
    lemma_discounted(m, flow, rate, 0);
    lemma_discounted(m, flow, rate, k);
    lemma_discounted(m, flow, rate, (k + 1) as i64);
    let p = power(d, k as nat);
    exactness::lemma_power_not_zero(d, k as nat);
    assert(power(d, (k + 1) as nat) == p * d);
    exactness::lemma_quotients(x, p, d);
}

proof fn lemma_discounted(m: NumberModel, flow: Bits, rate: Bits, k: i64)
    requires
        exact(m),
        exact_powers(m),
        number::is_finite(flow),
        number::is_finite(rate),
        1 as real + real_of(rate) != 0 as real,
        fits(1 as real + real_of(rate)),
        0 <= k <= i32::MAX,
        fits(power(1 as real + real_of(rate), k as nat)),
        fits(real_of(flow) / power(1 as real + real_of(rate), k as nat)),
    ensures
        is_double_of(
            dcf::discounted(m, flow, rate, k),
            real_of(flow) / power(1 as real + real_of(rate), k as nat),
        ),
{
    let d = 1 as real + real_of(rate);
    exactness::lemma_units();
    exactness::lemma_power_not_zero(d, k as nat);
    let base = (m.arith)(BinOp::Add, number::ONE, rate);
    assert(is_double_of(base, d));
    assert(is_double_of((m.powi)(base, k as i32), power(d, k as nat)));
}

proof fn lemma_present(
    m: NumberModel,
    fcf: Bits,
    growth: Bits,
    rate: Bits,
    t: real,
    k: nat,
    n: nat,
)
    requires
        exact(m),
        exact_powers(m),
        k <= n <= i32::MAX,
        number::is_finite(fcf),
        number::is_finite(growth),
        number::is_finite(rate),
        1 as real + real_of(rate) != 0 as real,
        window_fits(real_of(fcf), real_of(growth), real_of(rate), t, n),
    ensures
        is_double_of(
            dcf::present(m, fcf, growth, rate, k as int),
            flows(real_of(fcf), real_of(growth), real_of(rate), k),
        ),
    decreases k,
{
    let (f, g, r) = (real_of(fcf), real_of(growth), real_of(rate));
    exactness::lemma_units();
    if k > 0 {
        let j = (k - 1) as nat;
        lemma_present(m, fcf, growth, rate, t, j, n);
        lemma_projected(m, fcf, growth, k, n);
        let flow = dcf::projected(m, fcf, growth, k as int);
        assert(fits(f * power(1 as real + g, k) / power(1 as real + r, k)));
        lemma_discounted(m, flow, rate, k as i64);
        assert(fits(flows(f, g, r, k)));
    }
}

/// Where arithmetic is exact, `dcf` gives the sum of the flows of the years 1 to
/// `n`, each divided by one and the rate once for each year, and of the flows
/// after them, which grow at the terminal rate for ever. The years are rounded to a
/// whole number.
pub proof fn law_valuation(
    m: NumberModel,
    fcf: Bits,
    growth: Bits,
    rate: Bits,
    terminal: Bits,
    years: Bits,
    n: nat,
)
    requires
        exact(m),
        exact_powers(m),
        number::is_finite(fcf),
        number::is_finite(growth),
        number::is_finite(rate),
        number::is_finite(terminal),
        number::rounded(years) == n,
        1 <= n <= i32::MAX,
        real_of(terminal) < real_of(rate),
        1 as real + real_of(rate) != 0 as real,
        window_fits(real_of(fcf), real_of(growth), real_of(rate), real_of(terminal), n),
    ensures
        dcf::dcf_of(
            m,
            seq![
                SpecValue::Number(fcf),
                SpecValue::Number(growth),
                SpecValue::Number(rate),
                SpecValue::Number(terminal),
                SpecValue::Number(years),
            ],
        ) matches Ok(v) && (v matches SpecValue::Number(c) && is_double_of(
            c,
            worth(real_of(fcf), real_of(growth), real_of(rate), real_of(terminal), n),
        )),
{
    let (f, g, r, t) = (real_of(fcf), real_of(growth), real_of(rate), real_of(terminal));
    exactness::law_order(rate, terminal);
    exactness::lemma_units();
    lemma_projected(m, fcf, growth, n, n);
    lemma_present(m, fcf, growth, rate, t, n, n);
    let last = dcf::projected(m, fcf, growth, n as int);
    let one_more = (m.arith)(BinOp::Add, number::ONE, terminal);
    let next = (m.arith)(BinOp::Mul, last, one_more);
    let spread = (m.arith)(BinOp::Sub, rate, terminal);
    let value = (m.arith)(BinOp::Div, next, spread);
    let flow = f * power(1 as real + g, n) * (1 as real + t);
    assert(is_double_of(one_more, 1 as real + t));
    assert(is_double_of(next, flow));
    assert(is_double_of(spread, r - t));
    assert(is_double_of(value, flow / (r - t)));
    let p = power(1 as real + r, n);
    exactness::lemma_power_not_zero(1 as real + r, n);
    let s = r - t;
    exactness::lemma_quotients(flow, s, p);
    assert(fits(p));
    lemma_discounted(m, value, rate, n as i64);
    let before = dcf::present(m, fcf, growth, rate, n as int);
    let after = dcf::discounted(m, value, rate, n as i64);
    assert(is_double_of((m.arith)(BinOp::Add, before, after), worth(f, g, r, t, n)));
}

/// Where the flows grow at the terminal rate from the start, they are worth what
/// a growing perpetuity is worth, however long the window is.
pub proof fn law_growing_perpetuity(f: real, g: real, r: real, n: nat)
    requires
        r != g,
        1 as real + r != 0 as real,
    ensures
        worth(f, g, r, g, n) == f * (1 as real + g) / (r - g),
    decreases n,
{
    let (q, d, s) = (1 as real + g, 1 as real + r, r - g);
    if n == 0 {
        assert(f * (1 as real) == f) by (nonlinear_arith);
        assert(s * (1 as real) == s) by (nonlinear_arith);
    } else {
        let j = (n - 1) as nat;
        law_growing_perpetuity(f, g, r, j);
        exactness::lemma_power_not_zero(d, j);
        lemma_one_year(f, power(q, j), q, power(d, j), d, s);
    }
}

/// A flow, and what comes after it, are worth what comes from it on.
proof fn lemma_one_year(f: real, a: real, q: real, p: real, d: real, s: real)
    requires
        p != 0 as real,
        d != 0 as real,
        s != 0 as real,
        s + q == d,
    ensures
        f * (a * q) / (p * d) + f * (a * q) * q / (s * (p * d)) == f * a * q / (s * p),
{
    let x = f * (a * q);
    let e = p * d;
    exactness::lemma_product(p, d);
    exactness::lemma_product(s, e);
    exactness::lemma_product(s, p);
    let u = x / e;
    let v = x * q / (s * e);
    let w = f * a * q / (s * p);
    exactness::lemma_quotient(x, e);
    exactness::lemma_quotient(x * q, s * e);
    exactness::lemma_quotient(f * a * q, s * p);
    assert(f * a * q == x) by (nonlinear_arith)
        requires
            x == f * (a * q),
    ;
    assert((u + v) * (s * e) == (u * e) * s + v * (s * e)) by (nonlinear_arith);
    assert(x * s + x * q == x * (s + q)) by (nonlinear_arith);
    assert(w * (s * (p * d)) == (w * (s * p)) * d) by (nonlinear_arith);
    exactness::lemma_cancel(u + v, w, s * e);
}

/// `dcf` fails on numbers if and only if the rate is not above the terminal rate
/// or the years do not round to a whole number above zero. The rates are looked at
/// first.
pub proof fn law_refusals(
    m: NumberModel,
    fcf: Bits,
    growth: Bits,
    rate: Bits,
    terminal: Bits,
    years: Bits,
)
    requires
        number::is_finite(rate),
        number::is_finite(terminal),
    ensures
        dcf::dcf_of(
            m,
            seq![
                SpecValue::Number(fcf),
                SpecValue::Number(growth),
                SpecValue::Number(rate),
                SpecValue::Number(terminal),
                SpecValue::Number(years),
            ],
        ) matches Err(e) ==> (real_of(rate) <= real_of(terminal) && e
            == "dcf: discount_rate must be greater than terminal_growth_rate (otherwise the terminal value is undefined)"@)
            || (real_of(terminal) < real_of(rate) && number::rounded(years) <= 0 && e
            == "dcf: years must be a positive whole number, got "@ + (m.show)(years)),
        dcf::dcf_of(
            m,
            seq![
                SpecValue::Number(fcf),
                SpecValue::Number(growth),
                SpecValue::Number(rate),
                SpecValue::Number(terminal),
                SpecValue::Number(years),
            ],
        ) is Err <==> real_of(rate) <= real_of(terminal) || number::rounded(years) <= 0,
{
    exactness::law_order(rate, terminal);
}

/// `dcf` takes five numbers: it fails for any other number of arguments, and
/// where one of the five is no number.
pub proof fn law_arguments(m: NumberModel, args: Seq<SpecValue>, i: int)
    requires
        args.len() != 5 || (0 <= i < 5 && args[i] !is Number),
    ensures
        dcf::dcf_of(m, args) is Err,
{
}

} // verus!
