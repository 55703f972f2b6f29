//! Built-in `dcf(...)`: a discounted-cash-flow valuation.
//!
//! `dcf(fcf, growth_rate, discount_rate, terminal_growth_rate, years)` takes
//! the most recent free cash flow, its annual growth in the projection window,
//! the required rate of return, the growth after the window, and the length of
//! the window in years.

use crate::ast::BinOp;
#[allow(unused_imports)]
use crate::number::{self, Bits, NumberModel, Numbers};
#[allow(unused_imports)]
use crate::text;
#[allow(unused_imports)]
use crate::value::{self, RuntimeError, SpecResult, SpecValue, Value};
use vstd::prelude::*;

verus! {

/// The views of a list of values.
pub open spec fn values_view(vs: Seq<Value>) -> Seq<SpecValue> {
    vs.map_values(|v: Value| v@)
}

/// The free cash flow after `k` years of growth.
pub open spec fn projected(m: NumberModel, fcf: Bits, growth_rate: Bits, k: int) -> Bits
    decreases k,
{
    if k <= 0 {
        fcf
    } else {
        (m.arith)(
            BinOp::Mul,
            projected(m, fcf, growth_rate, k - 1),
            (m.arith)(BinOp::Add, number::ONE, growth_rate),
        )
    }
}

/// What a cash flow is worth today that comes in `year` years.
pub open spec fn discounted(m: NumberModel, flow: Bits, discount_rate: Bits, year: i64) -> Bits {
    (m.arith)(
        BinOp::Div,
        flow,
        (m.powi)((m.arith)(BinOp::Add, number::ONE, discount_rate), year as i32),
    )
}

/// What the cash flows of the first `k` years are worth today.
pub open spec fn present(
    m: NumberModel,
    fcf: Bits,
    growth_rate: Bits,
    discount_rate: Bits,
    k: int,
) -> Bits
    decreases k,
{
    if k <= 0 {
        0
    } else {
        (m.arith)(
            BinOp::Add,
            present(m, fcf, growth_rate, discount_rate, k - 1),
            discounted(m, projected(m, fcf, growth_rate, k), discount_rate, k as i64),
        )
    }
}

/// The valuation: the projection window, and the Gordon growth formula after
/// it.
pub open spec fn valuation(
    m: NumberModel,
    fcf: Bits,
    growth_rate: Bits,
    discount_rate: Bits,
    terminal_growth_rate: Bits,
    years: i64,
) -> Bits {
    let terminal_fcf = (m.arith)(
        BinOp::Mul,
        projected(m, fcf, growth_rate, years as int),
        (m.arith)(BinOp::Add, number::ONE, terminal_growth_rate),
    );
    let terminal_value = (m.arith)(
        BinOp::Div,
        terminal_fcf,
        (m.arith)(BinOp::Sub, discount_rate, terminal_growth_rate),
    );
    (m.arith)(
        BinOp::Add,
        present(m, fcf, growth_rate, discount_rate, years as int),
        discounted(m, terminal_value, discount_rate, years),
    )
}

/// An argument that has to be a number.
pub open spec fn number_arg(m: NumberModel, v: SpecValue, name: Seq<char>) -> Result<
    Bits,
    Seq<char>,
> {
    match v {
        SpecValue::Number(n) => Ok(n),
        _ => Err(
            "dcf: argument `"@ + name + "` must be a number, found "@ + value::value_text(m, v),
        ),
    }
}

/// What `dcf` gives for numbers.
pub open spec fn dcf_of_numbers(
    m: NumberModel,
    fcf: Bits,
    growth_rate: Bits,
    discount_rate: Bits,
    terminal_growth_rate: Bits,
    years: Bits,
) -> SpecResult {
    if number::less(discount_rate, terminal_growth_rate) || number::equal(
        discount_rate,
        terminal_growth_rate,
    ) {
        Err(
            "dcf: discount_rate must be greater than terminal_growth_rate (otherwise the terminal value is undefined)"@,
        )
    } else if number::rounded(years) <= 0 {
        Err("dcf: years must be a positive whole number, got "@ + (m.show)(years))
    } else {
        Ok(
            SpecValue::Number(
                valuation(
                    m,
                    fcf,
                    growth_rate,
                    discount_rate,
                    terminal_growth_rate,
                    number::rounded(years) as i64,
                ),
            ),
        )
    }
}

/// What `dcf` gives. Where more than one argument is wrong, the error is about
/// the first.
pub open spec fn dcf_of(m: NumberModel, args: Seq<SpecValue>) -> SpecResult {
    if args.len() != 5 {
        Err(
            "dcf(fcf, growth_rate, discount_rate, terminal_growth_rate, years) expects 5 arguments, got "@
                + text::decimal(args.len()),
        )
    } else {
        match number_arg(m, args[0], "fcf"@) {
            Err(e) => Err(e),
            Ok(fcf) => match number_arg(m, args[1], "growth_rate"@) {
                Err(e) => Err(e),
                Ok(growth_rate) => match number_arg(m, args[2], "discount_rate"@) {
                    Err(e) => Err(e),
                    Ok(discount_rate) => match number_arg(m, args[3], "terminal_growth_rate"@) {
                        Err(e) => Err(e),
                        Ok(terminal) => match number_arg(m, args[4], "years"@) {
                            Err(e) => Err(e),
                            Ok(years) => dcf_of_numbers(
                                m,
                                fcf,
                                growth_rate,
                                discount_rate,
                                terminal,
                                years,
                            ),
                        },
                    },
                },
            },
        }
    }
}

fn as_number<N: Numbers>(v: &Value, arg_name: &str, nums: &N) -> (r: Result<Bits, RuntimeError>)
    ensures
        forall|m: NumberModel| #[trigger]
            number::computes(*nums, m) ==> number_arg(m, v@, arg_name@) == (match r {
                Ok(n) => Ok::<Bits, Seq<char>>(n),
                Err(e) => Err(e@),
            }),
{
    match v {
        Value::Number(n) => Ok(*n),
        other => {
            let mut s = "dcf: argument `".to_owned();
            s.append(arg_name);
            s.append("` must be a number, found ");
            s.append(other.to_text(nums).as_str());
            Err(RuntimeError::new(s))
        },
    }
}

fn discount<N: Numbers>(flow: Bits, discount_rate: Bits, year: i64, nums: &N) -> (r: Bits)
    ensures
        forall|m: NumberModel| #[trigger]
            number::computes(*nums, m) ==> r == discounted(m, flow, discount_rate, year),
{
    let rate = nums.arith(BinOp::Add, number::ONE, discount_rate);
    let exponent: i32 = #[verifier::truncate] (year as i32);
    nums.arith(BinOp::Div, flow, nums.powi(rate, exponent))
}

fn value_of<N: Numbers>(
    fcf: Bits,
    growth_rate: Bits,
    discount_rate: Bits,
    terminal_growth_rate: Bits,
    years: i64,
    nums: &N,
) -> (r: Bits)
    requires
        years > 0,
    ensures
        forall|m: NumberModel| #[trigger]
            number::computes(*nums, m) ==> r == valuation(
                m,
                fcf,
                growth_rate,
                discount_rate,
                terminal_growth_rate,
                years,
            ),
{
    let mut pv_sum: Bits = 0;
    let mut projected_fcf: Bits = fcf;
    let mut year: i64 = 0;
    while year < years
        invariant
            0 <= year <= years,
            forall|m: NumberModel| #[trigger]
                number::computes(*nums, m) ==> projected_fcf == projected(
                    m,
                    fcf,
                    growth_rate,
                    year as int,
                ) && pv_sum == present(m, fcf, growth_rate, discount_rate, year as int),
        decreases years - year,
    {
        year = year + 1;
        let growth = nums.arith(BinOp::Add, number::ONE, growth_rate);
        projected_fcf = nums.arith(BinOp::Mul, projected_fcf, growth);
        pv_sum = nums.arith(
            BinOp::Add,
            pv_sum,
            discount(projected_fcf, discount_rate, year, nums),
        );
    }
    let terminal_growth = nums.arith(BinOp::Add, number::ONE, terminal_growth_rate);
    let terminal_fcf = nums.arith(BinOp::Mul, projected_fcf, terminal_growth);
    let spread = nums.arith(BinOp::Sub, discount_rate, terminal_growth_rate);
    let terminal_value = nums.arith(BinOp::Div, terminal_fcf, spread);
    let pv_terminal = discount(terminal_value, discount_rate, years, nums);
    nums.arith(BinOp::Add, pv_sum, pv_terminal)
}

pub fn dcf<N: Numbers>(args: &[Value], nums: &N) -> (r: Result<Value, RuntimeError>)
    ensures
        forall|m: NumberModel| #[trigger]
            number::computes(*nums, m) ==> value::result_view(r) == dcf_of(m, values_view(args@)),
{
    if args.len() != 5 {
        return Err(
            value::fail(
                "dcf(fcf, growth_rate, discount_rate, terminal_growth_rate, years) expects 5 arguments, got ",
                text::usize_text(args.len()).as_str(),
            ),
        );
    }
    let fcf = match as_number(&args[0], "fcf", nums) {
        Ok(n) => n,
        Err(e) => {
            return Err(e);
        },
    };
    let growth_rate = match as_number(&args[1], "growth_rate", nums) {
        Ok(n) => n,
        Err(e) => {
            return Err(e);
        },
    };
    let discount_rate = match as_number(&args[2], "discount_rate", nums) {
        Ok(n) => n,
        Err(e) => {
            return Err(e);
        },
    };
    let terminal_growth_rate = match as_number(&args[3], "terminal_growth_rate", nums) {
        Ok(n) => n,
        Err(e) => {
            return Err(e);
        },
    };
    let years_raw = match as_number(&args[4], "years", nums) {
        Ok(n) => n,
        Err(e) => {
            return Err(e);
        },
    };
    if number::lt(discount_rate, terminal_growth_rate) || number::eq(
        discount_rate,
        terminal_growth_rate,
    ) {
        return Err(
            RuntimeError::new(
                "dcf: discount_rate must be greater than terminal_growth_rate (otherwise the terminal value is undefined)".to_owned(),
            ),
        );
    }
    let years = number::round_to_int(years_raw);
    if years <= 0 {
        return Err(
            value::fail(
                "dcf: years must be a positive whole number, got ",
                nums.show(years_raw).as_str(),
            ),
        );
    }
    Ok(
        Value::Number(
            value_of(fcf, growth_rate, discount_rate, terminal_growth_rate, years, nums),
        ),
    )
}

} // verus!
