//! Prewritten functions that a program calls as if they were part of the
//! language.

pub mod dcf;
pub mod dcf_laws;

use crate::interpreter::Interpreter;
#[allow(unused_imports)]
use crate::machine::{self, SpecMachine, SpecState};
#[allow(unused_imports)]
use crate::names;
#[allow(unused_imports)]
use crate::number::{self, NumberModel, Numbers};
#[allow(unused_imports)]
use crate::value::{self, RuntimeError, SpecResult, SpecValue, Value};
use vstd::prelude::*;

verus! {

/// A prewritten function.
#[derive(Debug, Clone, Copy, PartialEq, Eq, Structural)]
pub enum Native {
    Dcf,
}

impl View for Native {
    type V = Native;

    open spec fn view(&self) -> Native {
        *self
    }
}

/// What a prewritten function gives.
pub open spec fn native_result(m: NumberModel, f: Native, args: Seq<SpecValue>) -> SpecResult {
    match f {
        Native::Dcf => dcf::dcf_of(m, args),
    }
}

impl Native {
    /// Call the function.
    pub fn call<N: Numbers>(&self, args: &[Value], nums: &N) -> (r: Result<Value, RuntimeError>)
        ensures
            forall|m: NumberModel| #[trigger]
                number::computes(*nums, m) ==> value::result_view(r) == native_result(
                    m,
                    *self,
                    dcf::values_view(args@),
                ),
    {
        match self {
            Native::Dcf => dcf::dcf(args, nums),
        }
    }
}

/// Registers every prewritten function.
pub fn register_all(interp: &mut Interpreter)
    ensures
        final(interp)@ == (SpecMachine {
            st: SpecState {
                natives: names::put(old(interp)@.st.natives, "dcf"@, Native::Dcf),
                ..old(interp)@.st
            },
            ..old(interp)@
        }),
        machine::wf(old(interp)@) ==> machine::wf(final(interp)@),
{
    interp.register_native("dcf".to_owned(), Native::Dcf);
}

} // verus!
