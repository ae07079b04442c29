//! Option-type codes of the Black-76 pricing functions.

use vstd::prelude::*;

verus! {

/// The kind of a European option, written `q = +1` for calls and `q = -1`
/// for puts in the pricing functions.
#[derive(Debug, Clone, Copy, PartialEq, Eq, Structural)]
pub enum OptionType {
    Call,
    Put,
}

/// The option kind that a code `q` stands for: only `+1` and `-1` are valid.
pub open spec fn option_type_of(q: i32) -> Option<OptionType> {
    if q == 1 {
        Some(OptionType::Call)
    } else if q == -1 {
        Some(OptionType::Put)
    } else {
        None
    }
}

/// The sign code of an option kind.
pub open spec fn code_of(t: OptionType) -> i32 {
    match t {
        OptionType::Call => 1i32,
        OptionType::Put => -1i32,
    }
}

/// Reads the option-type code `q` of the pricing functions; `None` for any
/// code other than `+1` (call) or `-1` (put), which they reject with
/// "q must be +1 (call) or -1 (put)".
pub fn option_type_from_code(q: i32) -> (t: Option<OptionType>)
    ensures
        t == option_type_of(q),
{
    if q == 1 {
        Some(OptionType::Call)
    } else if q == -1 {
        Some(OptionType::Put)
    } else {
        None
    }
}

impl OptionType {
    /// The code `q` of this kind: `+1` for a call, `-1` for a put.
    pub fn code(&self) -> (q: i32)
        ensures
            q == code_of(*self),
    {
        match self {
            OptionType::Call => 1,
            OptionType::Put => -1,
        }
    }
}

/// Reading a kind's code gives the kind back, and a code that reads as a kind
/// is that kind's code.
pub proof fn lemma_option_code_round_trip(t: OptionType, q: i32)
    ensures
        option_type_of(code_of(t)) == Some(t),
        option_type_of(q) is Some ==> code_of(option_type_of(q)->0) == q,
{
}

} // verus!
