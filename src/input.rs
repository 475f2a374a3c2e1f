//! Checks and conversions for values typed at the command shell.

use vstd::prelude::*;
use crate::codec::{amount_of, flag_of, parse_amount, parse_flag};
use crate::text::{chars_of, push_str};

verus! {

/// Accepts a decimal number of currency units (see `amount_of`).
pub fn is_number_value(v: String) -> (r: Result<(), String>)
    ensures
        r is Ok <==> amount_of(v@) is Some,
        r is Err ==> r->Err_0@ == "The provided value is not a valid number."@,
{
    let cs = chars_of(v.as_str());
    match parse_amount(&cs) {
        Some(_) => Ok(()),
        None => {
            let mut m = String::new();
            push_str(&mut m, "The provided value is not a valid number.");
            assert(m@ =~= "The provided value is not a valid number."@);
            Err(m)
        },
    }
}

/// Accepts `true` and `false`.
pub fn is_bool_value(v: String) -> (r: Result<(), String>)
    ensures
        r is Ok <==> flag_of(v@) is Some,
        r is Err ==> r->Err_0@ == "The provided value is not a boolean value."@,
{
    let cs = chars_of(v.as_str());
    match parse_flag(&cs) {
        Some(_) => Ok(()),
        None => {
            let mut m = String::new();
            push_str(&mut m, "The provided value is not a boolean value.");
            assert(m@ =~= "The provided value is not a boolean value."@);
            Err(m)
        },
    }
}

/// The monthly amount, in cents, of a yearly amount in cents, rounded down.
pub fn from_year_to_months(value: u64) -> (r: u64)
    ensures
        r == value / 12,
{
    value / 12
}

} // verus!
