//! Settings of the service, as they stand in its environment.

use vstd::prelude::*;

use crate::decimal::{decimal_value, parse_usize};
use crate::text::opt_str;

verus! {

/// The positive number that a setting spells, or `fallback` where it is not
/// set, spells none, or spells one that does not fit.
pub open spec fn setting(value: Option<Seq<char>>, fallback: usize) -> usize {
    match value {
        Some(text) => match decimal_value(text) {
            Some(n) if 0 < n <= usize::MAX => n as usize,
            _ => fallback,
        },
        None => fallback,
    }
}

/// The positive number that the value of an environment variable spells, or
/// `fallback`.
pub fn env_usize(value: Option<&str>, fallback: usize) -> (r: usize)
    ensures
        r == setting(opt_str(value), fallback),
{
    match value {
        Some(text) => match parse_usize(text) {
            Some(n) => if n > 0 {
                n
            } else {
                fallback
            },
            None => fallback,
        },
        None => fallback,
    }
}

/// A setting is never zero where its fallback is not.
pub proof fn law_setting_is_positive(value: Option<Seq<char>>, fallback: usize)
    requires
        fallback > 0,
    ensures
        setting(value, fallback) > 0,
{
}

/// A setting is the number that its value spells exactly where that number is
/// positive and fits, and in every other case it is the fallback.
pub proof fn law_setting_is_the_number_or_the_fallback(text: Seq<char>, fallback: usize, n: usize)
    ensures
        setting(None, fallback) == fallback,
        n > 0 && decimal_value(text) == Some(n as nat) ==> setting(Some(text), fallback) == n,
        decimal_value(text) is None ==> setting(Some(text), fallback) == fallback,
        decimal_value(text) == Some(0nat) ==> setting(Some(text), fallback) == fallback,
        decimal_value(text) matches Some(m) ==> (m > usize::MAX ==> setting(Some(text), fallback)
            == fallback),
{
}

} // verus!
