//! The hook runs only inside an `oby`-wrapped session.
use vstd::prelude::*;
use crate::text::str_eq;

verus! {

/// True for the values of `OBS_ACTIVE` that mark a wrapped session: `1` or
/// `true`.
pub open spec fn spec_is_active(value: Option<Seq<char>>) -> bool {
    match value {
        Some(v) => v == "1"@ || v == "true"@,
        None => false,
    }
}

/// Is the session wrapped, given the value of `OBS_ACTIVE` (`None` when it
/// is unset or not Unicode)? An unwrapped session leaves it unset, and the hook
/// no-ops.
pub fn is_active(value: Option<&str>) -> (res: bool)
    ensures
        res == spec_is_active(
            match value {
                Some(v) => Some(v@),
                None => None,
            },
        ),
{
    match value {
        Some(v) => str_eq(v, "1") || str_eq(v, "true"),
        None => false,
    }
}

} // verus!
