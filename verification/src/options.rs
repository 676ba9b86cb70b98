//! Tri-state boolean options, as the command line hands them over:
//! unset, set with no value, or set with an explicit value.

use vstd::prelude::*;

verus! {

/// The value a tri-state flag denotes: unset falls back to the default,
/// set without a value means `true`, an explicit value wins.
pub open spec fn spec_bool_opt(arg: Option<Option<bool>>, default_val: bool) -> bool {
    match arg {
        None => default_val,
        Some(None) => true,
        Some(Some(v)) => v,
    }
}

/// Resolves a tri-state flag to a concrete boolean.
pub fn get_bool_opt(arg: Option<Option<bool>>, default_val: bool) -> (r: bool)
    ensures
        r == spec_bool_opt(arg, default_val),
{
    if let Some(opt) = arg {
        if let Some(ret) = opt {
            ret
        } else {
            true
        }
    } else {
        default_val
    }
}

} // verus!
