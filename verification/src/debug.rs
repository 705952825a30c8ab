use vstd::prelude::*;

use crate::text::str_eq;

verus! {

/// What a boolean setting reads as: `true` or `1`, `false` or `0`, anything else is no
/// valid setting.
pub open spec fn bool_setting(value: Seq<char>) -> Option<bool> {
    if value == "true"@ || value == "1"@ {
        Some(true)
    } else if value == "false"@ || value == "0"@ {
        Some(false)
    } else {
        None
    }
}

/// Parses the value of a boolean setting.
pub fn parse_bool_setting(value: &str) -> (r: Option<bool>)
    ensures
        r == bool_setting(value@),
{
    if str_eq(value, "true") || str_eq(value, "1") {
        Some(true)
    } else if str_eq(value, "false") || str_eq(value, "0") {
        Some(false)
    } else {
        None
    }
}

/// Whether the validation layers are enabled, given the value of their setting if it is
/// set: they are unless the setting validly says otherwise.
pub fn debug_enabled(setting: Option<&str>) -> (r: bool)
    ensures
        r == match setting {
            Some(v) => match bool_setting(v@) {
                Some(b) => b,
                None => true,
            },
            None => true,
        },
{
    match setting {
        Some(v) => match parse_bool_setting(v) {
            Some(b) => b,
            None => true,
        },
        None => true,
    }
}

/// Whether GPU-assisted validation is enabled, given the value of its setting if it is set:
/// it is not unless the setting validly says so.
pub fn gpuav_enabled(setting: Option<&str>) -> (r: bool)
    ensures
        r == match setting {
            Some(v) => match bool_setting(v@) {
                Some(b) => b,
                None => false,
            },
            None => false,
        },
{
    match setting {
        Some(v) => match parse_bool_setting(v) {
            Some(b) => b,
            None => false,
        },
        None => false,
    }
}

} // verus!
