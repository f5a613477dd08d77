//! Whether rendered output may carry ANSI colours.
use vstd::prelude::*;

verus! {

/// Colours are used unless the user turned them off, by flag or by the
/// `NO_COLOR` environment variable (`no_color_env`: whether it is set).
pub fn should_use_colors(no_color_flag: bool, no_color_env: bool) -> (r: bool)
    ensures
        r == (!no_color_flag && !no_color_env),
{
    if no_color_flag || no_color_env {
        return false;
    }
    true
}

} // verus!
