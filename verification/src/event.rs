//! The mode stack.
use vstd::prelude::*;

use crate::strings::{comma_list, comma_separated, strings_view};

verus! {

/// Set the current mode stack from a comma-separated string: the trimmed,
/// non-empty segments, in order.
pub fn set_mode(mode_stack: &mut Vec<String>, mode: &str)
    ensures
        strings_view(final(mode_stack)@) == comma_list(mode@),
{
    *mode_stack = comma_separated(mode);
}

} // verus!
