//! Rendering of displayable values as owned text.

use vstd::prelude::*;
use vstd::string::to_string_from_display_ensures;

verus! {

/// Renders a displayable value as an owned string: the text is what the
/// value's `Display` implementation writes.
pub fn stringify<T: std::fmt::Display>(e: T) -> (text: String)
    ensures
        to_string_from_display_ensures::<T>(&e, text),
{
    e.to_string()
}

} // verus!
