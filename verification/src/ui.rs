//! What the menu helper decides.
use vstd::prelude::*;

verus! {

/// The entry a menu starts on: the requested one, or the last entry when the request is
/// past the end; `None` when the menu has no entries.
pub fn menu_default(items: usize, default: usize) -> (res: Option<usize>)
    ensures
        items == 0 ==> res.is_none(),
        items > 0 ==> res == Some(if default < items { default } else { (items - 1) as usize }),
{
    if items == 0 {
        None
    } else if default < items - 1 {
        Some(default)
    } else {
        Some(items - 1)
    }
}

} // verus!
