//! Hidden entries: names starting with `.` are skipped in the site and
//! assets folders.

use vstd::prelude::*;

verus! {

/// An entry is hidden when its own name, as listed in its parent folder,
/// starts with `.`. Only the first byte counts, so a name that is not UTF-8
/// is judged the same way.
pub fn is_hidden(name: &[u8]) -> (r: bool)
    ensures
        r == (name@.len() > 0 && name@[0] == 46u8),
{
    name.len() > 0 && name[0] == 46u8
}

} // verus!
