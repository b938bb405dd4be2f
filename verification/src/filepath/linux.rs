//! Path conventions of Linux: identical to the generic Unix rules.

use vstd::prelude::*;

verus! {

pub const PATH_SEPARATOR: char = '/';

/// Whether `c` separates path elements on Linux.
pub fn is_path_separator(c: char) -> (r: bool)
    ensures
        r == (c == '/'),
{
    c == PATH_SEPARATOR
}

/// Linux paths never carry a volume name.
pub fn volume_name_len(path: &str) -> (n: usize)
    ensures
        n == 0,
{
    let _ = path;
    0
}

} // verus!
