//! Path conventions of Unix-like systems: a single `/` separator and no
//! volume prefixes.

use vstd::prelude::*;

verus! {

pub const PATH_SEPARATOR: char = '/';

/// Whether `c` separates path elements on Unix-like systems.
pub fn is_path_separator(c: char) -> (r: bool)
    ensures
        r == (c == '/'),
{
    c == PATH_SEPARATOR
}

/// Unix-like paths never carry a volume name.
pub fn volume_name_len(path: &str) -> (n: usize)
    ensures
        n == 0,
{
    let _ = path;
    0
}

} // verus!
