//! Path conventions of the volume-aware platform: a backslash separator
//! and leading volume names (drive letters and UNC shares) that stand
//! outside element-wise cleaning.

use vstd::prelude::*;

verus! {

pub const PATH_SEPARATOR: char = '\\';

/// Whether `c` is the backslash separator. Forward slashes serve other
/// purposes on this platform and do not separate path elements here.
fn is_slash(c: char) -> (r: bool)
    ensures
        r == (c == '\\'),
{
    c == '\\'
}

/// Whether `c` separates path elements on the volume-aware platform.
pub fn is_path_separator(c: char) -> (r: bool)
    ensures
        r == (c == '\\'),
{
    is_slash(c)
}

/// Whether `c` is an ASCII letter, eligible as a drive name.
pub open spec fn is_ascii_letter(c: char) -> bool {
    (97 <= c as u32 && c as u32 <= 122) || (65 <= c as u32 && c as u32 <= 90)
}

/// The first position at or after `i` holding a separator, or the end of
/// the string.
pub open spec fn run_end(s: Seq<char>, i: int) -> int
    decreases s.len() - i,
{
    if i < 0 || i >= s.len() {
        s.len() as int
    } else if s[i] == '\\' {
        i
    } else {
        run_end(s, i + 1)
    }
}

/// Length in characters of the leading volume name of `s`.
///
/// A single ASCII letter followed by `:` is a two-character drive prefix.
/// A UNC prefix is two separators, a server-name segment whose first
/// character is neither a separator nor `.`, a separator, and a share-name
/// segment of at least two characters whose first character is neither a
/// separator nor `.`; the prefix ends just before the next separator or
/// at the end of the string. Anything else has no volume name.
pub open spec fn windows_volume_len(s: Seq<char>) -> int {
    if s.len() < 2 {
        0
    } else if is_ascii_letter(s[0]) && s[1] == ':' {
        2
    } else if s[0] == '\\' && s[1] == '\\' && s.len() > 2 && s[2] != '\\' && s[2] != '.' {
        let p = run_end(s, 2);
        if p + 2 < s.len() && s[p + 1] != '\\' && s[p + 1] != '.' && s[p + 2] != '\\' {
            run_end(s, p + 1)
        } else {
            0
        }
    } else {
        0
    }
}

/// Scans forward from `i` to the next separator or the end.
fn scan_run(path: &str, i: usize) -> (j: usize)
    requires
        i <= path@.len(),
    ensures
        j == run_end(path@, i as int),
        i <= j <= path@.len(),
        j < path@.len() ==> path@[j as int] == '\\',
{
    let n = path.unicode_len();
    let mut j: usize = i;
    while j < n && path.get_char(j) != '\\'
        invariant
            path@.len() == n,
            i <= j <= n,
            run_end(path@, i as int) == run_end(path@, j as int),
        decreases n - j,
    {
        j += 1;
    }
    j
}

/// Length in characters of the leading volume name of `path` on the
/// volume-aware platform: a drive prefix such as a letter and `:`, or a
/// UNC server-and-share prefix.
pub fn volume_name_len(path: &str) -> (n: usize)
    ensures
        n as int == windows_volume_len(path@),
        n <= path@.len(),
{
    let len = path.unicode_len();
    if len < 2 {
        return 0;
    }
    let c0 = path.get_char(0);
    let c1 = path.get_char(1);
    let v0 = c0 as u32;
    if ((97 <= v0 && v0 <= 122) || (65 <= v0 && v0 <= 90)) && c1 == ':' {
        return 2;
    }
    if !(c0 == '\\' && c1 == '\\') {
        return 0;
    }
    if len <= 2 {
        return 0;
    }
    let c2 = path.get_char(2);
    if c2 == '\\' || c2 == '.' {
        return 0;
    }
    let p = scan_run(path, 2);
    if len - p <= 2 {
        return 0;
    }
    let cp1 = path.get_char(p + 1);
    if cp1 == '\\' || cp1 == '.' {
        return 0;
    }
    if path.get_char(p + 2) == '\\' {
        return 0;
    }
    scan_run(path, p + 1)
}

} // verus!
