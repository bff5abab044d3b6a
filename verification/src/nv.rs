use vstd::prelude::*;
use crate::utils::{at_version_spec, scan_at};

verus! {

/// The version piece of a `name@version` string, kept as written; `None`
/// when the string has no `@`.
pub fn version(value: &str) -> (r: Option<&str>)
    ensures
        (match at_version_spec(value@) {
            None => r is None,
            Some(piece) => r is Some && (r->0)@ == piece,
        }),
{
    let n: usize = value.unicode_len();
    let i: usize = scan_at(value, 0);
    if i == n {
        return None;
    }
    let j: usize = scan_at(value, i + 1);
    Some(value.substring_char(i + 1, j))
}

} // verus!
