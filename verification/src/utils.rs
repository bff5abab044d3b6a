use vstd::prelude::*;

verus! {

// ---------------------------------------------------------------------------
// Helpers for the `name@version` upload-name convention: the piece between
// the first `@` and the next one (or the end), and stripping a leading `v`.
// ---------------------------------------------------------------------------

/// The first position at or after `from` holding `@`, or the length.
pub open spec fn find_at(s: Seq<char>, from: int) -> int
    decreases s.len() - from,
{
    if from < 0 || from >= s.len() {
        s.len() as int
    } else if s[from] == '@' {
        from
    } else {
        find_at(s, from + 1)
    }
}

/// The piece of `s` between its first `@` and the following `@` or end;
/// `None` when `s` has no `@`.
pub open spec fn at_version_spec(s: Seq<char>) -> Option<Seq<char>> {
    let i = find_at(s, 0);
    if i == s.len() {
        None
    } else {
        Some(s.subrange(i + 1, find_at(s, i + 1)))
    }
}

/// `s` with a single leading `v` removed.
pub open spec fn clean_version_spec(s: Seq<char>) -> Seq<char> {
    if s.len() > 0 && s[0] == 'v' {
        s.subrange(1, s.len() as int)
    } else {
        s
    }
}

/// Strips a single leading `v` from a version string.
pub fn clean_version(value: &str) -> (r: &str)
    ensures
        r@ == clean_version_spec(value@),
{
    let n: usize = value.unicode_len();
    if n > 0 && value.get_char(0) == 'v' {
        value.substring_char(1, n)
    } else {
        value
    }
}

/// Finds the first `@` at or after `from`; returns the length when none.
pub(crate) fn scan_at(value: &str, from: usize) -> (r: usize)
    requires
        from <= value@.len(),
    ensures
        r == find_at(value@, from as int),
        from <= r <= value@.len(),
        r < value@.len() ==> value@[r as int] == '@',
{
    let n: usize = value.unicode_len();
    let mut k: usize = from;
    while k < n && value.get_char(k) != '@'
        invariant
            from <= k <= n,
            n == value@.len(),
            find_at(value@, from as int) == find_at(value@, k as int),
        decreases n - k,
    {
        k = k + 1;
    }
    proof {
        if k < n {
            assert(find_at(value@, k as int) == k);
        } else {
            assert(find_at(value@, k as int) == n);
        }
    }
    k
}

/// The version piece of a `name@version` string, with a leading `v`
/// stripped; `None` when the string has no `@`.
pub fn at_version(value: &str) -> (r: Option<&str>)
    ensures
        (match at_version_spec(value@) {
            None => r is None,
            Some(piece) => r is Some && (r->0)@ == clean_version_spec(piece),
        }),
{
    let n: usize = value.unicode_len();
    let i: usize = scan_at(value, 0);
    if i == n {
        return None;
    }
    let j: usize = scan_at(value, i + 1);
    let piece: &str = value.substring_char(i + 1, j);
    Some(clean_version(piece))
}

} // verus!
