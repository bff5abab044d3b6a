use vstd::prelude::*;
use crate::text::{string_to_chars, chars_substring};

verus! {

// ---------------------------------------------------------------------------
// Shard path resolution: a deterministic, case-preserving mapping from a
// module name to the directory path holding its snapshot file.  Short names
// go under a bucket named for their length; longer names under two-character
// prefixes, bounding the fan-out of any one directory.  The full name is
// always the last segment, so distinct names never share a path.
// ---------------------------------------------------------------------------

/// The path segments for a module name.
pub open spec fn shard_segments(name: Seq<char>) -> Seq<Seq<char>> {
    if name.len() == 1 {
        seq![seq!['1'], name]
    } else if name.len() == 2 {
        seq![seq!['2'], name]
    } else if name.len() == 3 {
        seq![seq!['3'], name.subrange(0, 1), name]
    } else {
        seq![name.subrange(0, 2), name.subrange(2, 4), name]
    }
}

pub open spec fn strings_view(v: Seq<String>) -> Seq<Seq<char>> {
    v.map_values(|s: String| s@)
}

/// Resolves a module name to its shard path segments.
pub fn resolve(name: &str) -> (r: Vec<String>)
    requires
        name@.len() >= 1,
    ensures
        strings_view(r@) == shard_segments(name@),
{
    let cs: Vec<char> = string_to_chars(name);
    let n: usize = cs.len();
    let mut r: Vec<String> = Vec::new();
    if n == 1 {
        r.push(one_char_string('1'));
        r.push(chars_substring(&cs, 0, n));
    } else if n == 2 {
        r.push(one_char_string('2'));
        r.push(chars_substring(&cs, 0, n));
    } else if n == 3 {
        r.push(one_char_string('3'));
        r.push(chars_substring(&cs, 0, 1));
        r.push(chars_substring(&cs, 0, n));
    } else {
        r.push(chars_substring(&cs, 0, 2));
        r.push(chars_substring(&cs, 2, 4));
        r.push(chars_substring(&cs, 0, n));
    }
    proof {
        assert(cs@.subrange(0, n as int) =~= name@);
        assert(strings_view(r@) =~= shard_segments(name@));
    }
    r
}

/// A string of one character.
fn one_char_string(c: char) -> (r: String)
    ensures
        r@ == seq![c],
{
    let mut v: Vec<char> = Vec::new();
    v.push(c);
    proof {
        assert(v@ =~= seq![c]);
    }
    crate::text::chars_to_string(&v)
}

/// Distinct names resolve to distinct paths: the name is the last segment.
pub proof fn lemma_shard_no_collision(a: Seq<char>, b: Seq<char>)
    requires
        a.len() >= 1,
        b.len() >= 1,
        a != b,
    ensures
        shard_segments(a) != shard_segments(b),
{
    assert(shard_segments(a).last() == a);
    assert(shard_segments(b).last() == b);
}

} // verus!
