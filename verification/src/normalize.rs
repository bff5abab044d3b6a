use vstd::prelude::*;
use crate::version::{Version, VersionV, parse_of, wf_version, lemma_parse_of};
use crate::order::version_eq;
use crate::module::versions_view;
use crate::engine::{contains_version, distinct_versions};
use crate::shard::strings_view;

verus! {

// ---------------------------------------------------------------------------
// Turning raw upstream version strings into the module's version set:
// malformed entries are dropped one by one, and duplicates under version
// equality are dropped keeping the first occurrence, so that the result is
// the set of valid parses.
// ---------------------------------------------------------------------------

pub open spec fn has_at(s: Seq<char>) -> bool {
    exists|k: int| 0 <= k < s.len() && s[k] == '@'
}

/// The strings a registry's version list contributes: all of them, or only
/// those following the `name@version` convention.
pub open spec fn version_sources(ss: Seq<Seq<char>>, require_at: bool) -> Seq<Seq<char>>
    decreases ss.len(),
{
    if ss.len() == 0 {
        Seq::empty()
    } else {
        version_sources(ss.drop_last(), require_at) + if !require_at || has_at(ss.last()) {
            seq![ss.last()]
        } else {
            Seq::empty()
        }
    }
}

/// The versions of the strings that parse, in order.
pub open spec fn valid_versions(ss: Seq<Seq<char>>) -> Seq<VersionV>
    decreases ss.len(),
{
    if ss.len() == 0 {
        Seq::empty()
    } else {
        valid_versions(ss.drop_last()) + match parse_of(ss.last()) {
            Some(v) => seq![v],
            None => Seq::empty(),
        }
    }
}

/// First-occurrence deduplication under version equality.
pub open spec fn dedup_versions(vs: Seq<VersionV>) -> Seq<VersionV>
    decreases vs.len(),
{
    if vs.len() == 0 {
        Seq::empty()
    } else {
        let d = dedup_versions(vs.drop_last());
        d + if contains_version(d, vs.last()) {
            Seq::empty()
        } else {
            seq![vs.last()]
        }
    }
}

/// The version set a raw version-string list denotes.
pub open spec fn version_set_of(ss: Seq<Seq<char>>, require_at: bool) -> Seq<VersionV> {
    dedup_versions(valid_versions(version_sources(ss, require_at)))
}

/// Whether any version in `vs` equals `v`.
pub fn contains_version_exec(vs: &Vec<Version>, v: &Version) -> (r: bool)
    ensures
        r == contains_version(versions_view(vs@), v@),
{
    let ghost vv = versions_view(vs@);
    let n: usize = vs.len();
    let mut i: usize = 0;
    while i < n
        invariant
            n == vs@.len(),
            vv == versions_view(vs@),
            i <= n,
            forall|k: int| 0 <= k < i ==> !crate::order::version_eq_spec(#[trigger] vv[k], v@),
        decreases n - i,
    {
        proof {
            assert(vv[i as int] == vs@[i as int]@);
        }
        if version_eq(&vs[i], v) {
            return true;
        }
        i = i + 1;
    }
    false
}

/// Whether the string holds an `@`.
fn has_at_exec(s: &str) -> (r: bool)
    ensures
        r == has_at(s@),
{
    let n: usize = s.unicode_len();
    let mut i: usize = 0;
    while i < n
        invariant
            n == s@.len(),
            i <= n,
            forall|k: int| 0 <= k < i ==> s@[k] != '@',
        decreases n - i,
    {
        if s.get_char(i) == '@' {
            return true;
        }
        i = i + 1;
    }
    false
}

/// Parses a registry's version strings into the module's version set:
/// drops strings that do not parse (and, when `require_at` is set, strings
/// without an `@`), and keeps the first of any versions equal to each other.
pub fn parse_version_strings(ss: &Vec<String>, require_at: bool) -> (r: Vec<Version>)
    ensures
        versions_view(r@) == version_set_of(strings_view(ss@), require_at),
        distinct_versions(versions_view(r@)),
        forall|i: int|
            0 <= i < r@.len() ==> wf_version(#[trigger] versions_view(r@)[i]),
{
    let n: usize = ss.len();
    let mut r: Vec<Version> = Vec::new();
    let mut i: usize = 0;
    proof {
        assert(strings_view(ss@).subrange(0, 0) =~= Seq::<Seq<char>>::empty());
        assert(versions_view(r@) =~= version_set_of(strings_view(ss@).subrange(0, 0), require_at));
    }
    while i < n
        invariant
            n == ss@.len(),
            i <= n,
            versions_view(r@) == version_set_of(
                strings_view(ss@).subrange(0, i as int),
                require_at,
            ),
            distinct_versions(versions_view(r@)),
            forall|k: int|
                0 <= k < r@.len() ==> wf_version(#[trigger] versions_view(r@)[k]),
        decreases n - i,
    {
        let ghost whole = strings_view(ss@);
        let ghost pre = whole.subrange(0, i as int);
        let ghost cur = whole.subrange(0, i + 1);
        proof {
            assert(cur.drop_last() =~= pre);
            assert(cur.last() == whole[i as int]);
            assert(whole[i as int] == ss@[i as int]@);
        }
        let take: bool = if require_at {
            has_at_exec(ss[i].as_str())
        } else {
            true
        };
        let ghost old_r = r@;
        if take {
            proof {
                assert(version_sources(cur, require_at) =~= version_sources(pre, require_at)
                    + seq![whole[i as int]]);
                assert(version_sources(cur, require_at).drop_last() =~= version_sources(
                    pre,
                    require_at,
                ));
                assert(version_sources(cur, require_at).last() == whole[i as int]);
            }
            let res: Result<Version, crate::version::SemVerError> = Version::parse(
                ss[i].as_str(),
            );
            proof {
                lemma_parse_of(ss@[i as int]@, res);
            }
            match res {
                Ok(v) => {
                    proof {
                        assert(valid_versions(version_sources(cur, require_at)) =~= valid_versions(
                            version_sources(pre, require_at),
                        ).push(v@));
                        assert(valid_versions(version_sources(cur, require_at)).drop_last()
                            =~= valid_versions(version_sources(pre, require_at)));
                    }
                    if contains_version_exec(&r, &v) {
                        proof {
                            assert(version_set_of(cur, require_at) =~= version_set_of(
                                pre,
                                require_at,
                            ));
                        }
                    } else {
                        r.push(v);
                        proof {
                            assert(versions_view(r@) =~= versions_view(old_r).push(v@));
                            assert(version_set_of(cur, require_at) =~= version_set_of(
                                pre,
                                require_at,
                            ).push(v@));
                            assert(versions_view(r@) =~= version_set_of(cur, require_at));
                        }
                    }
                },
                Err(_) => {
                    proof {
                        assert(valid_versions(version_sources(cur, require_at)) =~= valid_versions(
                            version_sources(pre, require_at),
                        ));
                        assert(version_set_of(cur, require_at) == version_set_of(
                            pre,
                            require_at,
                        ));
                    }
                },
            }
        } else {
            proof {
                assert(version_sources(cur, require_at) =~= version_sources(pre, require_at));
            }
        }
        i = i + 1;
    }
    proof {
        assert(strings_view(ss@).subrange(0, n as int) =~= strings_view(ss@));
    }
    r
}

} // verus!
