use vstd::prelude::*;
use vstd::multiset::Multiset;
use crate::registries::RegistryId;
use crate::version::{Version, VersionV};
use crate::order::{version_le_spec, version_eq_spec, version_le, version_eq,
    lemma_version_le_total, lemma_version_le_trans};
use crate::shard::{shard_segments, strings_view, resolve};

verus! {

broadcast use vstd::seq_lib::group_to_multiset_ensures;

// ---------------------------------------------------------------------------
// The canonical, registry-agnostic record of a module, and the snapshot —
// one module at one version — that the store persists line by line.
// ---------------------------------------------------------------------------

/// A module as fetched and normalized from one registry.
#[derive(Debug)]
pub struct Module {
    pub name: String,
    pub desc: Option<String>,
    pub repo: Option<String>,
    pub reg: RegistryId,
    pub vers: Vec<Version>,
}

/// One module at one version: the unit of persistence.
#[derive(Debug)]
pub struct Snapshot {
    pub name: String,
    pub desc: Option<String>,
    pub repo: Option<String>,
    pub reg: RegistryId,
    pub vers: Version,
}

/// View of a module.
pub struct ModuleV {
    pub name: Seq<char>,
    pub desc: Option<Seq<char>>,
    pub repo: Option<Seq<char>>,
    pub reg: RegistryId,
    pub vers: Seq<VersionV>,
}

/// View of a snapshot.
pub struct SnapV {
    pub name: Seq<char>,
    pub desc: Option<Seq<char>>,
    pub repo: Option<Seq<char>>,
    pub reg: RegistryId,
    pub vers: VersionV,
}

pub open spec fn opt_view(o: Option<String>) -> Option<Seq<char>> {
    match o {
        Some(s) => Some(s@),
        None => None,
    }
}

pub open spec fn versions_view(v: Seq<Version>) -> Seq<VersionV> {
    v.map_values(|x: Version| x@)
}

pub open spec fn snaps_view(v: Seq<Snapshot>) -> Seq<SnapV> {
    v.map_values(|x: Snapshot| x@)
}

pub open spec fn modules_view(ms: Seq<Module>) -> Seq<ModuleV> {
    ms.map_values(|m: Module| m@)
}

impl View for Module {
    type V = ModuleV;

    open spec fn view(&self) -> ModuleV {
        ModuleV {
            name: self.name@,
            desc: opt_view(self.desc),
            repo: opt_view(self.repo),
            reg: self.reg,
            vers: versions_view(self.vers@),
        }
    }
}

impl View for Snapshot {
    type V = SnapV;

    open spec fn view(&self) -> SnapV {
        SnapV {
            name: self.name@,
            desc: opt_view(self.desc),
            repo: opt_view(self.repo),
            reg: self.reg,
            vers: self.vers@,
        }
    }
}

/// The snapshot of a module at one version.
pub open spec fn snap_of(m: ModuleV, vv: VersionV) -> SnapV {
    SnapV { name: m.name, desc: m.desc, repo: m.repo, reg: m.reg, vers: vv }
}

impl PartialEq for Snapshot {
    /// Two snapshots are the same record exactly when their versions are
    /// equal; the other fields do not take part.
    fn eq(&self, other: &Snapshot) -> (r: bool) {
        version_eq(&self.vers, &other.vers)
    }
}

impl vstd::std_specs::cmp::PartialEqSpecImpl for Snapshot {
    open spec fn obeys_eq_spec() -> bool {
        true
    }

    open spec fn eq_spec(&self, other: &Snapshot) -> bool {
        version_eq_spec(self@.vers, other@.vers)
    }
}

// ---------------------------------------------------------------------------
// Sorting by version precedence.
// ---------------------------------------------------------------------------

pub open spec fn sorted_versions(s: Seq<VersionV>) -> bool {
    forall|i: int, j: int| 0 <= i < j < s.len() ==> version_le_spec(#[trigger] s[i], #[trigger] s[j])
}

/// Sorts versions ascending by precedence; the result is a permutation.
pub fn sort_versions(v: Vec<Version>) -> (r: Vec<Version>)
    ensures
        sorted_versions(versions_view(r@)),
        versions_view(r@).to_multiset() == versions_view(v@).to_multiset(),
{
    let ghost whole = versions_view(v@);
    let mut src: Vec<Version> = v;
    let mut out: Vec<Version> = Vec::new();
    proof {
        assert(versions_view(out@) =~= Seq::<VersionV>::empty());
        assert(versions_view(out@).to_multiset().add(
            versions_view(src@).to_multiset(),
        ) =~= whole.to_multiset());
    }
    while src.len() > 0
        invariant
            versions_view(out@).to_multiset().add(versions_view(src@).to_multiset())
                == whole.to_multiset(),
            sorted_versions(versions_view(out@)),
            forall|i: int, j: int|
                0 <= i < out@.len() && 0 <= j < src@.len() ==> version_le_spec(
                    #[trigger] out@[i]@,
                    #[trigger] src@[j]@,
                ),
        decreases src.len(),
    {
        // Find the least remaining version.
        let mut m: usize = 0;
        let mut k: usize = 1;
        while k < src.len()
            invariant
                src@.len() > 0,
                m < k <= src@.len() || (k <= src@.len() && m == 0),
                m < src@.len(),
                forall|t: int| 0 <= t < k ==> version_le_spec(src@[m as int]@, #[trigger] src@[t]@),
            decreases src.len() - k,
        {
            if version_le(&src[m], &src[k]) {
            } else {
                proof {
                    lemma_version_le_total(src@[m as int]@, src@[k as int]@);
                    assert forall|t: int| 0 <= t < k + 1 implies version_le_spec(
                        src@[k as int]@,
                        #[trigger] src@[t]@,
                    ) by {
                        if t < k {
                            lemma_version_le_trans(src@[k as int]@, src@[m as int]@, src@[t]@);
                        }
                    }
                }
                m = k;
            }
            k = k + 1;
        }
        let ghost old_src = src@;
        let ghost old_out = out@;
        let x: Version = src.remove(m);
        proof {
            assert(versions_view(old_src)[m as int] == x@);
            assert(versions_view(src@) =~= versions_view(old_src).remove(m as int));
            assert(versions_view(src@).to_multiset() =~= versions_view(
                old_src,
            ).to_multiset().remove(x@));
        }
        out.push(x);
        proof {
            assert(versions_view(out@) =~= versions_view(old_out).push(x@));
            assert(versions_view(out@).to_multiset() =~= versions_view(
                old_out,
            ).to_multiset().insert(x@));
            assert(versions_view(out@).to_multiset().add(
                versions_view(src@).to_multiset(),
            ) =~= whole.to_multiset());
            // The new element follows everything already placed and precedes
            // everything still unplaced.
            assert forall|i: int, j: int|
                0 <= i < out@.len() && 0 <= j < src@.len() implies version_le_spec(
                #[trigger] out@[i]@,
                #[trigger] src@[j]@,
            ) by {
                if i < out@.len() - 1 {
                    assert(out@[i]@ == old_out[i]@);
                }
                if j < m as int {
                    assert(src@[j]@ == old_src[j]@);
                } else {
                    assert(src@[j]@ == old_src[j + 1]@);
                }
            }
            assert(sorted_versions(versions_view(out@))) by {
                assert(forall|i: int, j: int|
                    0 <= i < j < out@.len() ==> version_le_spec(
                        #[trigger] versions_view(out@)[i],
                        #[trigger] versions_view(out@)[j],
                    )) by {
                    assert(forall|i: int|
                        0 <= i < out@.len() ==> #[trigger] versions_view(out@)[i] == out@[i]@);
                    assert(forall|i: int|
                        0 <= i < out@.len() - 1 ==> out@[i]@ == old_out[i]@);
                }
            }
        }
    }
    proof {
        assert(versions_view(src@).to_multiset() =~= Multiset::<VersionV>::empty());
        assert(versions_view(out@).to_multiset() =~= whole.to_multiset());
    }
    out
}

// ---------------------------------------------------------------------------
// Module methods.
// ---------------------------------------------------------------------------

/// Copies an optional string, preserving its view.
pub fn copy_opt_string(o: &Option<String>) -> (r: Option<String>)
    ensures
        opt_view(r) == opt_view(*o),
{
    match o {
        Some(s) => Some(s.clone()),
        None => None,
    }
}

/// Copies a module record, preserving its view.
pub fn copy_module(m: &Module) -> (r: Module)
    ensures
        r@ == m@,
{
    let n: usize = m.vers.len();
    let mut vers: Vec<Version> = Vec::new();
    let mut i: usize = 0;
    while i < n
        invariant
            n == m.vers@.len(),
            i <= n,
            vers@.len() == i as int,
            forall|k: int| 0 <= k < i ==> #[trigger] vers@[k]@ == m.vers@[k]@,
        decreases n - i,
    {
        vers.push(crate::version::copy_version(&m.vers[i]));
        i = i + 1;
    }
    proof {
        assert(versions_view(vers@) =~= versions_view(m.vers@));
    }
    Module {
        name: m.name.clone(),
        desc: copy_opt_string(&m.desc),
        repo: copy_opt_string(&m.repo),
        reg: m.reg,
        vers,
    }
}

impl Module {
    /// The shard path of this module inside its registry's index tree.
    pub fn index_path(&self) -> (r: Vec<String>)
        requires
            self.name@.len() >= 1,
        ensures
            strings_view(r@) == shard_segments(self@.name),
    {
        resolve(self.name.as_str())
    }

    /// One snapshot per version, ascending by version precedence; every
    /// snapshot carries this module's name, description, repository and
    /// registry.
    pub fn get_snapshots(&self) -> (r: Vec<Snapshot>)
        ensures
            snaps_view(r@).len() == self@.vers.len(),
            forall|i: int|
                0 <= i < r@.len() ==> #[trigger] snaps_view(r@)[i] == snap_of(
                    self@,
                    snaps_view(r@)[i].vers,
                ),
            sorted_versions(snaps_view(r@).map_values(|s: SnapV| s.vers)),
            snaps_view(r@).map_values(|s: SnapV| s.vers).to_multiset()
                == self@.vers.to_multiset(),
    {
        let n: usize = self.vers.len();
        let mut copies: Vec<Version> = Vec::new();
        let mut i: usize = 0;
        while i < n
            invariant
                n == self.vers@.len(),
                i <= n,
                copies@.len() == i as int,
                forall|k: int| 0 <= k < i ==> #[trigger] copies@[k]@ == self.vers@[k]@,
            decreases n - i,
        {
            copies.push(crate::version::copy_version(&self.vers[i]));
            i = i + 1;
        }
        proof {
            assert(versions_view(copies@) =~= versions_view(self.vers@));
        }
        let sorted: Vec<Version> = sort_versions(copies);
        let mut r: Vec<Snapshot> = Vec::new();
        let mut j: usize = 0;
        let sn: usize = sorted.len();
        while j < sn
            invariant
                sn == sorted@.len(),
                j <= sn,
                r@.len() == j as int,
                forall|k: int|
                    0 <= k < j ==> #[trigger] r@[k]@ == snap_of(self@, sorted@[k]@),
            decreases sn - j,
        {
            let s = Snapshot {
                name: self.name.clone(),
                desc: copy_opt_string(&self.desc),
                repo: copy_opt_string(&self.repo),
                reg: self.reg,
                vers: crate::version::copy_version(&sorted[j]),
            };
            r.push(s);
            j = j + 1;
        }
        proof {
            assert(snaps_view(r@).map_values(|s: SnapV| s.vers) =~= versions_view(sorted@));
            assert(forall|i: int|
                0 <= i < r@.len() ==> #[trigger] snaps_view(r@)[i] == r@[i]@);
            // Permutations have equal lengths.
            assert(versions_view(sorted@).to_multiset().len() == versions_view(sorted@).len());
            assert(versions_view(copies@).to_multiset().len() == versions_view(copies@).len());
            assert(r@.len() == self.vers@.len());
        }
        r
    }
}

} // verus!
