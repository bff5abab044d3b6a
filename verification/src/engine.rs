use vstd::prelude::*;
use crate::version::{Version, VersionV, wf_version};
use crate::order::{version_eq_spec, version_eq, version_le_spec, lemma_version_eq_symm};
use crate::module::{Module, Snapshot, ModuleV, SnapV, snap_of, snaps_view, sorted_versions,
    copy_opt_string};

verus! {

broadcast use vstd::seq_lib::group_to_multiset_ensures;

// ---------------------------------------------------------------------------
// The diff-and-classify step: given a module's current snapshots and what a
// shard file already holds, decide whether the module is new, updated or
// unchanged, and which snapshots to append.
// ---------------------------------------------------------------------------

/// How one module relates to the persisted state.
#[derive(Debug, Clone, Copy, PartialEq, Eq, Structural)]
pub enum ModuleClass {
    New,
    Updated,
    Unchanged,
}

/// The engine's decision for one module.
#[derive(Debug)]
pub struct ModuleOutcome {
    pub class: ModuleClass,
    pub to_append: Vec<Snapshot>,
}

/// Whether some version in `ev` equals `v` (under version equality, which
/// ignores the `v` prefix and build metadata).
pub open spec fn contains_version(ev: Seq<VersionV>, v: VersionV) -> bool {
    exists|i: int| 0 <= i < ev.len() && version_eq_spec(ev[i], v)
}

/// The versions of a snapshot sequence.
pub open spec fn snap_versions(s: Seq<SnapV>) -> Seq<VersionV> {
    s.map_values(|x: SnapV| x.vers)
}

/// The versions of `vs` that no version in `ev` equals, in order.
pub open spec fn missing_versions(vs: Seq<VersionV>, ev: Seq<VersionV>) -> Seq<VersionV>
    decreases vs.len(),
{
    if vs.len() == 0 {
        Seq::empty()
    } else {
        missing_versions(vs.drop_last(), ev) + if !contains_version(ev, vs.last()) {
            seq![vs.last()]
        } else {
            Seq::empty()
        }
    }
}

/// A version list without duplicates under version equality.
pub open spec fn distinct_versions(vs: Seq<VersionV>) -> bool {
    forall|i: int, j: int|
        0 <= i < j < vs.len() ==> !version_eq_spec(#[trigger] vs[i], #[trigger] vs[j])
}

/// A well-formed module record: a non-empty name and a duplicate-free list
/// of well-formed versions.
pub open spec fn wf_module(m: ModuleV) -> bool {
    &&& m.name.len() >= 1
    &&& distinct_versions(m.vers)
    &&& forall|i: int| 0 <= i < m.vers.len() ==> wf_version(#[trigger] m.vers[i])
}

/// What `sync_module` promises: the appended snapshots all belong to the
/// module, are ascending, and their versions are exactly the module's
/// versions that the shard did not hold; the class records whether the shard
/// was absent, gained versions, or already held everything.
pub open spec fn outcome_ok(
    m: ModuleV,
    ex: Option<Seq<SnapV>>,
    class: ModuleClass,
    app: Seq<SnapV>,
) -> bool {
    let ev = match ex {
        Some(e) => snap_versions(e),
        None => Seq::empty(),
    };
    &&& forall|i: int| 0 <= i < app.len() ==> #[trigger] app[i] == snap_of(m, app[i].vers)
    &&& sorted_versions(snap_versions(app))
    &&& snap_versions(app).to_multiset() == missing_versions(m.vers, ev).to_multiset()
    &&& class == (match ex {
        None => ModuleClass::New,
        Some(_) => if missing_versions(m.vers, ev).len() == 0 {
            ModuleClass::Unchanged
        } else {
            ModuleClass::Updated
        },
    })
}

// ---------------------------------------------------------------------------
// Executable engine step.
// ---------------------------------------------------------------------------

/// Copies a snapshot, preserving its view.
pub fn copy_snapshot(s: &Snapshot) -> (r: Snapshot)
    ensures
        r@ == s@,
{
    Snapshot {
        name: s.name.clone(),
        desc: copy_opt_string(&s.desc),
        repo: copy_opt_string(&s.repo),
        reg: s.reg,
        vers: crate::version::copy_version(&s.vers),
    }
}

/// Whether the shard already holds this version.
fn holds_version(existing: &Vec<Snapshot>, v: &Version) -> (r: bool)
    ensures
        r == contains_version(snap_versions(snaps_view(existing@)), v@),
{
    let ghost ev = snap_versions(snaps_view(existing@));
    let n: usize = existing.len();
    let mut i: usize = 0;
    while i < n
        invariant
            n == existing@.len(),
            ev == snap_versions(snaps_view(existing@)),
            i <= n,
            forall|k: int| 0 <= k < i ==> !version_eq_spec(#[trigger] ev[k], v@),
        decreases n - i,
    {
        proof {
            assert(ev[i as int] == existing@[i as int]@.vers);
        }
        if version_eq(&existing[i].vers, v) {
            return true;
        }
        i = i + 1;
    }
    false
}

/// Keeps the snapshots whose versions the shard does not hold, in order.
fn novel_snapshots(snaps: &Vec<Snapshot>, existing: &Vec<Snapshot>) -> (r: Vec<Snapshot>)
    ensures
        snaps_view(r@) == novel_of(snaps_view(snaps@), snap_versions(snaps_view(existing@))),
{
    let ghost ev = snap_versions(snaps_view(existing@));
    let n: usize = snaps.len();
    let mut r: Vec<Snapshot> = Vec::new();
    let mut i: usize = 0;
    proof {
        assert(snaps_view(snaps@).subrange(0, 0) =~= Seq::<SnapV>::empty());
        assert(snaps_view(r@) =~= novel_of(snaps_view(snaps@).subrange(0, 0), ev));
    }
    while i < n
        invariant
            n == snaps@.len(),
            ev == snap_versions(snaps_view(existing@)),
            i <= n,
            snaps_view(r@) == novel_of(snaps_view(snaps@).subrange(0, i as int), ev),
        decreases n - i,
    {
        let ghost pre = snaps_view(snaps@).subrange(0, i as int);
        let ghost cur = snaps_view(snaps@).subrange(0, i + 1);
        proof {
            assert(cur.drop_last() =~= pre);
            assert(cur.last() == snaps_view(snaps@)[i as int]);
            assert(snaps_view(snaps@)[i as int] == snaps@[i as int]@);
        }
        if !holds_version(existing, &snaps[i].vers) {
            r.push(copy_snapshot(&snaps[i]));
            proof {
                assert(snaps_view(r@) =~= novel_of(pre, ev) + seq![snaps@[i as int]@]);
                assert(snaps_view(r@) =~= novel_of(cur, ev));
            }
        } else {
            proof {
                assert(novel_of(cur, ev) =~= novel_of(pre, ev));
            }
        }
        i = i + 1;
    }
    proof {
        assert(snaps_view(snaps@).subrange(0, n as int) =~= snaps_view(snaps@));
    }
    r
}

/// The snapshots whose versions `ev` does not hold, in order.
pub open spec fn novel_of(snaps: Seq<SnapV>, ev: Seq<VersionV>) -> Seq<SnapV>
    decreases snaps.len(),
{
    if snaps.len() == 0 {
        Seq::empty()
    } else {
        novel_of(snaps.drop_last(), ev) + if !contains_version(ev, snaps.last().vers) {
            seq![snaps.last()]
        } else {
            Seq::empty()
        }
    }
}


/// Whether a module record is well-formed, exactly as `sync_module`
/// requires: a caller holding records it did not normalize itself can test
/// before calling in.
pub fn check_module(m: &Module) -> (r: bool)
    ensures
        r == wf_module(m@),
{
    let ghost mv = m@;
    if m.name.unicode_len() == 0 {
        return false;
    }
    let n: usize = m.vers.len();
    let mut i: usize = 0;
    while i < n
        invariant
            n == m.vers@.len(),
            mv == m@,
            i <= n,
            forall|k: int| 0 <= k < i ==> wf_version(#[trigger] mv.vers[k]),
            forall|a: int, b: int|
                0 <= a < b < n && a < i ==> !version_eq_spec(
                    #[trigger] mv.vers[a],
                    #[trigger] mv.vers[b],
                ),
        decreases n - i,
    {
        proof {
            assert(mv.vers[i as int] == m.vers@[i as int]@);
        }
        if !crate::version::is_wf_version(&m.vers[i]) {
            return false;
        }
        let mut j: usize = i + 1;
        while j < n
            invariant
                i < n,
                n == m.vers@.len(),
                mv == m@,
                i + 1 <= j <= n,
                forall|t: int|
                    i < t < j ==> !version_eq_spec(
                        #[trigger] mv.vers[i as int],
                        #[trigger] mv.vers[t],
                    ),
            decreases n - j,
        {
            proof {
                assert(mv.vers[i as int] == m.vers@[i as int]@);
                assert(mv.vers[j as int] == m.vers@[j as int]@);
            }
            if version_eq(&m.vers[i], &m.vers[j]) {
                return false;
            }
            j = j + 1;
        }
        i = i + 1;
    }
    true
}

// ---------------------------------------------------------------------------
// Relating the filtered snapshots to the missing versions.
// ---------------------------------------------------------------------------

proof fn lemma_novel_versions(snaps: Seq<SnapV>, ev: Seq<VersionV>)
    ensures
        snap_versions(novel_of(snaps, ev)) == missing_versions(snap_versions(snaps), ev),
        novel_of(snaps, ev).len() <= snaps.len(),
        forall|i: int|
            0 <= i < novel_of(snaps, ev).len() ==> exists|j: int|
                0 <= j < snaps.len() && #[trigger] novel_of(snaps, ev)[i] == snaps[j],
    decreases snaps.len(),
{
    let vs = snap_versions(snaps);
    if snaps.len() == 0 {
        assert(snap_versions(novel_of(snaps, ev)) =~= missing_versions(vs, ev));
    } else {
        lemma_novel_versions(snaps.drop_last(), ev);
        assert(snap_versions(snaps.drop_last()) =~= vs.drop_last());
        assert(vs.last() == snaps.last().vers);
        assert(snap_versions(novel_of(snaps, ev)) =~= missing_versions(vs, ev));
        assert forall|i: int| 0 <= i < novel_of(snaps, ev).len() implies exists|j: int|
            0 <= j < snaps.len() && #[trigger] novel_of(snaps, ev)[i] == snaps[j] by {
            let prev = novel_of(snaps.drop_last(), ev);
            if i < prev.len() {
                let j = choose|j: int|
                    0 <= j < snaps.drop_last().len() && #[trigger] prev[i] == snaps.drop_last()[j];
                assert(snaps.drop_last()[j] == snaps[j]);
                assert(novel_of(snaps, ev)[i] == prev[i]);
                assert(novel_of(snaps, ev)[i] == snaps[j]);
            } else {
                assert(novel_of(snaps, ev)[i] == snaps.last());
                assert(snaps.last() == snaps[snaps.len() - 1]);
            }
        }
    }
}

/// Runs the engine for one module.  `existing` is the parsed content of the
/// module's shard file, or `None` when the file does not exist.
pub fn sync_module(m: &Module, existing: Option<&Vec<Snapshot>>) -> (r: ModuleOutcome)
    requires
        wf_module(m@),
    ensures
        outcome_ok(
            m@,
            match existing {
                Some(e) => Some(snaps_view(e@)),
                None => None,
            },
            r.class,
            snaps_view(r.to_append@),
        ),
{
    let snaps: Vec<Snapshot> = m.get_snapshots();
    proof {
        let sv = snaps_view(snaps@);
        assert(forall|i: int| 0 <= i < sv.len() ==> #[trigger] sv[i] == snap_of(m@, sv[i].vers));
    }
    match existing {
        None => {
            proof {
                let sv = snaps_view(snaps@);
                let ev = Seq::<VersionV>::empty();
                lemma_missing_all(m@.vers, ev);
                assert(snap_versions(sv).to_multiset() == m@.vers.to_multiset());
                assert(missing_versions(m@.vers, ev).to_multiset() == m@.vers.to_multiset());
            }
            ModuleOutcome { class: ModuleClass::New, to_append: snaps }
        },
        Some(e) => {
            let novel: Vec<Snapshot> = novel_snapshots(&snaps, e);
            proof {
                let sv = snaps_view(snaps@);
                let ev = snap_versions(snaps_view(e@));
                lemma_novel_versions(sv, ev);
                lemma_missing_multiset(m@.vers, snap_versions(sv), ev);
                assert(forall|i: int|
                    0 <= i < novel_of(sv, ev).len() ==> #[trigger] novel_of(sv, ev)[i] == snap_of(
                        m@,
                        novel_of(sv, ev)[i].vers,
                    ));
                lemma_sorted_filter(sv, ev);
                // Equal multisets have equal emptiness.
                assert(snap_versions(novel_of(sv, ev)).to_multiset().len() == novel_of(
                    sv,
                    ev,
                ).len());
            }
            if novel.len() == 0 {
                ModuleOutcome { class: ModuleClass::Unchanged, to_append: novel }
            } else {
                ModuleOutcome { class: ModuleClass::Updated, to_append: novel }
            }
        },
    }
}

/// With nothing persisted, everything is missing.
proof fn lemma_missing_all(vs: Seq<VersionV>, ev: Seq<VersionV>)
    requires
        ev.len() == 0,
    ensures
        missing_versions(vs, ev) == vs,
    decreases vs.len(),
{
    if vs.len() == 0 {
        assert(missing_versions(vs, ev) =~= vs);
    } else {
        lemma_missing_all(vs.drop_last(), ev);
        assert(missing_versions(vs, ev) =~= vs);
    }
}

/// The missing versions only depend on the version multiset, for lists that
/// are permutations of one another.
proof fn lemma_missing_multiset(a: Seq<VersionV>, b: Seq<VersionV>, ev: Seq<VersionV>)
    requires
        a.to_multiset() == b.to_multiset(),
    ensures
        missing_versions(a, ev).to_multiset() == missing_versions(b, ev).to_multiset(),
    decreases a.len(),
{
    if a.len() == 0 {
        assert(b.len() == a.len()) by {
            assert(a.to_multiset().len() == a.len());
            assert(b.to_multiset().len() == b.len());
        }
        assert(missing_versions(a, ev).to_multiset() =~= missing_versions(b, ev).to_multiset());
    } else {
        let x = a.last();
        assert(a.to_multiset().count(x) > 0) by {
            assert(a.contains(x));
        }
        assert(b.contains(x)) by {
            assert(b.to_multiset().count(x) > 0);
        }
        let j = choose|j: int| 0 <= j < b.len() && b[j] == x;
        let b2 = b.remove(j);
        assert(b2.to_multiset() =~= b.to_multiset().remove(x));
        assert(a.drop_last().to_multiset() =~= a.to_multiset().remove(x)) by {
            assert(a.drop_last().push(x) =~= a);
            assert(a.drop_last().push(x).to_multiset() =~= a.drop_last().to_multiset().insert(x));
        }
        lemma_missing_multiset(a.drop_last(), b2, ev);
        lemma_missing_remove(b, j, ev);
        if contains_version(ev, x) {
            assert(missing_versions(a, ev) =~= missing_versions(a.drop_last(), ev));
        } else {
            assert(missing_versions(a, ev) =~= missing_versions(a.drop_last(), ev).push(x));
            assert(missing_versions(a, ev).to_multiset() =~= missing_versions(
                a.drop_last(),
                ev,
            ).to_multiset().insert(x));
        }
    }
}

/// Removing one element removes exactly its contribution to the missing set.
proof fn lemma_missing_remove(b: Seq<VersionV>, j: int, ev: Seq<VersionV>)
    requires
        0 <= j < b.len(),
    ensures
        missing_versions(b, ev).to_multiset() == if contains_version(ev, b[j]) {
            missing_versions(b.remove(j), ev).to_multiset()
        } else {
            missing_versions(b.remove(j), ev).to_multiset().insert(b[j])
        },
    decreases b.len(),
{
    if j == b.len() - 1 {
        assert(b.remove(j) =~= b.drop_last());
        if contains_version(ev, b[j]) {
            assert(missing_versions(b, ev) =~= missing_versions(b.drop_last(), ev));
        } else {
            assert(missing_versions(b, ev) =~= missing_versions(b.drop_last(), ev).push(b[j]));
            assert(missing_versions(b, ev).to_multiset() =~= missing_versions(
                b.drop_last(),
                ev,
            ).to_multiset().insert(b[j]));
        }
    } else {
        let c = b.remove(j);
        assert(b.drop_last()[j] == b[j]);
        lemma_missing_remove(b.drop_last(), j, ev);
        assert(c.drop_last() =~= b.drop_last().remove(j));
        assert(c.last() == b.last());
        if contains_version(ev, b.last()) {
            assert(missing_versions(b, ev) =~= missing_versions(b.drop_last(), ev));
            assert(missing_versions(c, ev) =~= missing_versions(c.drop_last(), ev));
        } else {
            assert(missing_versions(b, ev) =~= missing_versions(b.drop_last(), ev).push(b.last()));
            assert(missing_versions(c, ev) =~= missing_versions(c.drop_last(), ev).push(c.last()));
            assert(missing_versions(b, ev).to_multiset() =~= missing_versions(
                b.drop_last(),
                ev,
            ).to_multiset().insert(b.last()));
            assert(missing_versions(c, ev).to_multiset() =~= missing_versions(
                c.drop_last(),
                ev,
            ).to_multiset().insert(c.last()));
        }
    }
}

/// Filtering preserves ascending order.
proof fn lemma_sorted_filter(snaps: Seq<SnapV>, ev: Seq<VersionV>)
    requires
        sorted_versions(snap_versions(snaps)),
    ensures
        sorted_versions(snap_versions(novel_of(snaps, ev))),
    decreases snaps.len(),
{
    if snaps.len() > 0 {
        assert(sorted_versions(snap_versions(snaps.drop_last()))) by {
            assert(snap_versions(snaps.drop_last()) =~= snap_versions(snaps).drop_last());
            assert(forall|i: int|
                0 <= i < snaps.len() - 1 ==> #[trigger] snap_versions(snaps).drop_last()[i]
                    == snap_versions(snaps)[i]);
        }
        lemma_sorted_filter(snaps.drop_last(), ev);
        lemma_novel_versions(snaps.drop_last(), ev);
        if !contains_version(ev, snaps.last().vers) {
            let prev = novel_of(snaps.drop_last(), ev);
            let full = novel_of(snaps, ev);
            assert(full =~= prev.push(snaps.last()));
            assert forall|i: int, j: int|
                0 <= i < j < snap_versions(full).len() implies version_le_spec(
                #[trigger] snap_versions(full)[i],
                #[trigger] snap_versions(full)[j],
            ) by {
                if j < prev.len() {
                    assert(snap_versions(full)[i] == snap_versions(prev)[i]);
                    assert(snap_versions(full)[j] == snap_versions(prev)[j]);
                } else {
                    // The last kept snapshot is the input's last one,
                    // which follows every earlier input snapshot.
                    assert(snap_versions(full)[j] == snaps.last().vers);
                    assert(snap_versions(full)[i] == snap_versions(prev)[i]);
                    let k = choose|k: int|
                        0 <= k < snaps.drop_last().len() && #[trigger] prev[i] == snaps.drop_last(
                        )[k];
                    assert(snap_versions(prev)[i] == prev[i].vers);
                    assert(prev[i].vers == snaps[k].vers);
                    assert(snap_versions(snaps)[k] == snaps[k].vers);
                    assert(snap_versions(snaps)[snaps.len() - 1] == snaps.last().vers);
                    assert(version_le_spec(
                        snap_versions(snaps)[k],
                        snap_versions(snaps)[snaps.len() - 1],
                    ));
                }
            }
        } else {
            assert(novel_of(snaps, ev) =~= novel_of(snaps.drop_last(), ev));
        }
    }
}

// ---------------------------------------------------------------------------
// Laws of the engine.
// ---------------------------------------------------------------------------

proof fn lemma_version_eq_refl(v: VersionV)
    ensures
        version_eq_spec(v, v),
{
}

/// Every version not already persisted is counted missing.
proof fn lemma_missing_has(vs: Seq<VersionV>, ev: Seq<VersionV>, i: int)
    requires
        0 <= i < vs.len(),
        !contains_version(ev, vs[i]),
    ensures
        missing_versions(vs, ev).to_multiset().count(vs[i]) > 0,
    decreases vs.len(),
{
    if i == vs.len() - 1 {
        assert(missing_versions(vs, ev) =~= missing_versions(vs.drop_last(), ev).push(vs[i]));
        assert(missing_versions(vs, ev).to_multiset() =~= missing_versions(
            vs.drop_last(),
            ev,
        ).to_multiset().insert(vs[i]));
    } else {
        assert(vs.drop_last()[i] == vs[i]);
        lemma_missing_has(vs.drop_last(), ev, i);
        if !contains_version(ev, vs.last()) {
            assert(missing_versions(vs, ev) =~= missing_versions(vs.drop_last(), ev).push(
                vs.last(),
            ));
            assert(missing_versions(vs, ev).to_multiset() =~= missing_versions(
                vs.drop_last(),
                ev,
            ).to_multiset().insert(vs.last()));
        } else {
            assert(missing_versions(vs, ev) =~= missing_versions(vs.drop_last(), ev));
        }
    }
}

/// Nothing is missing from a store that covers every version.
proof fn lemma_missing_none(vs: Seq<VersionV>, ev: Seq<VersionV>)
    requires
        forall|i: int| 0 <= i < vs.len() ==> contains_version(ev, #[trigger] vs[i]),
    ensures
        missing_versions(vs, ev).len() == 0,
    decreases vs.len(),
{
    if vs.len() > 0 {
        assert(forall|i: int| 0 <= i < vs.len() - 1 ==> vs.drop_last()[i] == vs[i]);
        lemma_missing_none(vs.drop_last(), ev);
        assert(contains_version(ev, vs.last())) by {
            assert(vs[vs.len() - 1] == vs.last());
        }
    }
}

/// Unchanged-module law: when everything fetched is already persisted,
/// the module is classified unchanged and nothing is appended.
pub proof fn lemma_subset_unchanged(
    m: ModuleV,
    ex: Seq<SnapV>,
    class: ModuleClass,
    app: Seq<SnapV>,
)
    requires
        outcome_ok(m, Some(ex), class, app),
        forall|i: int|
            0 <= i < m.vers.len() ==> contains_version(snap_versions(ex), #[trigger] m.vers[i]),
    ensures
        class == ModuleClass::Unchanged,
        app.len() == 0,
{
    lemma_missing_none(m.vers, snap_versions(ex));
    assert(snap_versions(app).to_multiset().len() == 0);
    assert(snap_versions(app).len() == app.len());
}

/// Idempotence: a second run over the state the first run left behind
/// classifies the module unchanged and appends nothing.
pub proof fn lemma_sync_idempotent(
    m: ModuleV,
    ex: Option<Seq<SnapV>>,
    class1: ModuleClass,
    app1: Seq<SnapV>,
    class2: ModuleClass,
    app2: Seq<SnapV>,
)
    requires
        outcome_ok(m, ex, class1, app1),
        outcome_ok(
            m,
            Some(
                (match ex {
                    Some(e) => e,
                    None => Seq::empty(),
                }) + app1,
            ),
            class2,
            app2,
        ),
    ensures
        class2 == ModuleClass::Unchanged,
        app2.len() == 0,
{
    let e1 = match ex {
        Some(e) => e,
        None => Seq::<SnapV>::empty(),
    };
    let ev1 = snap_versions(e1);
    if ex is None {
        assert(ev1 =~= Seq::<VersionV>::empty());
    }
    assert(snap_versions(app1).to_multiset() == missing_versions(m.vers, ev1).to_multiset());
    let e2 = e1 + app1;
    let ev2 = snap_versions(e2);
    assert(ev2 =~= ev1 + snap_versions(app1));
    assert forall|i: int| 0 <= i < m.vers.len() implies contains_version(
        ev2,
        #[trigger] m.vers[i],
    ) by {
        let v = m.vers[i];
        if contains_version(ev1, v) {
            let k = choose|k: int| 0 <= k < ev1.len() && version_eq_spec(ev1[k], v);
            assert(ev2[k] == ev1[k]);
        } else {
            lemma_missing_has(m.vers, ev1, i);
            assert(snap_versions(app1).to_multiset().count(v) > 0);
            assert(snap_versions(app1).contains(v));
            let k = choose|k: int| 0 <= k < snap_versions(app1).len() && snap_versions(app1)[k]
                == v;
            assert(ev2[ev1.len() + k] == v);
            lemma_version_eq_refl(v);
        }
    }
    lemma_missing_none(m.vers, ev2);
    assert(snap_versions(app2).to_multiset().len() == 0);
    assert(snap_versions(app2).len() == app2.len());
}

/// A shard never gains a duplicate: what is appended is disjoint from what
/// was persisted, and duplicate-free itself (for a well-formed module).
pub proof fn lemma_no_duplicates(
    m: ModuleV,
    ex: Seq<SnapV>,
    class: ModuleClass,
    app: Seq<SnapV>,
)
    requires
        wf_module(m),
        outcome_ok(m, Some(ex), class, app),
        distinct_versions(snap_versions(ex)),
    ensures
        distinct_versions(snap_versions(ex + app)),
{
    let ev = snap_versions(ex);
    let av = snap_versions(app);
    let all = snap_versions(ex + app);
    assert(all =~= ev + av);
    // Appended versions come from the module's versions and are absent from
    // the store.
    assert forall|j: int| 0 <= j < av.len() implies !contains_version(ev, #[trigger] av[j])
        && av.to_multiset().count(av[j]) > 0 by {
        assert(av.contains(av[j]));
        lemma_missing_in_source(m.vers, ev, av[j]);
    }
    assert forall|i: int, j: int| 0 <= i < j < all.len() implies !version_eq_spec(
        #[trigger] all[i],
        #[trigger] all[j],
    ) by {
        if j < ev.len() {
        } else if i >= ev.len() {
            // Both appended: distinct because missing versions of a
            // duplicate-free list are themselves pairwise unequal.
            lemma_missing_distinct(m.vers, ev);
            lemma_distinct_multiset(missing_versions(m.vers, ev), av, i - ev.len(), j - ev.len());
        } else {
            // One persisted, one appended: the appended one is absent from
            // the store under version equality.
            let v = all[j];
            assert(v == av[j - ev.len()]);
            assert(!contains_version(ev, v));
            if version_eq_spec(all[i], v) {
                assert(version_eq_spec(ev[i], v));
            }
        }
    }
}

/// Any version counted missing appears among the module's versions and is
/// absent from the store.
proof fn lemma_missing_in_source(vs: Seq<VersionV>, ev: Seq<VersionV>, v: VersionV)
    requires
        missing_versions(vs, ev).to_multiset().count(v) > 0,
    ensures
        !contains_version(ev, v),
        vs.to_multiset().count(v) > 0,
    decreases vs.len(),
{
    if vs.len() == 0 {
        assert(missing_versions(vs, ev).to_multiset() =~= Seq::<VersionV>::empty().to_multiset());
        assert(missing_versions(vs, ev).to_multiset().len() == 0);
    } else {
        assert(vs.drop_last().push(vs.last()) =~= vs);
        assert(vs.to_multiset() =~= vs.drop_last().to_multiset().insert(vs.last()));
        if !contains_version(ev, vs.last()) {
            assert(missing_versions(vs, ev) =~= missing_versions(vs.drop_last(), ev).push(
                vs.last(),
            ));
            assert(missing_versions(vs, ev).to_multiset() =~= missing_versions(
                vs.drop_last(),
                ev,
            ).to_multiset().insert(vs.last()));
            if v == vs.last() {
            } else {
                lemma_missing_in_source(vs.drop_last(), ev, v);
            }
        } else {
            assert(missing_versions(vs, ev) =~= missing_versions(vs.drop_last(), ev));
            lemma_missing_in_source(vs.drop_last(), ev, v);
        }
    }
}

/// The missing versions of a duplicate-free list are pairwise unequal.
proof fn lemma_missing_distinct(vs: Seq<VersionV>, ev: Seq<VersionV>)
    requires
        distinct_versions(vs),
    ensures
        distinct_versions(missing_versions(vs, ev)),
    decreases vs.len(),
{
    if vs.len() > 0 {
        assert(forall|i: int| 0 <= i < vs.len() - 1 ==> vs.drop_last()[i] == vs[i]);
        lemma_missing_distinct(vs.drop_last(), ev);
        if !contains_version(ev, vs.last()) {
            let prev = missing_versions(vs.drop_last(), ev);
            assert(missing_versions(vs, ev) =~= prev.push(vs.last()));
            assert forall|i: int, j: int|
                0 <= i < j < missing_versions(vs, ev).len() implies !version_eq_spec(
                #[trigger] missing_versions(vs, ev)[i],
                #[trigger] missing_versions(vs, ev)[j],
            ) by {
                if j == prev.len() {
                    lemma_missing_members(vs.drop_last(), ev, i);
                    let k = choose|k: int|
                        0 <= k < vs.drop_last().len() && prev[i] == vs.drop_last()[k];
                    assert(vs[k] == vs.drop_last()[k]);
                    assert(!version_eq_spec(vs[k], vs[vs.len() - 1]));
                    assert(missing_versions(vs, ev)[j] == vs.last());
                    assert(missing_versions(vs, ev)[i] == prev[i]);
                } else {
                    assert(missing_versions(vs, ev)[i] == prev[i]);
                    assert(missing_versions(vs, ev)[j] == prev[j]);
                }
            }
        } else {
            assert(missing_versions(vs, ev) =~= missing_versions(vs.drop_last(), ev));
        }
    }
}

/// Each missing version is one of the source versions.
proof fn lemma_missing_members(vs: Seq<VersionV>, ev: Seq<VersionV>, i: int)
    requires
        0 <= i < missing_versions(vs, ev).len(),
    ensures
        exists|k: int| 0 <= k < vs.len() && missing_versions(vs, ev)[i] == vs[k],
    decreases vs.len(),
{
    if vs.len() > 0 {
        let prev = missing_versions(vs.drop_last(), ev);
        if !contains_version(ev, vs.last()) {
            assert(missing_versions(vs, ev) =~= prev.push(vs.last()));
            if i < prev.len() {
                lemma_missing_members(vs.drop_last(), ev, i);
                let k = choose|k: int|
                    0 <= k < vs.drop_last().len() && prev[i] == vs.drop_last()[k];
                assert(missing_versions(vs, ev)[i] == prev[i]);
                assert(vs[k] == vs.drop_last()[k]);
            } else {
                assert(missing_versions(vs, ev)[i] == vs.last());
                assert(vs.last() == vs[vs.len() - 1]);
            }
        } else {
            assert(missing_versions(vs, ev) =~= prev);
            lemma_missing_members(vs.drop_last(), ev, i);
            let k = choose|k: int| 0 <= k < vs.drop_last().len() && prev[i] == vs.drop_last()[k];
            assert(vs[k] == vs.drop_last()[k]);
        }
    }
}

/// Two sequences with equal multisets and a distinct first one: pairwise
/// inequality carries over.
proof fn lemma_distinct_multiset(a: Seq<VersionV>, b: Seq<VersionV>, i: int, j: int)
    requires
        a.to_multiset() == b.to_multiset(),
        distinct_versions(a),
        0 <= i < j < b.len(),
    ensures
        !version_eq_spec(b[i], b[j]),
{
    // Each element of `b` occurs in `a`; equal-by-version elements at two
    // positions of `b` would be two distinct positions of `a` (or the same
    // value twice, impossible since counts in `a` match counts in `b`).
    if version_eq_spec(b[i], b[j]) {
        assert(b.contains(b[i]));
        assert(b.contains(b[j]));
        assert(a.to_multiset().count(b[i]) > 0);
        assert(a.to_multiset().count(b[j]) > 0);
        assert(a.contains(b[i]));
        assert(a.contains(b[j]));
        let ki = choose|k: int| 0 <= k < a.len() && a[k] == b[i];
        let kj = choose|k: int| 0 <= k < a.len() && a[k] == b[j];
        if ki == kj {
            // The same value occurs at two positions of `b`, so its count is
            // at least two — impossible in the duplicate-free `a`.
            assert(b[i] == b[j]);
            lemma_count_two(b, i, j);
            lemma_count_le_one(a, b[i]);
        } else if ki < kj {
            assert(!version_eq_spec(a[ki], a[kj]));
        } else {
            assert(!version_eq_spec(a[kj], a[ki]));
            lemma_version_eq_symm(b[i], b[j]);
            assert(version_eq_spec(a[kj], a[ki]));
        }
    }
}

/// A value at two positions counts at least twice.
proof fn lemma_count_two(b: Seq<VersionV>, i: int, j: int)
    requires
        0 <= i < j < b.len(),
        b[i] == b[j],
    ensures
        b.to_multiset().count(b[i]) >= 2,
    decreases b.len(),
{
    if j == b.len() - 1 {
        assert(b.drop_last().push(b.last()) =~= b);
        assert(b.to_multiset() =~= b.drop_last().to_multiset().insert(b.last()));
        assert(b.drop_last()[i] == b[i]);
        assert(b.drop_last().contains(b[i]));
        assert(b.drop_last().to_multiset().count(b[i]) > 0);
    } else {
        assert(b.drop_last().push(b.last()) =~= b);
        assert(b.to_multiset() =~= b.drop_last().to_multiset().insert(b.last()));
        assert(b.drop_last()[i] == b[i] && b.drop_last()[j] == b[j]);
        lemma_count_two(b.drop_last(), i, j);
    }
}

/// A duplicate-free sequence holds any value at most once.
proof fn lemma_count_le_one(a: Seq<VersionV>, v: VersionV)
    requires
        distinct_versions(a),
    ensures
        a.to_multiset().count(v) <= 1,
    decreases a.len(),
{
    if a.len() == 0 {
        assert(a.to_multiset() =~= Seq::<VersionV>::empty().to_multiset());
        assert(a.to_multiset().len() == 0);
    } else {
        assert(a.drop_last().push(a.last()) =~= a);
        assert(a.to_multiset() =~= a.drop_last().to_multiset().insert(a.last()));
        assert(forall|i: int| 0 <= i < a.len() - 1 ==> a.drop_last()[i] == a[i]);
        lemma_count_le_one(a.drop_last(), v);
        if a.last() == v && a.drop_last().to_multiset().count(v) > 0 {
            // A copy in the prefix would duplicate the last element.
            assert(a.drop_last().contains(v));
            let k = choose|k: int| 0 <= k < a.drop_last().len() && a.drop_last()[k] == v;
            assert(a[k] == v);
            lemma_version_eq_refl(v);
            assert(version_eq_spec(a[k], a[a.len() - 1]));
        }
    }
}

} // verus!
