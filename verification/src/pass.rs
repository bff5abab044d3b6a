use vstd::prelude::*;
use crate::module::{Module, ModuleV, Snapshot, SnapV, snaps_view, modules_view, copy_module,
    copy_opt_string};
use crate::engine::{sync_module, outcome_ok, wf_module, ModuleClass, snap_versions,
    lemma_sync_idempotent};
use crate::shard::{shard_segments, strings_view};

verus! {

// ---------------------------------------------------------------------------
// One synchronization pass over a registry: every fetched module is diffed
// against the store, classified, and its appends and manifest entries are
// produced.  The store here is the parsed content of the registry's shard
// files; performing the appends and writing the manifests is the caller's
// (I/O) side of the work.
// ---------------------------------------------------------------------------

/// The parsed content of one shard file.
#[derive(Debug)]
pub struct ShardEntry {
    pub path: Vec<String>,
    pub snaps: Vec<Snapshot>,
}

/// The parsed content of a registry's shard tree.
#[derive(Debug)]
pub struct ShardStore {
    pub entries: Vec<ShardEntry>,
}

/// View of a shard entry.
pub struct EntryV {
    pub path: Seq<Seq<char>>,
    pub snaps: Seq<SnapV>,
}

impl View for ShardEntry {
    type V = EntryV;

    open spec fn view(&self) -> EntryV {
        EntryV { path: strings_view(self.path@), snaps: snaps_view(self.snaps@) }
    }
}

impl View for ShardStore {
    type V = Seq<EntryV>;

    open spec fn view(&self) -> Seq<EntryV> {
        self.entries@.map_values(|e: ShardEntry| e@)
    }
}

/// The snapshots the store holds at a path: the first entry with that path,
/// if any.
pub open spec fn store_content(es: Seq<EntryV>, path: Seq<Seq<char>>) -> Option<Seq<SnapV>>
    decreases es.len(),
{
    if es.len() == 0 {
        None
    } else if es[0].path == path {
        Some(es[0].snaps)
    } else {
        store_content(es.drop_first(), path)
    }
}

/// What one module appends to its shard file.
#[derive(Debug)]
pub struct ShardAppend {
    pub path: Vec<String>,
    pub snaps: Vec<Snapshot>,
}

/// The result of one registry pass: a class and an append per module, in
/// input order, and the two manifest lists derived from them.
#[derive(Debug)]
pub struct SyncReport {
    pub classes: Vec<ModuleClass>,
    pub appends: Vec<ShardAppend>,
    pub new_modules: Vec<Module>,
    pub updated_modules: Vec<Module>,
}

/// The records of the modules classified new, in order: the fetched records
/// themselves.
pub open spec fn new_records(ms: Seq<ModuleV>, cls: Seq<ModuleClass>) -> Seq<ModuleV>
    decreases ms.len(),
{
    if ms.len() == 0 || ms.len() != cls.len() {
        Seq::empty()
    } else {
        new_records(ms.drop_last(), cls.drop_last()) + if cls.last() == ModuleClass::New {
            seq![ms.last()]
        } else {
            Seq::empty()
        }
    }
}

/// An updated module's manifest record: the fetched record restricted to
/// its appended (novel) versions.
pub open spec fn updated_record(m: ModuleV, app: Seq<SnapV>) -> ModuleV {
    ModuleV { name: m.name, desc: m.desc, repo: m.repo, reg: m.reg, vers: snap_versions(app) }
}

/// The records of the modules classified updated, in order, each carrying
/// only its appended versions.
pub open spec fn updated_records(
    ms: Seq<ModuleV>,
    cls: Seq<ModuleClass>,
    apps: Seq<Seq<SnapV>>,
) -> Seq<ModuleV>
    decreases ms.len(),
{
    if ms.len() == 0 || ms.len() != cls.len() || ms.len() != apps.len() {
        Seq::empty()
    } else {
        updated_records(ms.drop_last(), cls.drop_last(), apps.drop_last()) + if cls.last()
            == ModuleClass::Updated {
            seq![updated_record(ms.last(), apps.last())]
        } else {
            Seq::empty()
        }
    }
}

/// The append contents of a report, in input order.
pub open spec fn appends_view(apps: Seq<ShardAppend>) -> Seq<Seq<SnapV>> {
    apps.map_values(|a: ShardAppend| snaps_view(a.snaps@))
}

/// Whether two string vectors hold the same texts.
fn paths_eq(a: &Vec<String>, b: &Vec<String>) -> (r: bool)
    ensures
        r == (strings_view(a@) == strings_view(b@)),
{
    if a.len() != b.len() {
        proof {
            assert(strings_view(a@).len() == a@.len());
            assert(strings_view(b@).len() == b@.len());
        }
        return false;
    }
    let n: usize = a.len();
    let mut i: usize = 0;
    while i < n
        invariant
            n == a@.len() == b@.len(),
            i <= n,
            forall|k: int| 0 <= k < i ==> #[trigger] a@[k]@ == b@[k]@,
        decreases n - i,
    {
        if !a[i].eq(&b[i]) {
            proof {
                assert(strings_view(a@)[i as int] == a@[i as int]@);
                assert(strings_view(b@)[i as int] == b@[i as int]@);
            }
            return false;
        }
        i = i + 1;
    }
    proof {
        assert forall|k: int|
            0 <= k < n implies #[trigger] strings_view(a@)[k] == strings_view(b@)[k] by {
            assert(strings_view(a@)[k] == a@[k]@ && strings_view(b@)[k] == b@[k]@);
        }
        assert(strings_view(a@) =~= strings_view(b@));
    }
    true
}

impl ShardStore {
    /// The snapshots stored at a path, if that shard file is present.
    pub fn lookup(&self, path: &Vec<String>) -> (r: Option<&Vec<Snapshot>>)
        ensures
            (match r {
                Some(s) => store_content(self@, strings_view(path@)) == Some(snaps_view(s@)),
                None => store_content(self@, strings_view(path@)) is None,
            }),
    {
        let ghost p = strings_view(path@);
        let n: usize = self.entries.len();
        let mut i: usize = 0;
        proof {
            assert(self@.skip(0) =~= self@);
        }
        while i < n
            invariant
                n == self.entries@.len(),
                self@.len() == n,
                i <= n,
                p == strings_view(path@),
                store_content(self@, p) == store_content(self@.skip(i as int), p),
            decreases n - i,
        {
            let ghost rest = self@.skip(i as int);
            proof {
                assert(rest[0] == self@[i as int]);
                assert(self@[i as int] == self.entries@[i as int]@);
            }
            if paths_eq(&self.entries[i].path, path) {
                return Some(&self.entries[i].snaps);
            }
            proof {
                assert(rest.drop_first() =~= self@.skip(i + 1));
            }
            i = i + 1;
        }
        proof {
            assert(self@.skip(n as int) =~= Seq::<EntryV>::empty());
        }
        None
    }
}

/// Runs the engine over every fetched module of one registry: each is
/// diffed against the store and classified; the report carries, in input
/// order, each module's class and its shard append, and the two manifest
/// lists — the new modules as fetched, the updated ones restricted to their
/// appended versions.
pub fn sync_pass(store: &ShardStore, modules: &Vec<Module>) -> (r: SyncReport)
    requires
        forall|i: int| 0 <= i < modules@.len() ==> wf_module(#[trigger] modules@[i]@),
    ensures
        r.classes@.len() == modules@.len(),
        r.appends@.len() == modules@.len(),
        forall|i: int|
            0 <= i < modules@.len() ==> {
                let m = #[trigger] modules@[i]@;
                &&& strings_view(r.appends@[i].path@) == shard_segments(m.name)
                &&& outcome_ok(
                    m,
                    store_content(store@, shard_segments(m.name)),
                    r.classes@[i],
                    snaps_view(r.appends@[i].snaps@),
                )
            },
        modules_view(r.new_modules@) == new_records(modules_view(modules@), r.classes@),
        modules_view(r.updated_modules@) == updated_records(
            modules_view(modules@),
            r.classes@,
            appends_view(r.appends@),
        ),
{
    let n: usize = modules.len();
    let mut classes: Vec<ModuleClass> = Vec::new();
    let mut appends: Vec<ShardAppend> = Vec::new();
    let mut new_modules: Vec<Module> = Vec::new();
    let mut updated_modules: Vec<Module> = Vec::new();
    let ghost mv = modules_view(modules@);
    let mut i: usize = 0;
    proof {
        assert(mv.subrange(0, 0) =~= Seq::<ModuleV>::empty());
        assert(modules_view(new_modules@) =~= new_records(mv.subrange(0, 0), classes@));
        assert(modules_view(updated_modules@) =~= updated_records(
            mv.subrange(0, 0),
            classes@,
            appends_view(appends@),
        ));
    }
    while i < n
        invariant
            n == modules@.len(),
            mv == modules_view(modules@),
            mv.len() == n,
            forall|k: int| 0 <= k < n ==> wf_module(#[trigger] modules@[k]@),
            i <= n,
            classes@.len() == i as int,
            appends@.len() == i as int,
            forall|k: int|
                0 <= k < i ==> {
                    let m = #[trigger] modules@[k]@;
                    &&& strings_view(appends@[k].path@) == shard_segments(m.name)
                    &&& outcome_ok(
                        m,
                        store_content(store@, shard_segments(m.name)),
                        classes@[k],
                        snaps_view(appends@[k].snaps@),
                    )
                },
            modules_view(new_modules@) == new_records(mv.subrange(0, i as int), classes@),
            modules_view(updated_modules@) == updated_records(
                mv.subrange(0, i as int),
                classes@,
                appends_view(appends@),
            ),
        decreases n - i,
    {
        let ghost old_classes = classes@;
        let ghost old_appends = appends@;
        proof {
            assert(mv[i as int] == modules@[i as int]@);
        }
        let path: Vec<String> = modules[i].index_path();
        let existing: Option<&Vec<Snapshot>> = store.lookup(&path);
        let outcome = sync_module(&modules[i], existing);
        match outcome.class {
            ModuleClass::New => {
                new_modules.push(copy_module(&modules[i]));
            },
            ModuleClass::Updated => {
                let mut novel: Vec<crate::version::Version> = Vec::new();
                let an: usize = outcome.to_append.len();
                let mut j: usize = 0;
                while j < an
                    invariant
                        an == outcome.to_append@.len(),
                        j <= an,
                        novel@.len() == j as int,
                        forall|t: int|
                            0 <= t < j ==> #[trigger] novel@[t]@ == outcome.to_append@[t]@.vers,
                    decreases an - j,
                {
                    novel.push(crate::version::copy_version(&outcome.to_append[j].vers));
                    j = j + 1;
                }
                let record = Module {
                    name: modules[i].name.clone(),
                    desc: copy_opt_string(&modules[i].desc),
                    repo: copy_opt_string(&modules[i].repo),
                    reg: modules[i].reg,
                    vers: novel,
                };
                proof {
                    assert(crate::module::versions_view(record.vers@) =~= snap_versions(
                        snaps_view(outcome.to_append@),
                    ));
                    assert(record@ == updated_record(
                        modules@[i as int]@,
                        snaps_view(outcome.to_append@),
                    ));
                }
                updated_modules.push(record);
            },
            ModuleClass::Unchanged => {},
        }
        classes.push(outcome.class);
        appends.push(ShardAppend { path, snaps: outcome.to_append });
        i = i + 1;
        proof {
            let pre = mv.subrange(0, i - 1);
            let cur = mv.subrange(0, i as int);
            assert(cur.drop_last() =~= pre);
            assert(cur.last() == mv[i - 1]);
            assert(classes@.drop_last() =~= old_classes);
            assert(appends_view(appends@).drop_last() =~= appends_view(old_appends));
            assert(new_records(pre, old_classes) == new_records(cur.drop_last(), classes@.drop_last()));
            assert(updated_records(pre, old_classes, appends_view(old_appends))
                == updated_records(
                cur.drop_last(),
                classes@.drop_last(),
                appends_view(appends@).drop_last(),
            ));
            assert(appends_view(appends@).last() == snaps_view(
                appends@[i - 1].snaps@,
            ));
            assert(modules_view(new_modules@) =~= new_records(cur, classes@));
            assert(modules_view(updated_modules@) =~= updated_records(
                cur,
                classes@,
                appends_view(appends@),
            ));
        }
    }
    proof {
        assert(mv.subrange(0, n as int) =~= mv);
    }
    SyncReport { classes, appends, new_modules, updated_modules }
}

// ---------------------------------------------------------------------------
// Laws of a pass.
// ---------------------------------------------------------------------------

/// A module classified unchanged appears in neither manifest list.  The
/// hypothesis that fetched names are pairwise distinct always holds in
/// practice: a registry's catalog is a map keyed by module name.
pub proof fn lemma_unchanged_in_no_manifest(
    ms: Seq<ModuleV>,
    cls: Seq<ModuleClass>,
    apps: Seq<Seq<SnapV>>,
    i: int,
)
    requires
        ms.len() == cls.len(),
        ms.len() == apps.len(),
        0 <= i < ms.len(),
        cls[i] == ModuleClass::Unchanged,
        forall|a: int, b: int| 0 <= a < b < ms.len() ==> ms[a].name != ms[b].name,
    ensures
        forall|j: int|
            0 <= j < new_records(ms, cls).len() ==> new_records(ms, cls)[j].name != ms[i].name,
        forall|j: int|
            0 <= j < updated_records(ms, cls, apps).len() ==> updated_records(
                ms,
                cls,
                apps,
            )[j].name != ms[i].name,
    decreases ms.len(),
{
    if ms.len() > 0 {
        let pm = ms.drop_last();
        let pc = cls.drop_last();
        let pa = apps.drop_last();
        if i < ms.len() - 1 {
            assert(pm[i] == ms[i]);
            assert(forall|a: int, b: int|
                0 <= a < b < pm.len() ==> #[trigger] pm[a].name != #[trigger] pm[b].name) by {
                assert(forall|a: int| 0 <= a < pm.len() ==> #[trigger] pm[a] == ms[a]);
            }
            lemma_unchanged_in_no_manifest(pm, pc, pa, i);
            assert(forall|a: int| 0 <= a < pm.len() ==> #[trigger] pm[a] == ms[a]);
            if cls.last() == ModuleClass::New {
                assert(ms[ms.len() - 1].name != ms[i].name);
                assert(new_records(ms, cls) =~= new_records(pm, pc).push(ms.last()));
            } else {
                assert(new_records(ms, cls) =~= new_records(pm, pc));
            }
            if cls.last() == ModuleClass::Updated {
                assert(updated_records(ms, cls, apps) =~= updated_records(pm, pc, pa).push(
                    updated_record(ms.last(), apps.last()),
                ));
                assert(updated_record(ms.last(), apps.last()).name == ms[ms.len() - 1].name);
                assert(ms[ms.len() - 1].name != ms[i].name);
            } else {
                assert(updated_records(ms, cls, apps) =~= updated_records(pm, pc, pa));
            }
        } else {
            // The unchanged module is the last one: it contributes nothing,
            // and no earlier module shares its name.
            assert(new_records(ms, cls) =~= new_records(pm, pc));
            assert(updated_records(ms, cls, apps) =~= updated_records(pm, pc, pa));
            lemma_records_from_members(pm, pc, pa);
            assert forall|j: int|
                0 <= j < new_records(ms, cls).len() implies new_records(ms, cls)[j].name != ms[
                i
            ].name by {
                assert(name_among(new_records(pm, pc)[j].name, pm));
                let k = choose|k: int|
                    0 <= k < pm.len() && #[trigger] pm[k].name == new_records(pm, pc)[j].name;
                assert(pm[k] == ms[k]);
                assert(ms[k].name != ms[i].name);
            }
            assert forall|j: int|
                0 <= j < updated_records(ms, cls, apps).len() implies updated_records(
                ms,
                cls,
                apps,
            )[j].name != ms[i].name by {
                assert(name_among(updated_records(pm, pc, pa)[j].name, pm));
                let k = choose|k: int|
                    0 <= k < pm.len() && #[trigger] pm[k].name == updated_records(
                        pm,
                        pc,
                        pa,
                    )[j].name;
                assert(pm[k] == ms[k]);
                assert(ms[k].name != ms[i].name);
            }
        }
    }
}

/// Whether a name is one of the fetched modules' names.
pub open spec fn name_among(name: Seq<char>, ms: Seq<ModuleV>) -> bool {
    exists|k: int| 0 <= k < ms.len() && #[trigger] ms[k].name == name
}

/// Every manifest record carries the name of one of the fetched modules.
proof fn lemma_records_from_members(ms: Seq<ModuleV>, cls: Seq<ModuleClass>, apps: Seq<Seq<SnapV>>)
    ensures
        forall|j: int|
            0 <= j < new_records(ms, cls).len() ==> name_among(
                #[trigger] new_records(ms, cls)[j].name,
                ms,
            ),
        forall|j: int|
            0 <= j < updated_records(ms, cls, apps).len() ==> name_among(
                #[trigger] updated_records(ms, cls, apps)[j].name,
                ms,
            ),
    decreases ms.len(),
{
    if ms.len() > 0 && ms.len() == cls.len() {
        let pm = ms.drop_last();
        let pc = cls.drop_last();
        let pa = if apps.len() > 0 {
            apps.drop_last()
        } else {
            apps
        };
        lemma_records_from_members(pm, pc, pa);
        assert(forall|a: int| 0 <= a < pm.len() ==> #[trigger] pm[a] == ms[a]);
        assert(ms.last() == ms[ms.len() - 1]);
        assert forall|j: int| 0 <= j < new_records(ms, cls).len() implies name_among(
            #[trigger] new_records(ms, cls)[j].name,
            ms,
        ) by {
            if j < new_records(pm, pc).len() {
                assert(new_records(ms, cls)[j] == new_records(pm, pc)[j]);
                assert(name_among(new_records(pm, pc)[j].name, pm));
                let k = choose|k: int|
                    0 <= k < pm.len() && #[trigger] pm[k].name == new_records(pm, pc)[j].name;
                assert(ms[k].name == new_records(ms, cls)[j].name);
            } else {
                assert(cls.last() == ModuleClass::New);
                assert(new_records(ms, cls)[j] == ms.last());
                assert(ms[ms.len() - 1].name == new_records(ms, cls)[j].name);
            }
        }
        if ms.len() != apps.len() {
            assert(updated_records(ms, cls, apps).len() == 0);
        }
        assert forall|j: int| 0 <= j < updated_records(ms, cls, apps).len() implies name_among(
            #[trigger] updated_records(ms, cls, apps)[j].name,
            ms,
        ) by {
            if j < updated_records(pm, pc, pa).len() {
                assert(updated_records(ms, cls, apps)[j] == updated_records(pm, pc, pa)[j]);
                assert(name_among(updated_records(pm, pc, pa)[j].name, pm));
                let k = choose|k: int|
                    0 <= k < pm.len() && #[trigger] pm[k].name == updated_records(
                        pm,
                        pc,
                        pa,
                    )[j].name;
                assert(ms[k].name == updated_records(ms, cls, apps)[j].name);
            } else {
                assert(cls.last() == ModuleClass::Updated);
                assert(updated_records(ms, cls, apps)[j] == updated_record(
                    ms.last(),
                    apps.last(),
                ));
                assert(ms[ms.len() - 1].name == updated_records(ms, cls, apps)[j].name);
            }
        }
    } else {
        assert(new_records(ms, cls).len() == 0);
        assert(updated_records(ms, cls, apps).len() == 0);
    }
}

/// A second pass over the state the first pass left behind classifies every
/// module unchanged and emits empty manifests: synchronization is
/// idempotent.
pub proof fn lemma_pass_idempotent(
    ms: Seq<ModuleV>,
    ex: Seq<Option<Seq<SnapV>>>,
    cls1: Seq<ModuleClass>,
    apps1: Seq<Seq<SnapV>>,
    cls2: Seq<ModuleClass>,
    apps2: Seq<Seq<SnapV>>,
)
    requires
        ms.len() == ex.len(),
        ms.len() == cls1.len(),
        ms.len() == apps1.len(),
        ms.len() == cls2.len(),
        ms.len() == apps2.len(),
        forall|i: int|
            0 <= i < ms.len() ==> outcome_ok(#[trigger] ms[i], ex[i], cls1[i], apps1[i]),
        forall|i: int|
            0 <= i < ms.len() ==> outcome_ok(
                #[trigger] ms[i],
                Some(
                    (match ex[i] {
                        Some(e) => e,
                        None => Seq::empty(),
                    }) + apps1[i],
                ),
                cls2[i],
                apps2[i],
            ),
    ensures
        forall|i: int| 0 <= i < ms.len() ==> cls2[i] == ModuleClass::Unchanged,
        forall|i: int| 0 <= i < ms.len() ==> #[trigger] apps2[i].len() == 0,
        new_records(ms, cls2).len() == 0,
        updated_records(ms, cls2, apps2).len() == 0,
{
    assert forall|i: int| 0 <= i < ms.len() implies #[trigger] cls2[i]
        == ModuleClass::Unchanged by {
        lemma_sync_idempotent(ms[i], ex[i], cls1[i], apps1[i], cls2[i], apps2[i]);
    }
    assert forall|i: int| 0 <= i < ms.len() implies #[trigger] apps2[i].len() == 0 by {
        lemma_sync_idempotent(ms[i], ex[i], cls1[i], apps1[i], cls2[i], apps2[i]);
    }
    lemma_no_positive_classes(ms, cls2, apps2);
}

/// With every module unchanged, both manifests are empty.
proof fn lemma_no_positive_classes(ms: Seq<ModuleV>, cls: Seq<ModuleClass>, apps: Seq<Seq<SnapV>>)
    requires
        forall|i: int| 0 <= i < cls.len() ==> cls[i] == ModuleClass::Unchanged,
    ensures
        new_records(ms, cls).len() == 0,
        updated_records(ms, cls, apps).len() == 0,
    decreases ms.len(),
{
    if ms.len() > 0 && ms.len() == cls.len() {
        assert(forall|i: int| 0 <= i < cls.len() - 1 ==> cls.drop_last()[i] == cls[i]);
        assert(cls.last() == cls[cls.len() - 1]);
        if ms.len() == apps.len() {
            lemma_no_positive_classes(ms.drop_last(), cls.drop_last(), apps.drop_last());
        } else {
            lemma_no_positive_classes(ms.drop_last(), cls.drop_last(), apps);
        }
    }
}

} // verus!
