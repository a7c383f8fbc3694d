//! The package privilege table and its reconciliation against the live
//! package list.

use vstd::prelude::*;

verus! {

/// Android multi-user uids are `profile * PER_USER_RANGE + app_id`.
pub const PER_USER_RANGE: i32 = 100000;

/// One row of the privilege table.
pub struct PackageConfig {
    pub pkg: String,
    pub exclude: i32,
    pub allow: i32,
    pub uid: i32,
    pub to_uid: i32,
    pub sctx: String,
}

/// A row of the privilege table as a mathematical value.
pub struct PackageConfigView {
    pub pkg: Seq<char>,
    pub exclude: i32,
    pub allow: i32,
    pub uid: i32,
    pub to_uid: i32,
    pub sctx: Seq<char>,
}

impl View for PackageConfig {
    type V = PackageConfigView;

    open spec fn view(&self) -> PackageConfigView {
        PackageConfigView {
            pkg: self.pkg@,
            exclude: self.exclude,
            allow: self.allow,
            uid: self.uid,
            to_uid: self.to_uid,
            sctx: self.sctx@,
        }
    }
}

/// One installed package as the system lists it; `uid` is `None` when the
/// listing's uid field is not a number.
pub struct LivePackage {
    pub pkg: String,
    pub uid: Option<i32>,
    pub is_system_app: bool,
}

pub struct LivePackageView {
    pub pkg: Seq<char>,
    pub uid: Option<i32>,
    pub is_system_app: bool,
}

impl View for LivePackage {
    type V = LivePackageView;

    open spec fn view(&self) -> LivePackageView {
        LivePackageView { pkg: self.pkg@, uid: self.uid, is_system_app: self.is_system_app }
    }
}

/// Which newly seen packages get a default-deny row.
#[derive(Clone, Copy, Debug, PartialEq, Eq, Structural)]
pub enum WhitelistMode {
    Disabled,
    NonSystemOnly,
    SystemOnly,
    All,
}

pub open spec fn configs_view(v: Seq<PackageConfig>) -> Seq<PackageConfigView> {
    v.map_values(|c: PackageConfig| c@)
}

pub open spec fn live_view(v: Seq<LivePackage>) -> Seq<LivePackageView> {
    v.map_values(|l: LivePackage| l@)
}

pub open spec fn is_live(live: Seq<LivePackageView>, name: Seq<char>) -> bool {
    exists|i: int| 0 <= i < live.len() && (#[trigger] live[i]).pkg == name
}

pub open spec fn has_record(t: Seq<PackageConfigView>, name: Seq<char>) -> bool {
    exists|i: int| 0 <= i < t.len() && (#[trigger] t[i]).pkg == name
}

/// The persisted rows that survive pruning: those of live packages, each
/// package kept at its first occurrence only, in stored order.
pub open spec fn kept_records(
    p: Seq<PackageConfigView>,
    live: Seq<LivePackageView>,
) -> Seq<PackageConfigView>
    decreases p.len(),
{
    if p.len() == 0 {
        seq![]
    } else {
        let k = kept_records(p.drop_last(), live);
        let r = p.last();
        if is_live(live, r.pkg) && !has_record(k, r.pkg) {
            k.push(r)
        } else {
            k
        }
    }
}

/// Remainder of `a / m` rounded toward zero, as Rust's `%` computes it.
pub open spec fn trunc_rem(a: int, m: int) -> int {
    if a >= 0 {
        a % m
    } else {
        -((-a) % m)
    }
}

/// The app-id part of a uid.
pub open spec fn app_id(uid: int) -> int {
    trunc_rem(uid, PER_USER_RANGE as int)
}

/// A stored uid after seeing the package live under `live_uid`: the stored
/// profile part is kept and the app-id part taken from the live uid; a result
/// outside `i32` leaves the stored uid as it is.
pub open spec fn refreshed_uid(stored: i32, live_uid: i32) -> i32 {
    if app_id(stored as int) == app_id(live_uid as int) {
        stored
    } else {
        let v = stored - app_id(stored as int) + app_id(live_uid as int);
        if i32::MIN <= v <= i32::MAX {
            v as i32
        } else {
            stored
        }
    }
}

/// A stored uid after every live entry of its package, in list order.
pub open spec fn uid_after_refresh(uid: i32, name: Seq<char>, live: Seq<LivePackageView>) -> i32
    decreases live.len(),
{
    if live.len() == 0 {
        uid
    } else {
        let u = uid_after_refresh(uid, name, live.drop_last());
        let l = live.last();
        if l.pkg == name && l.uid is Some {
            refreshed_uid(u, l.uid->0)
        } else {
            u
        }
    }
}

pub open spec fn refresh_record(
    r: PackageConfigView,
    live: Seq<LivePackageView>,
) -> PackageConfigView {
    PackageConfigView { uid: uid_after_refresh(r.uid, r.pkg, live), ..r }
}

pub open spec fn refreshed_table(
    t: Seq<PackageConfigView>,
    live: Seq<LivePackageView>,
) -> Seq<PackageConfigView> {
    t.map_values(|r: PackageConfigView| refresh_record(r, live))
}


pub open spec fn mode_admits(mode: WhitelistMode, is_system_app: bool) -> bool {
    match mode {
        WhitelistMode::Disabled => false,
        WhitelistMode::NonSystemOnly => !is_system_app,
        WhitelistMode::SystemOnly => is_system_app,
        WhitelistMode::All => true,
    }
}

/// Security context given to rows that reconciliation creates.
pub open spec fn untrusted_sctx() -> Seq<char> {
    "u:r:untrusted_app:s0"@
}

/// Manager identity used when the configured one is not installed.
pub open spec fn fallback_manager() -> Seq<char> {
    "com.bmax.apatch"@
}

pub open spec fn resolved_manager(candidate: Seq<char>, live: Seq<LivePackageView>) -> Seq<char> {
    if is_live(live, candidate) {
        candidate
    } else {
        fallback_manager()
    }
}

/// The default-deny row created for a newly seen package.
pub open spec fn provisioned_record(l: LivePackageView) -> PackageConfigView {
    PackageConfigView {
        pkg: l.pkg,
        exclude: 1,
        allow: 0,
        uid: l.uid->0,
        to_uid: 0,
        sctx: untrusted_sctx(),
    }
}

pub open spec fn should_provision(
    l: LivePackageView,
    table: Seq<PackageConfigView>,
    mode: WhitelistMode,
    manager: Seq<char>,
) -> bool {
    &&& l.uid is Some
    &&& !has_record(table, l.pkg)
    &&& l.pkg != manager
    &&& mode_admits(mode, l.is_system_app)
}

/// The rows created for live packages without a row, one per package, in
/// list order.
pub open spec fn provisioned(
    live: Seq<LivePackageView>,
    table: Seq<PackageConfigView>,
    mode: WhitelistMode,
    manager: Seq<char>,
) -> Seq<PackageConfigView>
    decreases live.len(),
{
    if live.len() == 0 {
        seq![]
    } else {
        let e = provisioned(live.drop_last(), table, mode, manager);
        let l = live.last();
        if should_provision(l, table, mode, manager) && !has_record(e, l.pkg) {
            e.push(provisioned_record(l))
        } else {
            e
        }
    }
}

/// What one reconciliation pass produces.
pub struct SyncOutcome {
    /// The rows to act on: created rows first, then the persisted ones.
    pub records: Vec<PackageConfig>,
    /// The persisted rows after pruning and uid refresh.
    pub table: Vec<PackageConfig>,
    /// How many persisted rows were dropped.
    pub removed_count: usize,
    /// Whether `table` must be written back.
    pub table_changed: bool,
}

/// The specification of one reconciliation pass.
pub open spec fn sync_table(
    persisted: Seq<PackageConfigView>,
    live: Seq<LivePackageView>,
) -> Seq<PackageConfigView> {
    refreshed_table(kept_records(persisted, live), live)
}

pub open spec fn sync_records(
    persisted: Seq<PackageConfigView>,
    live: Seq<LivePackageView>,
    mode: WhitelistMode,
    manager: Seq<char>,
) -> Seq<PackageConfigView> {
    let kept = kept_records(persisted, live);
    provisioned(live, kept, mode, resolved_manager(manager, live)) + sync_table(persisted, live)
}

pub open spec fn sync_changed(
    persisted: Seq<PackageConfigView>,
    live: Seq<LivePackageView>,
) -> bool {
    let kept = kept_records(persisted, live);
    kept.len() < persisted.len() || refreshed_table(kept, live) != kept
}

proof fn lemma_kept_len(p: Seq<PackageConfigView>, live: Seq<LivePackageView>)
    ensures
        kept_records(p, live).len() <= p.len(),
    decreases p.len(),
{
    if p.len() > 0 {
        lemma_kept_len(p.drop_last(), live);
    }
}

/// An owned copy of a row.
pub fn copy_config(c: &PackageConfig) -> (r: PackageConfig)
    ensures
        r@ == c@,
{
    PackageConfig {
        pkg: c.pkg.clone(),
        exclude: c.exclude,
        allow: c.allow,
        uid: c.uid,
        to_uid: c.to_uid,
        sctx: c.sctx.clone(),
    }
}

fn contains_live(live: &Vec<LivePackage>, name: &String) -> (r: bool)
    ensures
        r == is_live(live_view(live@), name@),
{
    let mut i: usize = 0;
    while i < live.len()
        invariant
            i <= live@.len(),
            forall|j: int| 0 <= j < i ==> live@[j].pkg@ != name@,
        decreases live.len() - i,
    {
        if live[i].pkg == *name {
            assert(live_view(live@)[i as int].pkg == name@);
            return true;
        }
        i = i + 1;
    }
    assert(!is_live(live_view(live@), name@)) by {
        assert forall|j: int| 0 <= j < live@.len() implies (#[trigger] live_view(live@)[j]).pkg
            != name@ by {
            assert(live_view(live@)[j] == live@[j]@);
        }
    }
    false
}

fn contains_config(t: &Vec<PackageConfig>, name: &String) -> (r: bool)
    ensures
        r == has_record(configs_view(t@), name@),
{
    let mut i: usize = 0;
    while i < t.len()
        invariant
            i <= t@.len(),
            forall|j: int| 0 <= j < i ==> t@[j].pkg@ != name@,
        decreases t.len() - i,
    {
        if t[i].pkg == *name {
            assert(configs_view(t@)[i as int].pkg == name@);
            return true;
        }
        i = i + 1;
    }
    assert(!has_record(configs_view(t@), name@)) by {
        assert forall|j: int| 0 <= j < t@.len() implies (#[trigger] configs_view(t@)[j]).pkg
            != name@ by {
            assert(configs_view(t@)[j] == t@[j]@);
        }
    }
    false
}


fn app_id_of(uid: i32) -> (r: i64)
    ensures
        r == app_id(uid as int),
        -100000 < r < 100000,
{
    let u = uid as i64;
    if u >= 0 {
        u % (PER_USER_RANGE as i64)
    } else {
        -((-u) % (PER_USER_RANGE as i64))
    }
}

/// `stored` with its app-id part replaced by that of `live_uid`.
pub fn refresh_uid(stored: i32, live_uid: i32) -> (r: i32)
    ensures
        r == refreshed_uid(stored, live_uid),
{
    let a = app_id_of(stored);
    let b = app_id_of(live_uid);
    if a == b {
        stored
    } else {
        let v = stored as i64 - a + b;
        if i32::MIN as i64 <= v && v <= i32::MAX as i64 {
            v as i32
        } else {
            stored
        }
    }
}

fn refresh_record_uid(r: &PackageConfig, live: &Vec<LivePackage>) -> (out: PackageConfig)
    ensures
        out@ == refresh_record(r@, live_view(live@)),
{
    let mut uid = r.uid;
    let mut k: usize = 0;
    while k < live.len()
        invariant
            k <= live@.len(),
            uid == uid_after_refresh(r.uid, r.pkg@, live_view(live@).take(k as int)),
        decreases live.len() - k,
    {
        proof {
            assert(live_view(live@).take(k + 1).drop_last() =~= live_view(live@).take(k as int));
        }
        let l = &live[k];
        if l.pkg == r.pkg {
            match l.uid {
                Some(u) => {
                    uid = refresh_uid(uid, u);
                },
                None => {},
            }
        }
        k = k + 1;
    }
    assert(live_view(live@).take(live@.len() as int) =~= live_view(live@));
    let mut out = copy_config(r);
    out.uid = uid;
    out
}

/// One reconciliation pass of the privilege table against the live package
/// list: prunes rows of packages no longer installed (and repeated rows),
/// refreshes the app-id part of the remaining uids, and creates default-deny
/// rows for newly seen packages that `mode` admits, never for the manager.
pub fn synchronize_package_config(
    persisted: &Vec<PackageConfig>,
    live: &Vec<LivePackage>,
    mode: WhitelistMode,
    manager: &String,
) -> (r: SyncOutcome)
    ensures
        configs_view(r.table@) == sync_table(configs_view(persisted@), live_view(live@)),
        configs_view(r.records@) == sync_records(
            configs_view(persisted@),
            live_view(live@),
            mode,
            manager@,
        ),
        r.removed_count == persisted@.len() - kept_records(
            configs_view(persisted@),
            live_view(live@),
        ).len(),
        r.table_changed == sync_changed(configs_view(persisted@), live_view(live@)),
{
    let ghost p = configs_view(persisted@);
    let ghost l = live_view(live@);
    // prune
    let mut kept: Vec<PackageConfig> = Vec::new();
    let mut i: usize = 0;
    while i < persisted.len()
        invariant
            i <= persisted@.len(),
            p == configs_view(persisted@),
            l == live_view(live@),
            configs_view(kept@) == kept_records(p.take(i as int), l),
        decreases persisted.len() - i,
    {
        proof {
            assert(p.take(i + 1).drop_last() =~= p.take(i as int));
        }
        let r = &persisted[i];
        if contains_live(live, &r.pkg) && !contains_config(&kept, &r.pkg) {
            kept.push(copy_config(r));
            assert(configs_view(kept@) =~= kept_records(p.take(i as int), l).push(r@));
        }
        i = i + 1;
    }
    assert(p.take(persisted@.len() as int) =~= p);
    let ghost k = kept_records(p, l);
    proof {
        lemma_kept_len(p, l);
    }
    let removed_count = persisted.len() - kept.len();
    // refresh
    let mut table: Vec<PackageConfig> = Vec::new();
    let mut changed = false;
    let mut j: usize = 0;
    assert(refreshed_table(k.take(0), l) =~= k.take(0));
    while j < kept.len()
        invariant
            j <= kept@.len(),
            l == live_view(live@),
            configs_view(kept@) == k,
            configs_view(table@) =~= refreshed_table(k.take(j as int), l),
            changed == (refreshed_table(k.take(j as int), l) != k.take(j as int)),
        decreases kept.len() - j,
    {
        let nr = refresh_record_uid(&kept[j], live);
        proof {
            assert(k[j as int] == kept@[j as int]@);
        }
        if nr.uid != kept[j].uid {
            changed = true;
        }
        table.push(nr);
        proof {
            let a = refreshed_table(k.take(j as int), l);
            let b = refreshed_table(k.take(j + 1), l);
            let rr = refresh_record(k[j as int], l);
            assert(b =~= a.push(rr));
            assert(k.take(j + 1) =~= k.take(j as int).push(k[j as int]));
            if b == k.take(j + 1) {
                assert(a =~= b.drop_last());
                assert(k.take(j as int) =~= k.take(j + 1).drop_last());
                assert(rr == b.last());
            }
            if a == k.take(j as int) && rr == k[j as int] {
                assert(b =~= k.take(j + 1));
            }
        }
        j = j + 1;
    }
    assert(k.take(kept@.len() as int) =~= k);
    let table_changed = removed_count > 0 || changed;
    // provision
    let mgr = if contains_live(live, manager) {
        manager.clone()
    } else {
        "com.bmax.apatch".to_owned()
    };
    let ghost m = resolved_manager(manager@, l);
    assert(mgr@ == m);
    let mut records: Vec<PackageConfig> = Vec::new();
    let mut q: usize = 0;
    while q < live.len()
        invariant
            q <= live@.len(),
            l == live_view(live@),
            configs_view(kept@) == k,
            mgr@ == m,
            configs_view(records@) == provisioned(l.take(q as int), k, mode, m),
        decreases live.len() - q,
    {
        proof {
            assert(l.take(q + 1).drop_last() =~= l.take(q as int));
            assert(l[q as int] == live@[q as int]@);
        }
        let e = &live[q];
        let admitted = match mode {
            WhitelistMode::Disabled => false,
            WhitelistMode::NonSystemOnly => !e.is_system_app,
            WhitelistMode::SystemOnly => e.is_system_app,
            WhitelistMode::All => true,
        };
        match e.uid {
            Some(uid) => {
                if admitted && e.pkg != mgr && !contains_config(&kept, &e.pkg)
                    && !contains_config(&records, &e.pkg) {
                    records.push(
                        PackageConfig {
                            pkg: e.pkg.clone(),
                            exclude: 1,
                            allow: 0,
                            uid,
                            to_uid: 0,
                            sctx: "u:r:untrusted_app:s0".to_owned(),
                        },
                    );
                    assert(configs_view(records@) =~= provisioned(l.take(q as int), k, mode, m).push(
                        provisioned_record(l[q as int]),
                    ));
                }
            },
            None => {},
        }
        q = q + 1;
    }
    assert(l.take(live@.len() as int) =~= l);
    let ghost extra = configs_view(records@);
    let mut t: usize = 0;
    while t < table.len()
        invariant
            t <= table@.len(),
            configs_view(records@) == extra + configs_view(table@).take(t as int),
        decreases table.len() - t,
    {
        let ghost before = records@;
        records.push(copy_config(&table[t]));
        assert(configs_view(table@)[t as int] == table@[t as int]@);
        assert(configs_view(records@) =~= configs_view(before).push(table@[t as int]@));
        assert(configs_view(table@).take(t + 1) =~= configs_view(table@).take(t as int).push(
            table@[t as int]@,
        ));
        assert(configs_view(records@) =~= extra + configs_view(table@).take(t + 1));
        t = t + 1;
    }
    assert(configs_view(table@).take(table@.len() as int) =~= configs_view(table@));
    SyncOutcome { records, table, removed_count, table_changed }
}

} // verus!
