//! Properties of reconciliation, proved over its specification.

use vstd::prelude::*;
use crate::package::{
    has_record, is_live, kept_records, provisioned, refresh_record, refreshed_table, refreshed_uid,
    resolved_manager, should_provision, sync_changed, sync_records, sync_table, uid_after_refresh, app_id,
    LivePackageView, PackageConfigView, WhitelistMode, PER_USER_RANGE,
};

verus! {

/// No package has two rows.
pub open spec fn unique_rows(t: Seq<PackageConfigView>) -> bool {
    forall|i: int, j: int| 0 <= i < j < t.len() ==> (#[trigger] t[i]).pkg != (#[trigger] t[j]).pkg
}

pub open spec fn live_uids_nonneg(live: Seq<LivePackageView>) -> bool {
    forall|i: int| 0 <= i < live.len() && (#[trigger] live[i]).uid is Some ==> live[i].uid->0 >= 0
}

pub open spec fn row_uids_nonneg(t: Seq<PackageConfigView>) -> bool {
    forall|i: int| 0 <= i < t.len() ==> (#[trigger] t[i]).uid >= 0
}

pub open spec fn all_live(t: Seq<PackageConfigView>, live: Seq<LivePackageView>) -> bool {
    forall|i: int| 0 <= i < t.len() ==> is_live(live, (#[trigger] t[i]).pkg)
}

/// The persisted rows whose package is not installed.
pub open spec fn absent_count(p: Seq<PackageConfigView>, live: Seq<LivePackageView>) -> nat
    decreases p.len(),
{
    if p.len() == 0 {
        0
    } else {
        absent_count(p.drop_last(), live) + if is_live(live, p.last().pkg) {
            0nat
        } else {
            1nat
        }
    }
}

proof fn lemma_kept_shape(p: Seq<PackageConfigView>, live: Seq<LivePackageView>)
    ensures
        unique_rows(kept_records(p, live)),
        all_live(kept_records(p, live), live),
        forall|n: Seq<char>| has_record(kept_records(p, live), n) ==> has_record(p, n),
        forall|i: int|
            0 <= i < kept_records(p, live).len() ==> row_uids_nonneg(p) ==> (#[trigger] kept_records(
                p,
                live,
            )[i]).uid >= 0,
    decreases p.len(),
{
    if p.len() > 0 {
        let d = p.drop_last();
        lemma_kept_shape(d, live);
        let k = kept_records(d, live);
        assert forall|n: Seq<char>| has_record(kept_records(p, live), n) implies has_record(
            p,
            n,
        ) by {
            let kk = kept_records(p, live);
            let i = choose|i: int| 0 <= i < kk.len() && (#[trigger] kk[i]).pkg == n;
            if i < k.len() {
                assert(kk[i] == k[i]);
                assert(has_record(d, n));
                let j = choose|j: int| 0 <= j < d.len() && (#[trigger] d[j]).pkg == n;
                assert(p[j] == d[j]);
            } else {
                assert(p[p.len() - 1] == p.last());
            }
        }
        if row_uids_nonneg(p) {
            assert forall|i: int| 0 <= i < d.len() implies (#[trigger] d[i]).uid >= 0 by {
                assert(d[i] == p[i]);
            }
        }
    }
}

proof fn lemma_kept_fixed(t: Seq<PackageConfigView>, live: Seq<LivePackageView>)
    requires
        unique_rows(t),
        all_live(t, live),
    ensures
        kept_records(t, live) == t,
    decreases t.len(),
{
    if t.len() > 0 {
        let d = t.drop_last();
        assert(unique_rows(d)) by {
            assert forall|i: int, j: int| 0 <= i < j < d.len() implies (#[trigger] d[i]).pkg != (
            #[trigger] d[j]).pkg by {
                assert(d[i] == t[i] && d[j] == t[j]);
            }
        }
        assert(all_live(d, live)) by {
            assert forall|i: int| 0 <= i < d.len() implies is_live(live, (#[trigger] d[i]).pkg) by {
                assert(d[i] == t[i]);
            }
        }
        lemma_kept_fixed(d, live);
        assert(is_live(live, t[t.len() - 1].pkg));
        assert(!has_record(d, t.last().pkg)) by {
            if has_record(d, t.last().pkg) {
                let j = choose|j: int| 0 <= j < d.len() && (#[trigger] d[j]).pkg == t.last().pkg;
                assert(d[j] == t[j]);
            }
        }
        assert(t =~= d.push(t.last()));
    }
}

proof fn lemma_app_id_range(u: int)
    ensures
        -100000 < app_id(u) < 100000,
        u >= 0 ==> 0 <= app_id(u) && app_id(u) <= u,
{
}

/// The profile part of a uid.
pub open spec fn profile_part(u: int) -> int {
    u - app_id(u)
}

/// The app id of the last live entry of `n` whose app id still fits beside
/// the profile part `p`.
pub open spec fn last_fit(p: int, n: Seq<char>, live: Seq<LivePackageView>) -> Option<int>
    decreases live.len(),
{
    if live.len() == 0 {
        None
    } else {
        let x = live.last();
        if x.pkg == n && x.uid is Some && p + app_id(x.uid->0 as int) <= i32::MAX {
            Some(app_id(x.uid->0 as int))
        } else {
            last_fit(p, n, live.drop_last())
        }
    }
}

proof fn lemma_profile_with(u: int, a: int)
    requires
        u >= 0,
        0 <= a < PER_USER_RANGE,
    ensures
        profile_part(u) >= 0,
        app_id(profile_part(u) + a) == a,
        profile_part(profile_part(u) + a) == profile_part(u),
{
    let m = PER_USER_RANGE as int;
    let q = u / m;
    assert(u == q * m + u % m) by (nonlinear_arith)
        requires
            q == u / m,
            m == 100000,
    ;
    assert(q >= 0) by (nonlinear_arith)
        requires
            q == u / m,
            u >= 0,
            m == 100000,
    ;
    assert(0 <= u % m < m);
    assert(profile_part(u) == q * m);
    assert(q * m >= 0) by (nonlinear_arith)
        requires
            q >= 0,
            m == 100000,
    ;
    assert((q * m + a) % m == a) by (nonlinear_arith)
        requires
            0 <= a < m,
            q >= 0,
            m == 100000,
    ;
}

proof fn lemma_uid_refresh_shape(u: i32, n: Seq<char>, live: Seq<LivePackageView>)
    requires
        u >= 0,
        live_uids_nonneg(live),
    ensures
        uid_after_refresh(u, n, live) as int == match last_fit(profile_part(u as int), n, live) {
            Some(a) => profile_part(u as int) + a,
            None => u as int,
        },
        uid_after_refresh(u, n, live) >= 0,
        profile_part(uid_after_refresh(u, n, live) as int) == profile_part(u as int),
    decreases live.len(),
{
    if live.len() > 0 {
        let d = live.drop_last();
        let x = live.last();
        assert(x == live[live.len() - 1]);
        assert(live_uids_nonneg(d)) by {
            assert forall|i: int| 0 <= i < d.len() && (#[trigger] d[i]).uid is Some implies d[i].uid->0
                >= 0 by {
                assert(d[i] == live[i]);
            }
        }
        lemma_uid_refresh_shape(u, n, d);
        let w = uid_after_refresh(u, n, d);
        let p = profile_part(u as int);
        lemma_app_id_range(w as int);
        lemma_profile_with(u as int, 0);
        if x.pkg == n && x.uid is Some {
            let b = x.uid->0;
            lemma_app_id_range(b as int);
            let ab = app_id(b as int);
            lemma_profile_with(u as int, ab);
            assert(w as int == p + app_id(w as int));
            if p + ab <= i32::MAX {
                assert(refreshed_uid(w, b) as int == p + ab);
            } else {
                assert(app_id(w as int) != ab);
                assert(refreshed_uid(w, b) == w);
            }
        }
    }
}

proof fn lemma_uid_refresh_stable(u: i32, n: Seq<char>, live: Seq<LivePackageView>)
    requires
        u >= 0,
        live_uids_nonneg(live),
    ensures
        uid_after_refresh(uid_after_refresh(u, n, live), n, live) == uid_after_refresh(u, n, live),
        uid_after_refresh(u, n, live) >= 0,
{
    let v = uid_after_refresh(u, n, live);
    lemma_uid_refresh_shape(u, n, live);
    lemma_uid_refresh_shape(v, n, live);
}

proof fn lemma_provisioned_same_names(
    live: Seq<LivePackageView>,
    t1: Seq<PackageConfigView>,
    t2: Seq<PackageConfigView>,
    mode: WhitelistMode,
    manager: Seq<char>,
)
    requires
        forall|n: Seq<char>| has_record(t1, n) == has_record(t2, n),
    ensures
        provisioned(live, t1, mode, manager) == provisioned(live, t2, mode, manager),
    decreases live.len(),
{
    if live.len() > 0 {
        lemma_provisioned_same_names(live.drop_last(), t1, t2, mode, manager);
    }
}

/// Reconciliation is idempotent: a second pass over the table that the first
/// one left on disk (the new table when it was written back, the old one
/// otherwise), with the same live list, returns the same rows and needs no
/// write. This holds where no uid is negative.
pub proof fn lemma_synchronize_idempotent(
    persisted: Seq<PackageConfigView>,
    live: Seq<LivePackageView>,
    mode: WhitelistMode,
    manager: Seq<char>,
)
    requires
        live_uids_nonneg(live),
        row_uids_nonneg(persisted),
    ensures
        ({
            let on_disk = if sync_changed(persisted, live) {
                sync_table(persisted, live)
            } else {
                persisted
            };
            &&& sync_records(on_disk, live, mode, manager) == sync_records(
                persisted,
                live,
                mode,
                manager,
            )
            &&& !sync_changed(on_disk, live)
        }),
{
    if sync_changed(persisted, live) {
        let k = kept_records(persisted, live);
        let t = sync_table(persisted, live);
        lemma_kept_shape(persisted, live);
        assert(t.len() == k.len());
        assert(forall|i: int| 0 <= i < t.len() ==> (#[trigger] t[i]).pkg == k[i].pkg);
        assert(unique_rows(t)) by {
            assert forall|i: int, j: int| 0 <= i < j < t.len() implies (#[trigger] t[i]).pkg != (
            #[trigger] t[j]).pkg by {
                assert(k[i].pkg != k[j].pkg);
            }
        }
        assert(all_live(t, live)) by {
            assert forall|i: int| 0 <= i < t.len() implies is_live(live, (#[trigger] t[i]).pkg) by {
                assert(is_live(live, k[i].pkg));
            }
        }
        lemma_kept_fixed(t, live);
        assert forall|i: int| 0 <= i < t.len() implies refresh_record(#[trigger] t[i], live)
            == t[i] by {
            assert(k[i].uid >= 0);
            lemma_uid_refresh_stable(k[i].uid, k[i].pkg, live);
        }
        assert(refreshed_table(t, live) =~= t);
        assert forall|n: Seq<char>| has_record(t, n) == has_record(k, n) by {
            if has_record(t, n) {
                let i = choose|i: int| 0 <= i < t.len() && (#[trigger] t[i]).pkg == n;
                assert(k[i].pkg == n);
            }
            if has_record(k, n) {
                let i = choose|i: int| 0 <= i < k.len() && (#[trigger] k[i]).pkg == n;
                assert(t[i].pkg == n);
            }
        }
        lemma_provisioned_same_names(live, t, k, mode, resolved_manager(manager, live));
    }
}


/// Pruning removes exactly the rows of packages that are no longer
/// installed, when no package has two persisted rows.
pub proof fn lemma_prune_count(persisted: Seq<PackageConfigView>, live: Seq<LivePackageView>)
    requires
        unique_rows(persisted),
    ensures
        persisted.len() - kept_records(persisted, live).len() == absent_count(persisted, live),
    decreases persisted.len(),
{
    if persisted.len() > 0 {
        let d = persisted.drop_last();
        let x = persisted.last();
        assert(x == persisted[persisted.len() - 1]);
        assert(unique_rows(d)) by {
            assert forall|i: int, j: int| 0 <= i < j < d.len() implies (#[trigger] d[i]).pkg != (
            #[trigger] d[j]).pkg by {
                assert(d[i] == persisted[i] && d[j] == persisted[j]);
            }
        }
        lemma_prune_count(d, live);
        lemma_kept_shape(d, live);
        assert(!has_record(d, x.pkg)) by {
            if has_record(d, x.pkg) {
                let j = choose|j: int| 0 <= j < d.len() && (#[trigger] d[j]).pkg == x.pkg;
                assert(d[j] == persisted[j]);
            }
        }
    }
}

proof fn lemma_provisioned_names(
    live: Seq<LivePackageView>,
    t: Seq<PackageConfigView>,
    mode: WhitelistMode,
    manager: Seq<char>,
)
    ensures
        forall|n: Seq<char>|
            has_record(provisioned(live, t, mode, manager), n) <==> exists|j: int|
                0 <= j < live.len() && (#[trigger] live[j]).pkg == n && should_provision(
                    live[j],
                    t,
                    mode,
                    manager,
                ),
    decreases live.len(),
{
    if live.len() > 0 {
        let d = live.drop_last();
        let x = live.last();
        assert(x == live[live.len() - 1]);
        lemma_provisioned_names(d, t, mode, manager);
        let e = provisioned(d, t, mode, manager);
        let r = provisioned(live, t, mode, manager);
        assert forall|n: Seq<char>| has_record(r, n) <==> exists|j: int|
            0 <= j < live.len() && (#[trigger] live[j]).pkg == n && should_provision(
                live[j],
                t,
                mode,
                manager,
            ) by {
            if has_record(r, n) {
                let i = choose|i: int| 0 <= i < r.len() && (#[trigger] r[i]).pkg == n;
                if i < e.len() {
                    assert(r[i] == e[i]);
                    assert(has_record(e, n));
                    let j = choose|j: int|
                        0 <= j < d.len() && (#[trigger] d[j]).pkg == n && should_provision(
                            d[j],
                            t,
                            mode,
                            manager,
                        );
                    assert(d[j] == live[j]);
                } else {
                    assert(live[live.len() - 1].pkg == n);
                }
            }
            if exists|j: int|
                0 <= j < live.len() && (#[trigger] live[j]).pkg == n && should_provision(
                    live[j],
                    t,
                    mode,
                    manager,
                ) {
                let j = choose|j: int|
                    0 <= j < live.len() && (#[trigger] live[j]).pkg == n && should_provision(
                        live[j],
                        t,
                        mode,
                        manager,
                    );
                if j < d.len() {
                    assert(d[j] == live[j]);
                    assert(has_record(e, n));
                }
                if has_record(e, n) {
                    let i = choose|i: int| 0 <= i < e.len() && (#[trigger] e[i]).pkg == n;
                    assert(r[i] == e[i]);
                } else {
                    assert(j == live.len() - 1);
                    assert(r[e.len() as int].pkg == n);
                }
            }
        }
    }
}

/// For an installed non-system package with no row, that is not the manager,
/// reconciliation returns a row for it exactly under `NonSystemOnly` and `All`
/// (where the listing does not also give the package as a system app).
pub proof fn lemma_whitelist_non_system(
    persisted: Seq<PackageConfigView>,
    live: Seq<LivePackageView>,
    mode: WhitelistMode,
    manager: Seq<char>,
    i: int,
)
    requires
        0 <= i < live.len(),
        forall|j: int| 0 <= j < live.len() && (#[trigger] live[j]).pkg == live[i].pkg ==> !live[j].is_system_app,
        live[i].uid is Some,
        !has_record(persisted, live[i].pkg),
        live[i].pkg != resolved_manager(manager, live),
    ensures
        has_record(sync_records(persisted, live, mode, manager), live[i].pkg) <==> (mode
            == WhitelistMode::NonSystemOnly || mode == WhitelistMode::All),
{
    let n = live[i].pkg;
    let k = kept_records(persisted, live);
    let m = resolved_manager(manager, live);
    let prov = provisioned(live, k, mode, m);
    let t = sync_table(persisted, live);
    let all = sync_records(persisted, live, mode, manager);
    lemma_kept_shape(persisted, live);
    lemma_provisioned_names(live, k, mode, m);
    assert(!has_record(k, n));
    assert(!has_record(t, n)) by {
        if has_record(t, n) {
            let j = choose|j: int| 0 <= j < t.len() && (#[trigger] t[j]).pkg == n;
            assert(k[j].pkg == n);
        }
    }
    assert(has_record(all, n) == has_record(prov, n)) by {
        if has_record(all, n) {
            let j = choose|j: int| 0 <= j < all.len() && (#[trigger] all[j]).pkg == n;
            if j >= prov.len() {
                assert(t[j - prov.len()] == all[j]);
            } else {
                assert(prov[j] == all[j]);
            }
        }
        if has_record(prov, n) {
            let j = choose|j: int| 0 <= j < prov.len() && (#[trigger] prov[j]).pkg == n;
            assert(all[j] == prov[j]);
        }
    }
    if has_record(prov, n) {
        let j = choose|j: int|
            0 <= j < live.len() && (#[trigger] live[j]).pkg == n && should_provision(
                live[j],
                k,
                mode,
                m,
            );
        assert(!live[j].is_system_app);
    }
    if mode == WhitelistMode::NonSystemOnly || mode == WhitelistMode::All {
        assert(should_provision(live[i], k, mode, m));
    }
}

/// The manager package is never given a created row, whatever the mode.
pub proof fn lemma_manager_exempt(
    persisted: Seq<PackageConfigView>,
    live: Seq<LivePackageView>,
    mode: WhitelistMode,
    manager: Seq<char>,
)
    ensures
        ({
            let m = resolved_manager(manager, live);
            let created = provisioned(live, kept_records(persisted, live), mode, m);
            forall|i: int| 0 <= i < created.len() ==> (#[trigger] created[i]).pkg != m
        }),
{
    let m = resolved_manager(manager, live);
    let k = kept_records(persisted, live);
    let created = provisioned(live, k, mode, m);
    lemma_provisioned_names(live, k, mode, m);
    assert forall|i: int| 0 <= i < created.len() implies (#[trigger] created[i]).pkg != m by {
        if created[i].pkg == m {
            assert(has_record(created, m));
        }
    }
}


proof fn lemma_kept_keeps(p: Seq<PackageConfigView>, live: Seq<LivePackageView>, n: Seq<char>)
    requires
        has_record(p, n),
        is_live(live, n),
    ensures
        has_record(kept_records(p, live), n),
    decreases p.len(),
{
    let d = p.drop_last();
    let k = kept_records(d, live);
    if p.last().pkg == n {
        if has_record(k, n) {
            let i = choose|i: int| 0 <= i < k.len() && (#[trigger] k[i]).pkg == n;
            assert(kept_records(p, live)[i] == k[i]);
        } else {
            let kk = kept_records(p, live);
            assert(kk[kk.len() - 1].pkg == n);
        }
    } else {
        let j = choose|j: int| 0 <= j < p.len() && (#[trigger] p[j]).pkg == n;
        assert(d[j] == p[j]);
        lemma_kept_keeps(d, live, n);
        let i = choose|i: int| 0 <= i < k.len() && (#[trigger] k[i]).pkg == n;
        assert(kept_records(p, live)[i] == k[i]);
    }
}

/// What pruning leaves: every returned row is of an installed package, the
/// persisted part holds each package at most once, and every installed
/// package that had a row still has one.
pub proof fn lemma_synchronized_rows(
    persisted: Seq<PackageConfigView>,
    live: Seq<LivePackageView>,
    mode: WhitelistMode,
    manager: Seq<char>,
)
    ensures
        forall|i: int|
            0 <= i < sync_records(persisted, live, mode, manager).len() ==> is_live(
                live,
                (#[trigger] sync_records(persisted, live, mode, manager)[i]).pkg,
            ),
        unique_rows(sync_table(persisted, live)),
        forall|n: Seq<char>|
            has_record(persisted, n) && is_live(live, n) ==> has_record(
                sync_table(persisted, live),
                n,
            ),
{
    let k = kept_records(persisted, live);
    let t = sync_table(persisted, live);
    let m = resolved_manager(manager, live);
    let prov = provisioned(live, k, mode, m);
    let all = sync_records(persisted, live, mode, manager);
    lemma_kept_shape(persisted, live);
    lemma_provisioned_names(live, k, mode, m);
    assert forall|i: int| 0 <= i < all.len() implies is_live(live, (#[trigger] all[i]).pkg) by {
        if i < prov.len() {
            assert(all[i] == prov[i]);
            assert(has_record(prov, prov[i].pkg));
            let j = choose|j: int|
                0 <= j < live.len() && (#[trigger] live[j]).pkg == prov[i].pkg && should_provision(
                    live[j],
                    k,
                    mode,
                    m,
                );
        } else {
            assert(all[i] == t[i - prov.len()]);
            assert(t[i - prov.len()].pkg == k[i - prov.len()].pkg);
        }
    }
    assert forall|i: int, j: int| 0 <= i < j < t.len() implies (#[trigger] t[i]).pkg != (
    #[trigger] t[j]).pkg by {
        assert(t[i].pkg == k[i].pkg && t[j].pkg == k[j].pkg);
    }
    assert forall|n: Seq<char>| has_record(persisted, n) && is_live(live, n) implies has_record(
        t,
        n,
    ) by {
        lemma_kept_keeps(persisted, live, n);
        let i = choose|i: int| 0 <= i < k.len() && (#[trigger] k[i]).pkg == n;
        assert(t[i].pkg == n);
    }
}

} // verus!
