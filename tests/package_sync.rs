use apd_core::package::{
    refresh_uid, synchronize_package_config, LivePackage, PackageConfig, SyncOutcome,
    WhitelistMode,
};

fn row(pkg: &str, exclude: i32, allow: i32, uid: i32) -> PackageConfig {
    PackageConfig {
        pkg: pkg.to_string(),
        exclude,
        allow,
        uid,
        to_uid: 0,
        sctx: "u:r:untrusted_app:s0".to_string(),
    }
}

fn live(pkg: &str, uid: i32, is_system_app: bool) -> LivePackage {
    LivePackage { pkg: pkg.to_string(), uid: Some(uid), is_system_app }
}

fn sync(
    persisted: &Vec<PackageConfig>,
    live: &Vec<LivePackage>,
    mode: WhitelistMode,
    manager: &str,
) -> SyncOutcome {
    synchronize_package_config(persisted, live, mode, &manager.to_string())
}

fn names(rows: &[PackageConfig]) -> Vec<String> {
    rows.iter().map(|r| r.pkg.clone()).collect()
}

#[test]
fn prune_removes_uninstalled_rows() {
    let persisted = vec![row("com.a", 0, 1, 10001), row("com.gone", 0, 1, 10002), row("com.b", 1, 0, 10003)];
    let l = vec![live("com.a", 10001, false), live("com.b", 10003, false)];
    let out = sync(&persisted, &l, WhitelistMode::Disabled, "me.bmax.apatch");
    assert_eq!(names(&out.table), vec!["com.a", "com.b"]);
    assert_eq!(out.removed_count, 1);
    assert!(out.table_changed);
    assert_eq!(names(&out.records), vec!["com.a", "com.b"]);
}

#[test]
fn prune_counts_every_absent_row() {
    let persisted = vec![row("x1", 0, 1, 1), row("x2", 0, 1, 2), row("com.a", 0, 1, 10001), row("x3", 0, 1, 3)];
    let l = vec![live("com.a", 10001, false)];
    let out = sync(&persisted, &l, WhitelistMode::Disabled, "me.bmax.apatch");
    assert_eq!(out.removed_count, 3);
    assert_eq!(names(&out.table), vec!["com.a"]);
}

#[test]
fn duplicate_rows_keep_first_occurrence() {
    let persisted = vec![row("com.a", 0, 1, 10001), row("com.a", 1, 0, 10001)];
    let l = vec![live("com.a", 10001, false)];
    let out = sync(&persisted, &l, WhitelistMode::Disabled, "me.bmax.apatch");
    assert_eq!(out.table.len(), 1);
    assert_eq!(out.table[0].allow, 1);
    assert_eq!(out.removed_count, 1);
    assert!(out.table_changed);
}

#[test]
fn uid_unchanged_app_id_is_no_rewrite() {
    let persisted = vec![row("com.a", 0, 1, 100234)];
    let l = vec![live("com.a", 234, false)];
    let out = sync(&persisted, &l, WhitelistMode::All, "me.bmax.apatch");
    assert_eq!(out.table[0].uid, 100234);
    assert!(!out.table_changed);
    assert_eq!(out.removed_count, 0);
}

#[test]
fn uid_profile_preserved_app_id_replaced() {
    let persisted = vec![row("com.a", 0, 1, 234)];
    let l = vec![live("com.a", 100456, false)];
    let out = sync(&persisted, &l, WhitelistMode::All, "me.bmax.apatch");
    assert_eq!(out.table[0].uid, 456);
    assert!(out.table_changed);
}

#[test]
fn refresh_uid_formula() {
    assert_eq!(refresh_uid(100234, 234), 100234);
    assert_eq!(refresh_uid(234, 100456), 456);
    assert_eq!(refresh_uid(100234, 567), 100567);
    assert_eq!(refresh_uid(1100001, 10099), 1110099);
    // a result outside i32 leaves the stored uid as it is
    assert_eq!(refresh_uid(2147400000, 99999), 2147400000);
}

#[test]
fn whitelist_modes_for_non_system_package() {
    let l = vec![live("com.new", 10050, false)];
    for (mode, expect) in [
        (WhitelistMode::NonSystemOnly, true),
        (WhitelistMode::All, true),
        (WhitelistMode::SystemOnly, false),
        (WhitelistMode::Disabled, false),
    ] {
        let out = sync(&vec![], &l, mode, "me.bmax.apatch");
        assert_eq!(out.records.len() == 1, expect);
        assert!(out.table.is_empty());
        assert!(!out.table_changed);
    }
}

#[test]
fn whitelist_modes_for_system_package() {
    let l = vec![live("android.sys", 1000, true)];
    assert_eq!(sync(&vec![], &l, WhitelistMode::SystemOnly, "m").records.len(), 1);
    assert_eq!(sync(&vec![], &l, WhitelistMode::All, "m").records.len(), 1);
    assert_eq!(sync(&vec![], &l, WhitelistMode::NonSystemOnly, "m").records.len(), 0);
    assert_eq!(sync(&vec![], &l, WhitelistMode::Disabled, "m").records.len(), 0);
}

#[test]
fn provisioned_row_is_default_deny() {
    let l = vec![live("com.new", 10050, false)];
    let out = sync(&vec![], &l, WhitelistMode::All, "me.bmax.apatch");
    let r = &out.records[0];
    assert_eq!(r.pkg, "com.new");
    assert_eq!((r.exclude, r.allow, r.uid, r.to_uid), (1, 0, 10050, 0));
    assert_eq!(r.sctx, "u:r:untrusted_app:s0");
}

#[test]
fn manager_is_never_provisioned() {
    let l = vec![live("me.bmax.apatch", 10060, false), live("com.other", 10061, false)];
    for mode in [WhitelistMode::All, WhitelistMode::NonSystemOnly] {
        let out = sync(&vec![], &l, mode, "me.bmax.apatch");
        assert_eq!(names(&out.records), vec!["com.other"]);
    }
}

#[test]
fn absent_manager_falls_back() {
    // the configured manager is not installed: the fallback identity is exempt instead
    let l = vec![live("com.bmax.apatch", 10060, false), live("me.bmax.apatch.x", 10061, false)];
    let out = sync(&vec![], &l, WhitelistMode::All, "me.bmax.apatch");
    assert_eq!(names(&out.records), vec!["me.bmax.apatch.x"]);
}

#[test]
fn provisioned_rows_come_first() {
    let persisted = vec![row("com.old", 0, 1, 10001)];
    let l = vec![live("com.old", 10001, false), live("com.new1", 10002, false), live("com.new2", 10003, false)];
    let out = sync(&persisted, &l, WhitelistMode::All, "me.bmax.apatch");
    assert_eq!(names(&out.records), vec!["com.new1", "com.new2", "com.old"]);
    assert_eq!(names(&out.table), vec!["com.old"]);
}

#[test]
fn unparsable_listing_uid_keeps_row_without_refresh() {
    let persisted = vec![row("com.a", 0, 1, 10001)];
    let l = vec![
        LivePackage { pkg: "com.a".to_string(), uid: None, is_system_app: false },
        LivePackage { pkg: "com.b".to_string(), uid: None, is_system_app: false },
    ];
    let out = sync(&persisted, &l, WhitelistMode::All, "me.bmax.apatch");
    assert_eq!(names(&out.records), vec!["com.a"]);
    assert_eq!(out.table[0].uid, 10001);
    assert!(!out.table_changed);
}

#[test]
fn second_pass_is_idempotent() {
    let persisted = vec![row("com.a", 0, 1, 234), row("gone", 0, 1, 5), row("com.b", 1, 0, 10077)];
    let l = vec![live("com.a", 100456, false), live("com.b", 10077, false), live("com.c", 10078, false)];
    let first = sync(&persisted, &l, WhitelistMode::All, "me.bmax.apatch");
    assert!(first.table_changed);
    let on_disk = first.table;
    let second = sync(&on_disk, &l, WhitelistMode::All, "me.bmax.apatch");
    assert!(!second.table_changed);
    assert_eq!(second.removed_count, 0);
    let a: Vec<(String, i32, i32, i32)> = first.records.iter().map(|r| (r.pkg.clone(), r.exclude, r.allow, r.uid)).collect();
    let b: Vec<(String, i32, i32, i32)> = second.records.iter().map(|r| (r.pkg.clone(), r.exclude, r.allow, r.uid)).collect();
    assert_eq!(a, b);
}

#[test]
fn empty_inputs_give_empty_outcome() {
    let out = sync(&vec![], &vec![], WhitelistMode::All, "me.bmax.apatch");
    assert!(out.records.is_empty());
    assert!(out.table.is_empty());
    assert_eq!(out.removed_count, 0);
    assert!(!out.table_changed);
}
