use apd_core::kpm::{
    _find_kpm_field, install_kpm, kpm_load_plan, list_kpms, set_kpm_enabled, stage_map,
    uninstall_kpm, KpmLoadPlan, KPM_STAGE_BOOT_COMPLETED, KPM_STAGE_POSTFS_DATA,
    KPM_STAGE_POSTMOUNT, KPM_STAGE_SERVICE, KPM_STAGE_UNKNOWN,
};

fn record(name: &[u8], status: u8, stage: u8, file: &[u8]) -> Vec<u8> {
    let mut r = vec![b'\n'];
    let mut key = [0u8; 32];
    let n = name.len().min(32);
    key[..n].copy_from_slice(&name[..n]);
    r.extend_from_slice(&key);
    r.push(status);
    r.push(stage);
    r.extend_from_slice(file);
    r
}

#[test]
fn install_then_list_one_enabled_entry() {
    let out = install_kpm(&[], b"mod_a", b"mod_a.kpm", KPM_STAGE_BOOT_COMPLETED);
    assert!(out.removed_files.is_empty());
    assert_eq!(out.store, record(b"mod_a", 1, 0, b"mod_a.kpm"));
    let l = list_kpms(&out.store);
    assert_eq!(l.len(), 1);
    assert_eq!(l[0].name, "mod_a");
    assert!(l[0].enabled);
    assert_eq!(l[0].stage, 0);
    assert_eq!(l[0].file_name, "mod_a.kpm");
}

#[test]
fn uninstall_removes_record_and_names_file() {
    let installed = install_kpm(&[], b"mod_a", b"mod_a.kpm", 0).store;
    let out = uninstall_kpm(&installed, b"mod_a");
    assert_eq!(out.removed_files, vec!["mod_a.kpm".to_string()]);
    assert!(list_kpms(&out.store).is_empty());
}

#[test]
fn install_replaces_same_name() {
    let s1 = install_kpm(&[], b"mod_a", b"old.kpm", 0).store;
    let s2 = install_kpm(&s1, b"mod_b", b"b.kpm", 1).store;
    let out = install_kpm(&s2, b"mod_a", b"new.kpm", 0);
    assert_eq!(out.removed_files, vec!["old.kpm".to_string()]);
    let l = list_kpms(&out.store);
    let names: Vec<(String, String)> = l.iter().map(|e| (e.name.clone(), e.file_name.clone())).collect();
    assert_eq!(names, vec![("mod_b".to_string(), "b.kpm".to_string()), ("mod_a".to_string(), "new.kpm".to_string())]);
}

#[test]
fn uninstall_keeps_other_records_verbatim() {
    let mut store = record(b"mod_a", 1, 0, b"a.kpm");
    store.extend(record(b"mod_b", 0, 2, b"b.kpm"));
    store.extend(record(b"mod_c", 1, 3, b"c.kpm"));
    let out = uninstall_kpm(&store, b"mod_b");
    assert_eq!(out.removed_files, vec!["b.kpm".to_string()]);
    // the leading separator chunk is too short to be a record and is dropped
    let mut expect = record(b"mod_a", 1, 0, b"a.kpm")[1..].to_vec();
    expect.push(b'\n');
    expect.extend_from_slice(&record(b"mod_c", 1, 3, b"c.kpm")[1..]);
    assert_eq!(out.store, expect);
}

#[test]
fn toggle_changes_only_status_byte() {
    let mut store = record(b"mod_a", 1, 0, b"a.kpm");
    store.extend(record(b"mod_b", 1, 2, b"b.kpm"));
    let out = set_kpm_enabled(&store, b"mod_a", false);
    assert_eq!(out.load_file, None);
    let body = &store[1..];
    assert_eq!(out.store.len(), body.len());
    for (i, (x, y)) in body.iter().zip(out.store.iter()).enumerate() {
        if i == 32 {
            assert_eq!((*x, *y), (1, 0));
        } else {
            assert_eq!(x, y);
        }
    }
    let l = list_kpms(&out.store);
    assert!(!l[0].enabled);
    assert!(l[1].enabled);
}

#[test]
fn toggle_enable_names_backing_file() {
    let store = record(b"mod_a", 0, 0, b"a.kpm");
    let out = set_kpm_enabled(&store, b"mod_a", true);
    assert_eq!(out.load_file, Some("a.kpm".to_string()));
    assert!(list_kpms(&out.store)[0].enabled);
    let none = set_kpm_enabled(&store, b"mod_x", true);
    assert_eq!(none.load_file, None);
}

#[test]
fn short_chunks_are_not_records() {
    let mut store = b"\n\nshort\n".to_vec();
    store.extend(record(b"mod_a", 1, 0, b"a.kpm"));
    let l = list_kpms(&store);
    assert_eq!(l.len(), 1);
    assert_eq!(l[0].name, "mod_a");
}

#[test]
fn names_match_on_fixed_width_prefix() {
    let long_a = [b'a'; 40];
    let mut long_b = [b'a'; 40];
    long_b[35] = b'b';
    let store = install_kpm(&[], &long_a, b"a.kpm", 0).store;
    // both names share their first 32 bytes, so they are the same key
    let out = uninstall_kpm(&store, &long_b);
    assert_eq!(out.removed_files, vec!["a.kpm".to_string()]);
    // a name and the same name with a trailing NUL within the width collide too
    let store = install_kpm(&[], b"mod", b"m.kpm", 0).store;
    assert_eq!(uninstall_kpm(&store, b"mod\0").removed_files.len(), 1);
    assert_eq!(uninstall_kpm(&store, b"mo").removed_files.len(), 0);
}

#[test]
fn list_decodes_invalid_utf8_lossily() {
    let store = record(b"mod\xff", 1, 0, b"f.kpm");
    let l = list_kpms(&store);
    assert_eq!(l[0].name, "mod\u{fffd}");
}

#[test]
fn stage_names() {
    assert_eq!(stage_map("boot-completed"), KPM_STAGE_BOOT_COMPLETED);
    assert_eq!(stage_map("service"), KPM_STAGE_SERVICE);
    assert_eq!(stage_map("post-fs-data"), KPM_STAGE_POSTFS_DATA);
    assert_eq!(stage_map("post-mount"), KPM_STAGE_POSTMOUNT);
    assert_eq!(stage_map("late"), KPM_STAGE_UNKNOWN);
    assert_eq!(stage_map(""), 255);
}

#[test]
fn load_plan_selects_enabled_modules_of_stage() {
    let mut store = record(b"a", 1, 1, b"a.kpm");
    store.extend(record(b"b", 0, 1, b"b.kpm"));
    store.extend(record(b"c", 1, 2, b"c.kpm"));
    store.extend(record(b"d", 1, 1, b"d.kpm"));
    match kpm_load_plan(&Some(store.clone()), "service") {
        KpmLoadPlan::Load(files) => assert_eq!(files, vec!["a.kpm".to_string(), "d.kpm".to_string()]),
        _ => panic!("expected files to load"),
    }
    assert!(matches!(kpm_load_plan(&Some(store.clone()), "post-mount"), KpmLoadPlan::NothingToLoad));
    assert!(matches!(kpm_load_plan(&None, "service"), KpmLoadPlan::NothingToLoad));
    assert!(matches!(kpm_load_plan(&Some(store), "nope"), KpmLoadPlan::NotAStage));
}

#[test]
fn module_field_lookup() {
    let content = b"\x7fELF\0\0name=mod_a\0version=1.0\nauthor=x";
    assert_eq!(_find_kpm_field(content, b"name="), Some("mod_a".to_string()));
    assert_eq!(_find_kpm_field(content, b"version="), Some("1.0".to_string()));
    assert_eq!(_find_kpm_field(content, b"author="), Some("x".to_string()));
    assert_eq!(_find_kpm_field(content, b"license="), None);
    assert_eq!(_find_kpm_field(b"name=", b"name="), Some(String::new()));
}

#[test]
fn install_into_registry_of_short_chunks() {
    let out = install_kpm(b"\n\njunk\n", b"mod_a", b"mod_a.kpm", 0);
    let l = list_kpms(&out.store);
    assert_eq!(l.len(), 1);
    assert_eq!(l[0].name, "mod_a");
    assert!(l[0].enabled);
    let gone = uninstall_kpm(&out.store, b"mod_a");
    assert_eq!(gone.removed_files, vec!["mod_a.kpm".to_string()]);
    assert!(list_kpms(&gone.store).is_empty());
}
