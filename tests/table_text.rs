use apd_core::package::{PackageConfig, WhitelistMode};
use apd_core::privilege::{init_load_package_uid_config, privilege_requests, uids_to_revoke, PrivilegeRequest};
use apd_core::table::{
    decode_package_config, encode_package_config, manager_package_id, parse_package_line,
    parse_package_list, whitelist_mode,
};

fn row(pkg: &str, exclude: i32, allow: i32, uid: i32, to_uid: i32, sctx: &str) -> PackageConfig {
    PackageConfig { pkg: pkg.to_string(), exclude, allow, uid, to_uid, sctx: sctx.to_string() }
}

#[test]
fn listing_line_of_system_app() {
    let l = parse_package_line("com.android.phone 1001 0 /data/user/0/com.android.phone platform:privapp 3002,3003 0 @system").unwrap();
    assert_eq!(l.pkg, "com.android.phone");
    assert_eq!(l.uid, Some(1001));
    assert!(l.is_system_app);
}

#[test]
fn listing_line_of_user_app() {
    let l = parse_package_line("com.example.app\t10123   0 /data/user/0/com.example.app default:targetSdkVersion=33 3003 0 5").unwrap();
    assert_eq!(l.pkg, "com.example.app");
    assert_eq!(l.uid, Some(10123));
    assert!(!l.is_system_app);
}

#[test]
fn listing_line_too_short_or_bad_uid() {
    assert!(parse_package_line("com.a 10001").is_none());
    assert!(parse_package_line("   ").is_none());
    let l = parse_package_line("com.a notanumber x").unwrap();
    assert_eq!(l.uid, None);
}

#[test]
fn listing_skips_malformed_lines() {
    let lines = vec![
        "com.a 10001 0 /d".to_string(),
        "".to_string(),
        "broken".to_string(),
        "com.b 10002 0 @system".to_string(),
    ];
    let l = parse_package_list(&lines);
    assert_eq!(l.len(), 2);
    assert_eq!(l[0].pkg, "com.a");
    assert_eq!(l[1].pkg, "com.b");
    assert!(l[1].is_system_app);
}

#[test]
fn whitelist_file_values() {
    assert_eq!(whitelist_mode(&Some(" 2\n".to_string())), WhitelistMode::All);
    assert_eq!(whitelist_mode(&Some("0".to_string())), WhitelistMode::NonSystemOnly);
    assert_eq!(whitelist_mode(&Some("1\n".to_string())), WhitelistMode::SystemOnly);
    assert_eq!(whitelist_mode(&Some("+2".to_string())), WhitelistMode::All);
    assert_eq!(whitelist_mode(&Some("-1".to_string())), WhitelistMode::Disabled);
    assert_eq!(whitelist_mode(&Some("7".to_string())), WhitelistMode::Disabled);
    assert_eq!(whitelist_mode(&Some("two".to_string())), WhitelistMode::Disabled);
    assert_eq!(whitelist_mode(&None), WhitelistMode::Disabled);
}

#[test]
fn manager_file_values() {
    assert_eq!(manager_package_id(&Some("  com.my.manager\n".to_string())), "com.my.manager");
    assert_eq!(manager_package_id(&None), "me.bmax.apatch");
}

#[test]
fn table_encodes_one_line_per_row() {
    let rows = vec![row("com.a", 1, 0, 10001, 0, "u:r:untrusted_app:s0"), row("com.b", 0, 1, -5, 2000, "u:r:magisk:s0")];
    let bytes = encode_package_config(&rows);
    assert_eq!(
        String::from_utf8(bytes).unwrap(),
        "com.a,1,0,10001,0,u:r:untrusted_app:s0\ncom.b,0,1,-5,2000,u:r:magisk:s0\n"
    );
}

#[test]
fn table_quotes_field_with_comma() {
    let rows = vec![row("com.a", 0, 1, 10001, 0, "a,b")];
    let bytes = encode_package_config(&rows);
    assert_eq!(String::from_utf8(bytes.clone()).unwrap(), "com.a,0,1,10001,0,\"a,b\"\n");
    let back = decode_package_config(&bytes);
    assert_eq!(back[0].sctx, "a,b");
}

#[test]
fn table_round_trip() {
    let rows = vec![row("com.a", 1, 0, 10001, 0, "u:r:untrusted_app:s0"), row("com.b", 0, 1, 110002, 0, "u:r:magisk:s0")];
    let back = decode_package_config(&encode_package_config(&rows));
    assert_eq!(back.len(), 2);
    assert_eq!(back[1].pkg, "com.b");
    assert_eq!((back[1].exclude, back[1].allow, back[1].uid, back[1].to_uid), (0, 1, 110002, 0));
    assert_eq!(back[1].sctx, "u:r:magisk:s0");
}

#[test]
fn table_skips_malformed_rows() {
    assert!(decode_package_config(b"com.a,1,0,10001,0\n").is_empty());
    assert!(decode_package_config(b"com.a,yes,0,10001,0,ctx\n").is_empty());
    let t = decode_package_config(b"com.a,1,0,10001,0,ctx\ncom.b,1,0,x,0,ctx\ncom.c,0,1\ncom.d,0,1,10004,0,ctx2\n");
    let names: Vec<&str> = t.iter().map(|r| r.pkg.as_str()).collect();
    assert_eq!(names, vec!["com.a", "com.d"]);
    assert_eq!(t[1].sctx, "ctx2");
    assert_eq!(decode_package_config(b"").len(), 0);
}

#[test]
fn table_skips_row_that_is_not_utf8() {
    let t = decode_package_config(b"com.a,1,0,10001,0,ctx\ncom.\xff,1,0,10002,0,ctx\ncom.c,1,0,10003,0,ctx\n");
    let names: Vec<&str> = t.iter().map(|r| r.pkg.as_str()).collect();
    assert_eq!(names, vec!["com.a", "com.c"]);
}

#[test]
fn requests_follow_flags() {
    let rows = vec![
        row("grant", 0, 1, 10001, 0, "u:r:magisk:s0"),
        row("deny", 1, 0, 10002, 0, "x"),
        row("both", 1, 1, 10003, 0, "x"),
        row("none", 0, 0, 10004, 0, "x"),
    ];
    let reqs = privilege_requests(&rows);
    assert_eq!(reqs.len(), 2);
    match &reqs[0] {
        PrivilegeRequest::Grant(p) => {
            assert_eq!((p.uid, p.to_uid), (10001, 0));
            assert_eq!(&p.scontext[..13], b"u:r:magisk:s0");
            assert!(p.scontext[13..].iter().all(|b| *b == 0));
        }
        _ => panic!("expected a grant"),
    }
    assert!(matches!(reqs[1], PrivilegeRequest::Exclude(10002)));
}

#[test]
fn boot_requests_need_a_usable_key() {
    let rows = vec![row("grant", 0, 1, 10001, 0, "u:r:magisk:s0")];
    assert_eq!(init_load_package_uid_config(&rows, &None).len(), 0);
    assert_eq!(init_load_package_uid_config(&rows, &Some("ab\0c".to_string())).len(), 0);
    assert_eq!(init_load_package_uid_config(&rows, &Some("key".to_string())).len(), 1);
}

#[test]
fn revoke_spares_root_and_shell() {
    assert_eq!(uids_to_revoke(&vec![0, 2000, 10001, 0, 10002]), vec![10001, 10002]);
    assert!(uids_to_revoke(&vec![]).is_empty());
}
