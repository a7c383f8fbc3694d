use apd_core::retry::{AfterFailure, AtomicWrite, Retry, WriteStep, MAX_RETRY};
use apd_core::su_profile::{convert_string_to_u8_array, SuProfile, SUPERCALL_SCONTEXT_LEN};
use apd_core::supercall::{error_handler, pack_offset_len, SuperCall, EINVAL};

#[test]
fn profile_pads_context() {
    let p = SuProfile::new(10001, 0, "u:r:magisk:s0");
    assert_eq!((p.uid, p.to_uid), (10001, 0));
    assert_eq!(&p.scontext[..13], b"u:r:magisk:s0");
    assert!(p.scontext[13..].iter().all(|b| *b == 0));
}

#[test]
fn context_is_truncated_to_width() {
    let long = "x".repeat(100);
    let a = convert_string_to_u8_array(&long);
    assert_eq!(a.len(), SUPERCALL_SCONTEXT_LEN);
    assert!(a.iter().all(|b| *b == b'x'));
    assert!(convert_string_to_u8_array("").iter().all(|b| *b == 0));
}

#[test]
fn command_word_layout() {
    let sc = SuperCall::new(0, 12, 6);
    assert_eq!(sc.version_code, 0x0c06);
    assert_eq!(sc.ver_and_cmd(0x1000), (0x0c06i64 << 32) | (0x1158 << 16) | 0x1000);
    assert_eq!(sc.ver_and_cmd(0x1_2345), (0x0c06i64 << 32) | (0x1158 << 16) | 0x2345);
}

#[test]
fn empty_key_is_rejected() {
    let sc = SuperCall::new(0, 12, 6);
    assert_eq!(sc.check_key(b""), Err(EINVAL));
    assert_eq!(sc.check_key(b"k"), Ok(()));
}

#[test]
fn raw_returns() {
    assert_eq!(error_handler(5), Ok(5));
    assert_eq!(error_handler(0), Ok(0));
    assert_eq!(error_handler(-22), Err(22));
    assert_eq!(error_handler(i64::MIN), Err(1u64 << 63));
}

#[test]
fn offset_len_packing() {
    assert_eq!(pack_offset_len(0, 4), 4);
    assert_eq!(pack_offset_len(2, 4), (2i64 << 32) | 4);
}

#[test]
fn retry_backs_off_after_every_failure() {
    let mut r = Retry::new(MAX_RETRY);
    let mut attempts = 0;
    let mut backoffs = 0;
    while r.may_attempt() {
        attempts += 1;
        let next = r.after_failure();
        backoffs += 1;
        if next == AfterFailure::BackoffThenGiveUp {
            break;
        }
    }
    assert_eq!((attempts, backoffs), (5, 5));
    assert!(!r.may_attempt());
}

#[test]
fn atomic_write_happy_path() {
    let mut w = AtomicWrite::start(MAX_RETRY);
    let mut steps = vec![w.step];
    while !w.finished() {
        w.advance(true);
        steps.push(w.step);
    }
    assert_eq!(
        steps,
        vec![WriteStep::CreateTemp, WriteStep::WriteTemp, WriteStep::FlushTemp, WriteStep::RenameOverTarget, WriteStep::Done]
    );
}

#[test]
fn atomic_write_retries_then_gives_up() {
    let mut w = AtomicWrite::start(2);
    w.advance(true);
    w.advance(false);
    assert_eq!(w.step, WriteStep::Backoff);
    w.advance(true);
    assert_eq!(w.step, WriteStep::CreateTemp);
    w.advance(true);
    w.advance(true);
    w.advance(true);
    w.advance(false);
    // the last failure is followed by a backoff too
    assert_eq!(w.step, WriteStep::Backoff);
    assert_eq!(w.failures, 2);
    w.advance(true);
    assert_eq!(w.step, WriteStep::GiveUp);
    w.advance(true);
    assert_eq!(w.step, WriteStep::GiveUp);
}

#[test]
fn atomic_write_sleeps_after_each_of_five_failures() {
    let mut w = AtomicWrite::start(MAX_RETRY);
    let mut backoffs = 0;
    while !w.finished() {
        if w.step == WriteStep::Backoff {
            backoffs += 1;
        }
        let ok = w.step == WriteStep::Backoff;
        w.advance(ok);
    }
    assert_eq!(w.step, WriteStep::GiveUp);
    assert_eq!((w.failures, backoffs), (5, 5));
}
