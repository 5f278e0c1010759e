use sni_gate::probe::{after_fallback, after_primary, classify_reply, greeting, AfterPrimary};

const EMPTY_SETTINGS: [u8; 9] = [0, 0, 0, 0x04, 0, 0, 0, 0, 0];

#[test]
fn settings_reply_is_accepted() {
    assert!(classify_reply(&EMPTY_SETTINGS).is_ok());
    let with_payload = [0, 0, 6, 0x04, 0, 0, 0, 0, 0];
    assert!(classify_reply(&with_payload).is_ok());
}

#[test]
fn http1_reply_is_reported_as_such() {
    let err = classify_reply(b"HTTP/1.1 400 Bad Request\r\n").unwrap_err();
    assert!(err.contains("HTTP/1.x"), "unhelpful message: {err}");
}

#[test]
fn empty_reply_means_the_preface_was_rejected() {
    let err = classify_reply(&[]).unwrap_err();
    assert!(err.contains("without replying"), "unhelpful message: {err}");
}

#[test]
fn short_reply_is_rejected() {
    let err = classify_reply(&[0, 0, 0, 0x04]).unwrap_err();
    assert!(err.contains("short"), "unhelpful message: {err}");
}

#[test]
fn wrong_frame_type_is_rejected() {
    let headers = [0, 0, 0, 0x01, 0, 0, 0, 0, 1];
    let err = classify_reply(&headers).unwrap_err();
    assert!(err.contains("0x01"), "unhelpful message: {err}");
}

#[test]
fn the_greeting_is_the_preface_and_empty_settings() {
    let mut want = b"PRI * HTTP/2.0\r\n\r\nSM\r\n\r\n".to_vec();
    want.extend_from_slice(&EMPTY_SETTINGS);
    assert_eq!(greeting(), want);
}

#[test]
fn a_dead_primary_is_retried_on_the_fallback() {
    let AfterPrimary::TryFallback(why) = after_primary(Err("10.0.0.1:80: refused".into()), true) else {
        panic!("the second address must be tried");
    };
    assert!(after_fallback(&why, Ok(())).is_ok());
    assert!(matches!(after_primary(Err("x".into()), false), AfterPrimary::Done(Err(_))));
    assert!(matches!(after_primary(Ok(()), true), AfterPrimary::Done(Ok(()))));
}

#[test]
fn a_dual_failure_names_both_addresses() {
    let AfterPrimary::TryFallback(why) = after_primary(Err("10.0.0.1:80: refused".into()), true) else {
        panic!("the second address must be tried");
    };
    let err = after_fallback(&why, Err("10.0.0.2:80: refused".into())).unwrap_err();
    assert!(err.contains("10.0.0.1:80") && err.contains("10.0.0.2:80"), "error names only one address: {err}");
}
