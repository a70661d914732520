use atrium::logon::{Authority, Denial, Logon, Next};
use atrium::proto::{Prompt, Reply};

fn open(l: &mut Logon, conv: u64) {
    assert!(l.begin(conv).is_none());
    l.opened(conv, "jack".into());
}

fn error_of(r: Reply) -> (u64, String) {
    match r {
        Reply::Error { conv, reason } => (conv, reason),
        other => panic!("{other:?}"),
    }
}

#[test]
fn start_twice_is_refused() {
    let mut l = Logon::new(false);
    open(&mut l, 1);
    assert_eq!(error_of(l.begin(1).unwrap()), (1, "conversation already open".to_string()));
    assert_eq!(error_of(Logon::unreachable(2)), (2, "the logon authority is unreachable".to_string()));
    assert_eq!(error_of(Logon::start_failed(2, true, "E")), (2, "could not encode logon: E".to_string()));
    assert_eq!(error_of(Logon::start_failed(2, false, "E")), (2, "could not send logon: E".to_string()));
}

#[test]
fn prompts_keep_the_conversation() {
    let mut l = Logon::new(false);
    open(&mut l, 1);
    let n = l.on_authority(
        1,
        Authority::CredentialRequest {
            messages: vec![("Warning".into(), "careful".into())],
            prompts: vec![Prompt { credential_ref: 4, credential_type: "password".into(), name: "Password".into() }],
        },
    );
    match n {
        Next::Reply(Reply::Prompt { conv, messages, prompts }) => {
            assert_eq!(conv, 1);
            assert_eq!((messages[0].severity.as_str(), messages[0].text.as_str()), ("warning", "careful"));
            assert_eq!(prompts[0].credential_ref, 4);
        }
        other => panic!("{other:?}"),
    }
    assert!(l.answer_check(1).is_none());
    assert_eq!(error_of(l.answer_check(2).unwrap()), (2, "no such conversation".to_string()));
}

#[test]
fn terminal_outcomes_end_the_conversation() {
    let cases: Vec<(Authority, &str)> = vec![
        (Authority::Lost("eof".into()), "lost the authority: eof"),
        (Authority::MalformedHeader("h".into()), "malformed reply from the authority: h"),
        (Authority::MalformedRequest("r".into()), "malformed credential request: r"),
        (Authority::MalformedGrant("g".into()), "malformed grant: g"),
        (Authority::MalformedDenial("d".into()), "malformed denial: d"),
        (Authority::Unexpected(5), "unexpected message from the authority: 0x0005"),
        (Authority::Unexpected(0xbeef), "unexpected message from the authority: 0xbeef"),
    ];
    for (event, reason) in cases {
        let mut l = Logon::new(false);
        open(&mut l, 3);
        match l.on_authority(3, event) {
            Next::Reply(r) => assert_eq!(error_of(r), (3, reason.to_string())),
            other => panic!("{other:?}"),
        }
        assert!(l.answer_check(3).is_some());
    }
}

#[test]
fn denials() {
    let mut l = Logon::new(false);
    open(&mut l, 1);
    let n = l.on_authority(1, Authority::Denied { denial: Denial { authentication_failed: true, name: "AuthenticationFailed".into() }, reason: "bad pw".into() });
    assert!(matches!(n, Next::Reply(Reply::Denied { conv: 1, retryable: true, ref reason }) if reason == "Incorrect username or password"));
    open(&mut l, 2);
    let n = l.on_authority(2, Authority::Denied { denial: Denial { authentication_failed: false, name: "AccountDisabled".into() }, reason: "".into() });
    assert!(matches!(n, Next::Reply(Reply::Denied { conv: 2, retryable: false, ref reason }) if reason == "AccountDisabled"));
    open(&mut l, 3);
    let n = l.on_authority(3, Authority::Denied { denial: Denial { authentication_failed: false, name: "X".into() }, reason: "locked".into() });
    assert!(matches!(n, Next::Reply(Reply::Denied { conv: 3, retryable: false, ref reason }) if reason == "locked"));
    open(&mut l, 4);
    let n = l.on_authority(4, Authority::Granted { session: 8, token: false, display_name: "J".into() });
    assert!(matches!(n, Next::Reply(Reply::Denied { conv: 4, retryable: false, ref reason }) if reason == "the authority sent no token"));
}

#[test]
fn grants_start_a_session() {
    let mut l = Logon::new(true);
    assert!(l.unrestricted());
    open(&mut l, 1);
    match l.on_authority(1, Authority::Granted { session: 8, token: true, display_name: "".into() }) {
        Next::Spawn { session, username, display_name } => {
            assert_eq!((session, username.as_str(), display_name.as_str()), (8, "jack", "jack"));
        }
        other => panic!("{other:?}"),
    }
    assert!(l.answer_check(1).is_some());
    match l.granted(1, 8, "jack".into(), "Jack".into(), Some("job-1".into())) {
        Reply::Granted { conv, session, username, display_name } => {
            assert_eq!((conv, session, username.as_str(), display_name.as_str()), (1, 8, "jack", "Jack"));
        }
        other => panic!("{other:?}"),
    }
    let (r, stop) = l.logout(8);
    assert!(matches!(r, Reply::Ack));
    assert_eq!(stop, Some(("jack".to_string(), "job-1".to_string())));
    assert_eq!(l.logout(9).1, None);
    assert_eq!(l.ended(8).unwrap().job_id, "job-1");
    assert!(l.ended(8).is_none());
    assert_eq!(error_of(l.granted(2, 9, "x".into(), "x".into(), None)), (2, "could not start a session".to_string()));
}

#[test]
fn answers_that_fail_end_the_conversation() {
    let mut l = Logon::new(false);
    open(&mut l, 1);
    assert_eq!(error_of(l.answer_failed(1, true, "E")), (1, "could not encode answers: E".to_string()));
    assert!(l.answer_check(1).is_some());
    open(&mut l, 2);
    assert_eq!(error_of(l.answer_failed(2, false, "E")), (2, "could not send answers: E".to_string()));
    open(&mut l, 3);
    assert!(matches!(l.abort(3), Reply::Ack));
    assert!(l.answer_check(3).is_some());
}

#[test]
fn knows_who_a_conversation_is_for() {
    let mut l = Logon::new(false);
    assert_eq!(l.user_of(3), None);
    l.opened(3, "jack".into());
    assert_eq!(l.user_of(3).as_deref(), Some("jack"));
    l.abort(3);
    assert_eq!(l.user_of(3), None);
}
