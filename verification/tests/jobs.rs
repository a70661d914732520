use atrium::jobs::{check_received, check_status, describe_end, submitted, JobFields, JobView, JobsError, ReplyStatus};

#[test]
fn describes_an_end() {
    let v = JobView { state: Some("failed".into()), cause: Some("signal".into()), exit_code: Some(-1), exit_signal: Some(15) };
    assert_eq!(describe_end(&v), "failed, signal, exit code -1, signal 15");
    let v = JobView { state: None, cause: None, exit_code: Some(0), exit_signal: None };
    assert_eq!(describe_end(&v), "?, exit code 0");
    let v = JobView { state: Some("exited".into()), cause: None, exit_code: Some(i64::MIN), exit_signal: None };
    assert_eq!(describe_end(&v), "exited, exit code -9223372036854775808");
}

#[test]
fn classifies_replies() {
    assert!(matches!(check_received(0, false), Err(JobsError::Closed)));
    assert!(matches!(check_received(5, true), Err(JobsError::TooLarge)));
    assert!(check_received(5, false).is_ok());
    let ok = ReplyStatus { status: Some("ok".into()), code: None, message: None };
    assert!(check_status(&ok).is_ok());
    let refused = ReplyStatus { status: Some("error".into()), code: Some("denied".into()), message: Some("no".into()) };
    match check_status(&refused) {
        Err(JobsError::Refused(m)) => assert_eq!(m, "peinit refused: denied: no"),
        other => panic!("{other:?}"),
    }
    let bare = ReplyStatus { status: Some("error".into()), code: None, message: None };
    match check_status(&bare) {
        Err(JobsError::Refused(m)) => assert_eq!(m, "peinit refused: ?: "),
        other => panic!("{other:?}"),
    }
    assert!(matches!(check_status(&ReplyStatus { status: None, code: None, message: None }), Err(JobsError::NoStatus)));
    assert!(matches!(check_status(&ReplyStatus { status: Some("maybe".into()), code: None, message: None }), Err(JobsError::NoStatus)));
}

#[test]
fn reads_a_submitted_job() {
    assert!(matches!(submitted(None), Err(JobsError::NoJob)));
    let s = submitted(Some(JobFields { id: None, state: None, cause: None })).unwrap();
    assert_eq!((s.id.as_str(), s.state.as_str(), s.cause), ("", "?", None));
    let s = submitted(Some(JobFields { id: Some("j1".into()), state: Some("running".into()), cause: Some("c".into()) })).unwrap();
    assert_eq!((s.id.as_str(), s.state.as_str(), s.cause.as_deref()), ("j1", "running", Some("c")));
}
