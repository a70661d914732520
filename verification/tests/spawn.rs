use atrium::jobs::Submitted;
use atrium::spawn::{check_started, describe_wait, session_plan};

#[test]
fn describes_wait_statuses() {
    assert_eq!(describe_wait(125 << 8), "could not install its token");
    assert_eq!(describe_wait(126 << 8), "could not place the control socket");
    assert_eq!(describe_wait(127 << 8), "could not exec");
    assert_eq!(describe_wait(0), "exited");
    assert_eq!(describe_wait(3 << 8), "exit code 3");
    assert_eq!(describe_wait(9), "signal 9");
    assert_eq!(describe_wait(0x7f), "unknown");
    assert_eq!(describe_wait(0xffff), "unknown");
}

#[test]
fn plans_a_session() {
    let p = session_plan(7, "jack", "/home/jack", true, "", "zsh");
    assert_eq!(
        (p.home.as_str(), p.display_name.as_str(), p.shell.as_str(), p.description.as_str(), p.session.as_str()),
        ("/home/jack", "jack", "/bin/sh", "Atrium session for jack", "7")
    );
    let p = session_plan(12, "jack", "/home/jack", false, "Jack", "/bin/zsh");
    assert_eq!((p.home.as_str(), p.display_name.as_str(), p.shell.as_str()), ("/", "Jack", "/bin/zsh"));
    let p = session_plan(1, "jack", "home", true, "", "");
    assert_eq!(p.home, "/");
}

#[test]
fn checks_a_start() {
    let s = Submitted { id: "j".into(), state: "failed".into(), cause: Some("exec".into()) };
    assert_eq!(check_started(&s, true).unwrap_err(), "job j is failed (exec)");
    let s = Submitted { id: "j".into(), state: "queued".into(), cause: None };
    assert_eq!(check_started(&s, true).unwrap_err(), "job j is queued");
    let s = Submitted { id: "j".into(), state: "running".into(), cause: None };
    assert_eq!(check_started(&s, false).unwrap_err(), "job j is running but peinit sent no process handle");
    assert!(check_started(&s, true).is_ok());
}
