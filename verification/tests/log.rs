use atrium::log::{error, info, kmsg_priority, warn};

#[test]
fn log_lines() {
    let l = info("listening");
    assert_eq!(l.stderr, "atrium-server: info: listening\n");
    assert_eq!(l.kmsg, "<6>atrium-server: info: listening\n");
    assert_eq!(warn("w").kmsg, "<4>atrium-server: warn: w\n");
    assert_eq!(error("e").kmsg, "<3>atrium-server: error: e\n");
    assert_eq!(kmsg_priority("debug"), 6);
}
