//! Starting atriumd's children: what a session host is submitted with,
//! whether the submission gave a running host, and how the server child
//! ended. Forking, exec and the jobs channel are the caller's.

use vstd::prelude::*;

use crate::jobs::Submitted;
use crate::text::{dec, idec, push_dec, push_idec, push_str};

verus! {

/// `libc::WIFEXITED` (Linux): the low seven bits of the status are zero.
pub assume_specification[ libc::WIFEXITED ](status: libc::c_int) -> (r: bool)
    ensures
        r == ((status & 0x7f) == 0),
;

/// `libc::WEXITSTATUS` (Linux): bits 8 to 15 of the status.
pub assume_specification[ libc::WEXITSTATUS ](status: libc::c_int) -> (r: libc::c_int)
    ensures
        r == ((status >> 8) & 0xff),
;

/// `libc::WIFSIGNALED` (Linux): the low seven bits, plus one, as an `i8`,
/// are at least 2.
pub assume_specification[ libc::WIFSIGNALED ](status: libc::c_int) -> (r: bool)
    ensures
        r == ((((status & 0x7f) + 1) as i8) >= 2),
;

/// `libc::WTERMSIG` (Linux): the low seven bits of the status.
pub assume_specification[ libc::WTERMSIG ](status: libc::c_int) -> (r: libc::c_int)
    ensures
        r == (status & 0x7f),
;

/// Exit codes the server child uses to say what went wrong before exec.
pub const EXIT_INSTALL: i32 = 125;

pub const EXIT_FD: i32 = 126;

pub const EXIT_EXEC: i32 = 127;

/// How the server child ended, from its wait status.
pub open spec fn describe_wait_spec(status: i32) -> Seq<char> {
    if (status & 0x7f) == 0 {
        let code = (status >> 8) & 0xff;
        if code == EXIT_INSTALL {
            "could not install its token"@
        } else if code == EXIT_FD {
            "could not place the control socket"@
        } else if code == EXIT_EXEC {
            "could not exec"@
        } else if code == 0 {
            "exited"@
        } else {
            "exit code "@ + idec(code as int)
        }
    } else if (((status & 0x7f) + 1) as i8) >= 2 {
        "signal "@ + idec((status & 0x7f) as int)
    } else {
        "unknown"@
    }
}

pub fn describe_wait(status: i32) -> (s: String)
    ensures
        s@ == describe_wait_spec(status),
{
    let mut s = String::new();
    if libc::WIFEXITED(status) {
        let code = libc::WEXITSTATUS(status);
        if code == EXIT_INSTALL {
            push_str(&mut s, "could not install its token");
        } else if code == EXIT_FD {
            push_str(&mut s, "could not place the control socket");
        } else if code == EXIT_EXEC {
            push_str(&mut s, "could not exec");
        } else if code == 0 {
            push_str(&mut s, "exited");
        } else {
            push_str(&mut s, "exit code ");
            push_idec(&mut s, code as i64);
        }
    } else if libc::WIFSIGNALED(status) {
        push_str(&mut s, "signal ");
        push_idec(&mut s, libc::WTERMSIG(status) as i64);
    } else {
        push_str(&mut s, "unknown");
    }
    assert(s@ =~= describe_wait_spec(status));
    s
}

/// What a session host is submitted with.
#[derive(Debug)]
pub struct SessionPlan {
    /// Home, and the working directory.
    pub home: String,
    pub display_name: String,
    pub shell: String,
    /// The job's description.
    pub description: String,
    /// `ATRIUM_SESSION`: the session id in decimal.
    pub session: String,
}

pub open spec fn starts_with_slash(s: Seq<char>) -> bool {
    s.len() > 0 && s[0] == '/'
}

/// The environment `login` gives a shell: a home that is an absolute
/// existing directory or `/`, the profile's display name or the username,
/// an absolute shell or `/bin/sh`.
pub fn session_plan(session: u64, username: &str, home: &str, home_is_dir: bool, display_name: &str, shell: &str) -> (p: SessionPlan)
    ensures
        p.home@ == if starts_with_slash(home@) && home_is_dir { home@ } else { "/"@ },
        p.display_name@ == if display_name@.len() == 0 { username@ } else { display_name@ },
        p.shell@ == if starts_with_slash(shell@) { shell@ } else { "/bin/sh"@ },
        p.description@ == "Atrium session for "@ + username@,
        p.session@ == dec(session as nat),
{
    let hv = crate::text::chars_of(home);
    let sv = crate::text::chars_of(shell);
    let mut h = String::new();
    if hv.len() > 0 && hv[0] == '/' && home_is_dir {
        push_str(&mut h, home);
    } else {
        push_str(&mut h, "/");
    }
    let mut d = String::new();
    if display_name.is_empty() {
        push_str(&mut d, username);
    } else {
        push_str(&mut d, display_name);
    }
    let mut sh = String::new();
    if sv.len() > 0 && sv[0] == '/' {
        push_str(&mut sh, shell);
    } else {
        push_str(&mut sh, "/bin/sh");
    }
    let mut desc = String::new();
    push_str(&mut desc, "Atrium session for ");
    push_str(&mut desc, username);
    let mut n = String::new();
    push_dec(&mut n, session);
    assert(h@ =~= if starts_with_slash(home@) && home_is_dir { home@ } else { "/"@ });
    assert(d@ =~= if display_name@.len() == 0 { username@ } else { display_name@ });
    assert(sh@ =~= if starts_with_slash(shell@) { shell@ } else { "/bin/sh"@ });
    assert(n@ =~= dec(session as nat));
    SessionPlan { home: h, display_name: d, shell: sh, description: desc, session: n }
}

/// Why a submitted host is not usable: not running (with its state and
/// cause), or running without a process handle.
pub open spec fn not_started(s: Submitted, has_pidfd: bool) -> Option<Seq<char>> {
    if s.state@ != "running"@ {
        Some("job "@ + s.id@ + " is "@ + s.state@ + match s.cause {
            Some(c) => " ("@ + c@ + ")"@,
            None => seq![],
        })
    } else if !has_pidfd {
        Some("job "@ + s.id@ + " is running but peinit sent no process handle"@)
    } else {
        None
    }
}

pub fn check_started(s: &Submitted, has_pidfd: bool) -> (r: Result<(), String>)
    ensures
        match r {
            Ok(()) => not_started(*s, has_pidfd) is None,
            Err(m) => not_started(*s, has_pidfd) == Some(m@),
        },
{
    if !crate::text::str_eq(s.state.as_str(), "running") {
        let mut m = String::new();
        push_str(&mut m, "job ");
        push_str(&mut m, s.id.as_str());
        push_str(&mut m, " is ");
        push_str(&mut m, s.state.as_str());
        if let Some(c) = &s.cause {
            push_str(&mut m, " (");
            push_str(&mut m, c.as_str());
            push_str(&mut m, ")");
        }
        assert(m@ =~= not_started(*s, has_pidfd)->0);
        return Err(m);
    }
    if !has_pidfd {
        let mut m = String::new();
        push_str(&mut m, "job ");
        push_str(&mut m, s.id.as_str());
        push_str(&mut m, " is running but peinit sent no process handle");
        assert(m@ =~= not_started(*s, has_pidfd)->0);
        return Err(m);
    }
    Ok(())
}

} // verus!
