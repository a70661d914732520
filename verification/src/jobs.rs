//! The jobs channel to the service manager, as much as atriumd needs:
//! what a reply means, what a submitted job is, how a job ended. The
//! channel itself (one JSON object per message) is the caller's.

use vstd::prelude::*;

use crate::text::{idec, push_idec, push_str};

verus! {

/// The fields of a job view that describe how it ended.
#[derive(Debug)]
pub struct JobView {
    pub state: Option<String>,
    pub cause: Option<String>,
    pub exit_code: Option<i64>,
    pub exit_signal: Option<i64>,
}

/// One line describing how a job ended, from its view.
pub open spec fn describe_end_spec(v: JobView) -> Seq<char> {
    (match v.state {
        Some(s) => s@,
        None => "?"@,
    }) + (match v.cause {
        Some(c) => ", "@ + c@,
        None => seq![],
    }) + (match v.exit_code {
        Some(c) => ", exit code "@ + idec(c as int),
        None => seq![],
    }) + (match v.exit_signal {
        Some(s) => ", signal "@ + idec(s as int),
        None => seq![],
    })
}

pub fn describe_end(view: &JobView) -> (s: String)
    ensures
        s@ == describe_end_spec(*view),
{
    let mut s = String::new();
    match &view.state {
        Some(st) => push_str(&mut s, st.as_str()),
        None => push_str(&mut s, "?"),
    }
    let ghost a = s@;
    if let Some(c) = &view.cause {
        push_str(&mut s, ", ");
        push_str(&mut s, c.as_str());
    }
    let ghost b = s@;
    if let Some(c) = view.exit_code {
        push_str(&mut s, ", exit code ");
        push_idec(&mut s, c);
    }
    let ghost c = s@;
    if let Some(g) = view.exit_signal {
        push_str(&mut s, ", signal ");
        push_idec(&mut s, g);
    }
    assert(s@ =~= describe_end_spec(*view));
    s
}

/// Why a jobs request failed.
#[derive(Debug)]
pub enum JobsError {
    /// The channel closed.
    Closed,
    /// The reply did not fit the buffer.
    TooLarge,
    /// The manager refused; the text says how.
    Refused(String),
    /// The reply has no status.
    NoStatus,
    /// A submit was answered without a job.
    NoJob,
}

/// A reply as received: its length and whether it was cut short.
pub fn check_received(len: usize, truncated: bool) -> (r: Result<(), JobsError>)
    ensures
        len == 0 ==> r matches Err(JobsError::Closed),
        len != 0 && truncated ==> r matches Err(JobsError::TooLarge),
        len != 0 && !truncated ==> r is Ok,
{
    if len == 0 {
        Err(JobsError::Closed)
    } else if truncated {
        Err(JobsError::TooLarge)
    } else {
        Ok(())
    }
}

/// The fields of a reply that say whether it succeeded.
#[derive(Debug)]
pub struct ReplyStatus {
    pub status: Option<String>,
    pub code: Option<String>,
    pub message: Option<String>,
}

pub open spec fn refusal(r: ReplyStatus) -> Seq<char> {
    "peinit refused: "@ + (match r.code {
        Some(c) => c@,
        None => "?"@,
    }) + ": "@ + (match r.message {
        Some(m) => m@,
        None => seq![],
    })
}

/// `ok` succeeds, `error` is a refusal, anything else has no status.
pub fn check_status(r: &ReplyStatus) -> (res: Result<(), JobsError>)
    ensures
        match r.status {
            Some(s) => if s@ == "ok"@ {
                res is Ok
            } else if s@ == "error"@ {
                res matches Err(JobsError::Refused(m)) && m@ == refusal(*r)
            } else {
                res matches Err(JobsError::NoStatus)
            },
            None => res matches Err(JobsError::NoStatus),
        },
{
    proof {
        reveal_strlit("");
    }
    match &r.status {
        Some(s) => {
            if crate::text::str_eq(s.as_str(), "ok") {
                Ok(())
            } else if crate::text::str_eq(s.as_str(), "error") {
                let mut m = String::new();
                push_str(&mut m, "peinit refused: ");
                match &r.code {
                    Some(c) => push_str(&mut m, c.as_str()),
                    None => push_str(&mut m, "?"),
                }
                push_str(&mut m, ": ");
                match &r.message {
                    Some(t) => push_str(&mut m, t.as_str()),
                    None => push_str(&mut m, ""),
                }
                assert(m@ =~= refusal(*r));
                Err(JobsError::Refused(m))
            } else {
                Err(JobsError::NoStatus)
            }
        },
        None => Err(JobsError::NoStatus),
    }
}

/// The fields of a submit reply's job.
#[derive(Debug)]
pub struct JobFields {
    pub id: Option<String>,
    pub state: Option<String>,
    pub cause: Option<String>,
}

/// A submitted job.
#[derive(Debug)]
pub struct Submitted {
    pub id: String,
    pub state: String,
    pub cause: Option<String>,
}

/// A submit reply's job, with the defaults for what it leaves out: no id
/// is empty, no state is `?`. No job is an error.
pub fn submitted(job: Option<JobFields>) -> (r: Result<Submitted, JobsError>)
    ensures
        match job {
            None => r matches Err(JobsError::NoJob),
            Some(j) => r matches Ok(s) && s.id@ == (match j.id {
                Some(i) => i@,
                None => seq![],
            }) && s.state@ == (match j.state {
                Some(t) => t@,
                None => "?"@,
            }) && s.cause == j.cause,
        },
{
    match job {
        None => Err(JobsError::NoJob),
        Some(j) => {
            let id = match j.id {
                Some(i) => i,
                None => String::new(),
            };
            let state = match j.state {
                Some(t) => t,
                None => {
                    let mut t = String::new();
                    push_str(&mut t, "?");
                    assert(t@ =~= "?"@);
                    t
                },
            };
            Ok(Submitted { id, state, cause: j.cause })
        },
    }
}

} // verus!
