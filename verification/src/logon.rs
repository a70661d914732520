//! Logon conversations with the authority, on behalf of a browser.
//!
//! One conversation runs from a start through (prompt, answer)* to a
//! grant, a denial or an error. This is its bookkeeping and its decisions:
//! which conversations are open and for whom, which sessions exist, and
//! what the server is told at each step. Talking to the authority and
//! starting a session host are the caller's; it hands back what happened.

use std::collections::HashMap;

use vstd::prelude::*;

use crate::proto::{Message, Prompt, Reply};
use crate::text::{push_char, push_str, to_lowercase, unicode_lower};

verus! {

broadcast use vstd::std_specs::hash::group_hash_axioms;

/// A logged-on principal with a session host running as them.
#[derive(Debug)]
pub struct SessionRecord {
    pub username: String,
    /// The jobs manager's id for the session host.
    pub job_id: String,
}

/// Why the authority refused.
#[derive(Debug)]
pub struct Denial {
    /// The credentials were wrong: the page may try again.
    pub authentication_failed: bool,
    /// The denial's name.
    pub name: String,
}

/// What came back from the authority for a conversation.
#[derive(Debug)]
pub enum Authority {
    /// The connection failed; the text says how.
    Lost(String),
    /// The reply's header did not decode.
    MalformedHeader(String),
    /// A credential request: messages as (severity name, text), and the
    /// prompts.
    CredentialRequest { messages: Vec<(String, String)>, prompts: Vec<Prompt> },
    MalformedRequest(String),
    /// Access granted; `token` says whether the token came with it.
    Granted { session: u64, token: bool, display_name: String },
    MalformedGrant(String),
    Denied { denial: Denial, reason: String },
    MalformedDenial(String),
    /// A message of a kind the protocol does not have here.
    Unexpected(u16),
}

/// What to do next for a conversation.
#[derive(Debug)]
pub enum Next {
    /// Send this reply to the server.
    Reply(Reply),
    /// Logged on: start a session host for `username`, then report with
    /// `granted`.
    Spawn { session: u64, username: String, display_name: String },
}

pub struct Logon {
    conversations: HashMap<u64, String>,
    sessions: HashMap<u64, SessionRecord>,
    /// Start session hosts without installing a token.
    unrestricted: bool,
}

pub open spec fn error_reply(r: Reply, conv: u64, reason: Seq<char>) -> bool {
    r matches Reply::Error { conv: c, reason: m } && c == conv && m@ == reason
}

pub open spec fn denied_reply(r: Reply, conv: u64, retryable: bool, reason: Seq<char>) -> bool {
    r matches Reply::Denied { conv: c, retryable: t, reason: m } && c == conv && t == retryable && m@
        == reason
}

/// `s` with U+0000..U+FFFF `k` as `0x` and four lowercase hex digits
/// (`{:#06x}`).
pub open spec fn hex4(k: u16) -> Seq<char> {
    "0x"@ + seq![
        crate::server::hex_digit(((k as nat) / 4096) % 16),
        crate::server::hex_digit(((k as nat) / 256) % 16),
        crate::server::hex_digit(((k as nat) / 16) % 16),
        crate::server::hex_digit((k as nat) % 16),
    ]
}

/// What the browser is shown for a denial: one uniform reason for
/// credential failures, else the authority's reason, else the denial's
/// name.
pub open spec fn shown_reason(d: Denial, reason: Seq<char>) -> Seq<char> {
    if d.authentication_failed {
        "Incorrect username or password"@
    } else if reason.len() == 0 {
        d.name@
    } else {
        reason
    }
}

pub open spec fn messages_view(v: Seq<Message>) -> Seq<(Seq<char>, Seq<char>)> {
    v.map_values(|m: Message| (m.severity@, m.text@))
}

pub open spec fn prompts_view(v: Seq<Prompt>) -> Seq<(u32, Seq<char>, Seq<char>)> {
    v.map_values(|p: Prompt| (p.credential_ref, p.credential_type@, p.name@))
}

/// The messages of a credential request as the server gets them: the
/// severity name lowercased.
pub open spec fn relayed_messages(v: Seq<(String, String)>) -> Seq<(Seq<char>, Seq<char>)> {
    v.map_values(|m: (String, String)| (unicode_lower(m.0@), m.1@))
}

fn concat(a: &str, b: &str) -> (s: String)
    ensures
        s@ == a@ + b@,
{
    let mut s = String::new();
    push_str(&mut s, a);
    push_str(&mut s, b);
    assert(s@ =~= a@ + b@);
    s
}

fn error(conv: u64, a: &str, b: &str) -> (r: Reply)
    ensures
        error_reply(r, conv, a@ + b@),
{
    Reply::Error { conv, reason: concat(a, b) }
}

fn hex4_exec(k: u16) -> (s: String)
    ensures
        s@ == hex4(k),
{
    let mut s = String::new();
    push_str(&mut s, "0x");
    push_char(&mut s, hex_char(((k / 4096) % 16) as u8));
    push_char(&mut s, hex_char(((k / 256) % 16) as u8));
    push_char(&mut s, hex_char(((k / 16) % 16) as u8));
    push_char(&mut s, hex_char((k % 16) as u8));
    assert(s@ =~= hex4(k));
    s
}

fn hex_char(d: u8) -> (c: char)
    requires
        d < 16,
    ensures
        c == crate::server::hex_digit(d as nat),
{
    if d < 10 {
        crate::text::char_from_ascii(48 + d)
    } else {
        crate::text::char_from_ascii(87 + d)
    }
}

impl Logon {
    /// Open conversations: id -> the username they log on.
    pub closed spec fn conversations(&self) -> Map<u64, Seq<char>> {
        self.conversations@.map_values(|s: String| s@)
    }

    /// Sessions: id -> (username, job id).
    pub closed spec fn sessions(&self) -> Map<u64, (Seq<char>, Seq<char>)> {
        self.sessions@.map_values(|r: SessionRecord| (r.username@, r.job_id@))
    }

    /// Session hosts start without a token installed.
    pub closed spec fn is_unrestricted(&self) -> bool {
        self.unrestricted
    }

    pub fn unrestricted(&self) -> (r: bool)
        ensures
            r == self.is_unrestricted(),
    {
        self.unrestricted
    }

    pub fn new(unrestricted: bool) -> (l: Logon)
        ensures
            l.conversations() == Map::<u64, Seq<char>>::empty(),
            l.sessions() == Map::<u64, (Seq<char>, Seq<char>)>::empty(),
            l.is_unrestricted() == unrestricted,
    {
        let l = Logon { conversations: HashMap::new(), sessions: HashMap::new(), unrestricted };
        assert(l.conversations() =~= Map::<u64, Seq<char>>::empty());
        assert(l.sessions() =~= Map::<u64, (Seq<char>, Seq<char>)>::empty());
        l
    }

    /// Who open conversation `conv` logs on, if it is open.
    pub fn user_of(&self, conv: u64) -> (r: Option<String>)
        ensures
            match r {
                Some(u) => self.conversations().contains_key(conv) && self.conversations()[conv] == u@,
                None => !self.conversations().contains_key(conv),
            },
    {
        match self.conversations.get(&conv) {
            Some(u) => Some(u.clone()),
            None => None,
        }
    }

    /// A start for `conv`: refused when that conversation is already open,
    /// else nothing yet (connect to the authority and send the start).
    pub fn begin(&self, conv: u64) -> (r: Option<Reply>)
        ensures
            self.conversations().contains_key(conv) ==> (r matches Some(e) && error_reply(e, conv, "conversation already open"@)),
            !self.conversations().contains_key(conv) ==> r is None,
    {
        if self.conversations.contains_key(&conv) {
            let mut m = String::new();
            push_str(&mut m, "conversation already open");
            assert(m@ =~= "conversation already open"@);
            Some(Reply::Error { conv, reason: m })
        } else {
            None
        }
    }

    /// The authority could not be reached for a start.
    pub fn unreachable(conv: u64) -> (r: Reply)
        ensures
            error_reply(r, conv, "the logon authority is unreachable"@),
    {
        proof {
            reveal_strlit("");
        }
        let r = error(conv, "the logon authority is unreachable", "");
        assert("the logon authority is unreachable"@ + ""@ =~= "the logon authority is unreachable"@);
        r
    }

    /// The start could not be encoded (`encoding`) or sent; `detail` says
    /// why. Nothing was opened.
    pub fn start_failed(conv: u64, encoding: bool, detail: &str) -> (r: Reply)
        ensures
            error_reply(r, conv, if encoding { "could not encode logon: "@ } else { "could not send logon: "@ } + detail@),
    {
        if encoding {
            error(conv, "could not encode logon: ", detail)
        } else {
            error(conv, "could not send logon: ", detail)
        }
    }

    /// The start was sent: the conversation is open for `username`.
    pub fn opened(&mut self, conv: u64, username: String)
        ensures
            final(self).conversations() == old(self).conversations().insert(conv, username@),
            final(self).sessions() == old(self).sessions(),
            final(self).is_unrestricted() == old(self).is_unrestricted(),
    {
        let ghost u = username@;
        self.conversations.insert(conv, username);
        assert(self.conversations() =~= old(self).conversations().insert(conv, u));
    }

    /// Answers for `conv`: refused when no such conversation is open.
    pub fn answer_check(&self, conv: u64) -> (r: Option<Reply>)
        ensures
            !self.conversations().contains_key(conv) ==> (r matches Some(e) && error_reply(e, conv, "no such conversation"@)),
            self.conversations().contains_key(conv) ==> r is None,
    {
        if self.conversations.contains_key(&conv) {
            None
        } else {
            proof {
                reveal_strlit("");
            }
            assert("no such conversation"@ + ""@ =~= "no such conversation"@);
            Some(error(conv, "no such conversation", ""))
        }
    }

    /// The answers could not be encoded (`encoding`) or sent: the
    /// conversation is over.
    pub fn answer_failed(&mut self, conv: u64, encoding: bool, detail: &str) -> (r: Reply)
        ensures
            error_reply(r, conv, if encoding { "could not encode answers: "@ } else { "could not send answers: "@ } + detail@),
            final(self).conversations() == old(self).conversations().remove(conv),
            final(self).sessions() == old(self).sessions(),
            final(self).is_unrestricted() == old(self).is_unrestricted(),
    {
        self.conversations.remove(&conv);
        assert(self.conversations() =~= old(self).conversations().remove(conv));
        if encoding {
            error(conv, "could not encode answers: ", detail)
        } else {
            error(conv, "could not send answers: ", detail)
        }
    }

    /// Drop a conversation that will not be continued.
    pub fn abort(&mut self, conv: u64) -> (r: Reply)
        ensures
            r is Ack,
            final(self).conversations() == old(self).conversations().remove(conv),
            final(self).sessions() == old(self).sessions(),
            final(self).is_unrestricted() == old(self).is_unrestricted(),
    {
        self.conversations.remove(&conv);
        assert(self.conversations() =~= old(self).conversations().remove(conv));
        Reply::Ack
    }

    /// The browser side logged out of `session`: the session whose host is
    /// to be stopped, if it exists. The entry stays until the host is gone.
    pub fn logout(&self, session: u64) -> (r: (Reply, Option<(String, String)>))
        ensures
            r.0 is Ack,
            match r.1 {
                Some((u, j)) => self.sessions().contains_key(session) && self.sessions()[session] == (u@, j@),
                None => !self.sessions().contains_key(session),
            },
    {
        match self.sessions.get(&session) {
            Some(s) => (Reply::Ack, Some((s.username.clone(), s.job_id.clone()))),
            None => (Reply::Ack, None),
        }
    }

    /// A session host has exited: forget the session.
    pub fn ended(&mut self, session: u64) -> (r: Option<SessionRecord>)
        ensures
            final(self).sessions() == old(self).sessions().remove(session),
            final(self).conversations() == old(self).conversations(),
            final(self).is_unrestricted() == old(self).is_unrestricted(),
            match r {
                Some(s) => old(self).sessions().contains_key(session) && old(self).sessions()[session] == (s.username@, s.job_id@),
                None => !old(self).sessions().contains_key(session),
            },
    {
        let r = self.sessions.remove(&session);
        assert(self.sessions() =~= old(self).sessions().remove(session));
        r
    }

    /// What the authority said for open conversation `conv`, turned into
    /// the next step. Every outcome but a credential request ends the
    /// conversation.
    pub fn on_authority(&mut self, conv: u64, event: Authority) -> (n: Next)
        requires
            old(self).conversations().contains_key(conv),
        ensures
            final(self).sessions() == old(self).sessions(),
            final(self).is_unrestricted() == old(self).is_unrestricted(),
            final(self).conversations() == if event is CredentialRequest {
                old(self).conversations()
            } else {
                old(self).conversations().remove(conv)
            },
            match event {
                Authority::Lost(d) => n matches Next::Reply(r) && error_reply(r, conv, "lost the authority: "@ + d@),
                Authority::MalformedHeader(d) => n matches Next::Reply(r) && error_reply(
                    r,
                    conv,
                    "malformed reply from the authority: "@ + d@,
                ),
                Authority::CredentialRequest { messages, prompts: ps } => n matches Next::Reply(r) && r matches Reply::Prompt {
                    conv: c,
                    messages: ms,
                    prompts: qs,
                } && c == conv && messages_view(ms@) == relayed_messages(messages@) && prompts_view(qs@)
                    == prompts_view(ps@),
                Authority::MalformedRequest(d) => n matches Next::Reply(r) && error_reply(
                    r,
                    conv,
                    "malformed credential request: "@ + d@,
                ),
                Authority::Granted { session, token, display_name } => if !token {
                    n matches Next::Reply(r) && denied_reply(r, conv, false, "the authority sent no token"@)
                } else {
                    n matches Next::Spawn { session: s, username: u, display_name: dn } && s == session
                        && u@ == old(self).conversations()[conv] && dn@ == if display_name@.len() == 0 {
                        old(self).conversations()[conv]
                    } else {
                        display_name@
                    }
                },
                Authority::MalformedGrant(d) => n matches Next::Reply(r) && error_reply(r, conv, "malformed grant: "@ + d@),
                Authority::Denied { denial, reason } => n matches Next::Reply(r) && denied_reply(
                    r,
                    conv,
                    denial.authentication_failed,
                    shown_reason(denial, reason@),
                ),
                Authority::MalformedDenial(d) => n matches Next::Reply(r) && error_reply(r, conv, "malformed denial: "@ + d@),
                Authority::Unexpected(k) => n matches Next::Reply(r) && error_reply(
                    r,
                    conv,
                    "unexpected message from the authority: "@ + hex4(k),
                ),
            },
    {
        if let Authority::CredentialRequest { messages, prompts } = event {
            let mut ms: Vec<Message> = Vec::new();
            let mut i: usize = 0;
            assert(relayed_messages(messages@).take(0) =~= seq![]);
            while i < messages.len()
                invariant
                    i <= messages@.len(),
                    messages_view(ms@) == relayed_messages(messages@).take(i as int),
                decreases messages@.len() - i,
            {
                let severity = to_lowercase(messages[i].0.as_str());
                let text = messages[i].1.clone();
                let ghost before = ms@;
                ms.push(Message { severity, text });
                assert(messages_view(ms@) =~= messages_view(before).push((unicode_lower(messages@[i as int].0@), messages@[i as int].1@)));
                assert(relayed_messages(messages@).take(i + 1) =~= relayed_messages(messages@).take(i as int).push(relayed_messages(messages@)[i as int]));
                i = i + 1;
            }
            assert(relayed_messages(messages@).take(i as int) =~= relayed_messages(messages@));
            return Next::Reply(Reply::Prompt { conv, messages: ms, prompts });
        }
        let username = match self.conversations.remove(&conv) {
            Some(u) => u,
            None => String::new(),
        };
        assert(self.conversations() =~= old(self).conversations().remove(conv));
        match event {
            Authority::Lost(d) => Next::Reply(error(conv, "lost the authority: ", d.as_str())),
            Authority::MalformedHeader(d) => Next::Reply(error(conv, "malformed reply from the authority: ", d.as_str())),
            Authority::MalformedRequest(d) => Next::Reply(error(conv, "malformed credential request: ", d.as_str())),
            Authority::MalformedGrant(d) => Next::Reply(error(conv, "malformed grant: ", d.as_str())),
            Authority::MalformedDenial(d) => Next::Reply(error(conv, "malformed denial: ", d.as_str())),
            Authority::Unexpected(k) => {
                let h = hex4_exec(k);
                Next::Reply(error(conv, "unexpected message from the authority: ", h.as_str()))
            },
            Authority::Granted { session, token, display_name } => {
                if !token {
                    let mut m = String::new();
                    push_str(&mut m, "the authority sent no token");
                    assert(m@ =~= "the authority sent no token"@);
                    return Next::Reply(Reply::Denied { conv, retryable: false, reason: m });
                }
                let dn = if display_name.as_str().is_empty() {
                    username.clone()
                } else {
                    display_name
                };
                Next::Spawn { session, username, display_name: dn }
            },
            Authority::Denied { denial, reason } => {
                let retry = denial.authentication_failed;
                let shown = if retry {
                    let mut m = String::new();
                    push_str(&mut m, "Incorrect username or password");
                    assert(m@ =~= "Incorrect username or password"@);
                    m
                } else if reason.as_str().is_empty() {
                    denial.name
                } else {
                    reason
                };
                Next::Reply(Reply::Denied { conv, retryable: retry, reason: shown })
            },
            Authority::CredentialRequest { .. } => Next::Reply(Reply::Ack),
        }
    }

    /// The session host for a grant was started (`job` its job id) or
    /// could not be (`None`). A started session is recorded and the server
    /// learns of the grant; otherwise the logon is given up.
    pub fn granted(&mut self, conv: u64, session: u64, username: String, display_name: String, job: Option<String>) -> (r: Reply)
        ensures
            final(self).conversations() == old(self).conversations(),
            final(self).is_unrestricted() == old(self).is_unrestricted(),
            match job {
                Some(j) => {
                    &&& final(self).sessions() == old(self).sessions().insert(session, (username@, j@))
                    &&& r matches Reply::Granted { conv: c, session: s, username: u, display_name: d }
                    &&& c == conv && s == session && u@ == username@ && d@ == display_name@
                },
                None => final(self).sessions() == old(self).sessions() && error_reply(r, conv, "could not start a session"@),
            },
    {
        match job {
            Some(j) => {
                let ghost rec = (username@, j@);
                self.sessions.insert(session, SessionRecord { username: username.clone(), job_id: j });
                assert(self.sessions() =~= old(self).sessions().insert(session, rec));
                Reply::Granted { conv, session, username, display_name }
            },
            None => {
                proof {
                    reveal_strlit("");
                }
                assert("could not start a session"@ + ""@ =~= "could not start a session"@);
                error(conv, "could not start a session", "")
            },
        }
    }
}

} // verus!
