//! The control protocols inside Atrium.
//!
//! atriumd <-> atrium-server speak `Request`/`Reply`; atrium-server tells a
//! session host about each forwarded connection with a `SessionMessage`.
//! Both go one document per frame: a `u32` little-endian length, then the
//! document. The server speaks first and every request gets exactly one
//! reply, in order.

use vstd::prelude::*;

verus! {

/// The fd number the server finds its control socket on at exec.
pub const CONTROL_FD: i32 = 3;

/// Largest frame either side will accept.
pub const MAX_FRAME_BYTES: usize = 262144;

/// Server -> atriumd.
#[derive(Debug)]
pub enum Request {
    /// Begin a logon conversation for `username` from `remote`.
    LogonStart { conv: u64, username: String, remote: String },
    /// Answer the prompts of the last `Prompt` reply for this conversation.
    LogonAnswer { conv: u64, answers: Vec<Answer> },
    /// Drop a conversation that will not be continued.
    LogonAbort { conv: u64 },
    /// The browser side has logged out of this session: release its token.
    Logout { session: u64 },
}

/// atriumd -> server.
#[derive(Debug)]
pub enum Reply {
    /// The authority wants credentials.
    Prompt { conv: u64, messages: Vec<Message>, prompts: Vec<Prompt> },
    /// Logged on and a session host started. Carries a descriptor: the
    /// server's end of the session host's control socket.
    Granted { conv: u64, session: u64, username: String, display_name: String },
    /// Refused. `retryable` says whether the same user may try again.
    Denied { conv: u64, retryable: bool, reason: String },
    /// The request could not be carried out. Not a logon outcome.
    Error { conv: u64, reason: String },
    /// Acknowledgement of a request with no other outcome (`ok` on the wire).
    Ack,
}

/// atrium-server -> session host.
#[derive(Debug)]
pub enum SessionMessage {
    /// A browser connection, authenticated and bound to this session.
    /// Carries a descriptor: one end of the socketpair its bytes go through.
    Connection { browser_session: String, client_addr: String },
}

#[derive(Debug)]
pub struct Message {
    /// `info`, `warning` or `error`.
    pub severity: String,
    pub text: String,
}

#[derive(Debug)]
pub struct Prompt {
    /// Opaque; echoed back in the answer.
    pub credential_ref: u32,
    /// `password` is the only type today.
    pub credential_type: String,
    /// What to label the field.
    pub name: String,
}

#[derive(Debug)]
pub struct Answer {
    pub credential_ref: u32,
    pub data: String,
}

#[derive(Debug)]
pub enum FrameError {
    /// Longer than `MAX_FRAME_BYTES`.
    TooLarge,
    /// The input ends before the frame does.
    Truncated,
}

/// `n` as four little-endian bytes.
pub open spec fn le32(n: nat) -> Seq<u8> {
    seq![(n % 256) as u8, ((n / 256) % 256) as u8, ((n / 65536) % 256) as u8, ((n / 16777216) % 256) as u8]
}

/// The value of four little-endian bytes.
pub open spec fn le32_value(b: Seq<u8>) -> nat {
    b[0] as nat + b[1] as nat * 256 + b[2] as nat * 65536 + b[3] as nat * 16777216
}

/// A frame: the body's length, then the body.
pub open spec fn frame(body: Seq<u8>) -> Seq<u8> {
    le32(body.len()) + body
}

/// Appends the frame of `body` to `out`; a body over `MAX_FRAME_BYTES` is
/// refused and nothing is written.
pub fn write_frame(out: &mut Vec<u8>, body: &[u8]) -> (r: Result<(), FrameError>)
    ensures
        body@.len() > MAX_FRAME_BYTES ==> (r matches Err(FrameError::TooLarge) && final(out)@
            == old(out)@),
        body@.len() <= MAX_FRAME_BYTES ==> r is Ok && final(out)@ == old(out)@ + frame(body@),
{
    let n = body.len();
    if n > MAX_FRAME_BYTES {
        return Err(FrameError::TooLarge);
    }
    let ghost start = out@;
    out.push((n % 256) as u8);
    out.push(((n / 256) % 256) as u8);
    out.push(((n / 65536) % 256) as u8);
    out.push(((n / 16777216) % 256) as u8);
    out.extend_from_slice(body);
    assert(out@ =~= start + frame(body@));
    Ok(())
}

/// The body length a frame's four-byte prefix announces, when acceptable.
pub fn frame_len(prefix: &[u8]) -> (r: Result<usize, FrameError>)
    requires
        prefix@.len() == 4,
    ensures
        match r {
            Ok(n) => n == le32_value(prefix@) && n <= MAX_FRAME_BYTES,
            Err(e) => e is TooLarge && le32_value(prefix@) > MAX_FRAME_BYTES,
        },
{
    let n: u64 = prefix[0] as u64 + prefix[1] as u64 * 256 + prefix[2] as u64 * 65536 + prefix[3] as u64
        * 16777216;
    if n > MAX_FRAME_BYTES as u64 {
        return Err(FrameError::TooLarge);
    }
    Ok(n as usize)
}

/// What the front of `input` holds as a frame.
pub open spec fn frame_body(input: Seq<u8>) -> Result<Seq<u8>, FrameError> {
    if input.len() < 4 {
        Err(FrameError::Truncated)
    } else {
        let n = le32_value(input.take(4));
        if n > MAX_FRAME_BYTES {
            Err(FrameError::TooLarge)
        } else if input.len() < 4 + n {
            Err(FrameError::Truncated)
        } else {
            Ok(input.subrange(4, 4 + n as int))
        }
    }
}

/// The body of the frame at the front of `input`.
pub fn read_frame(input: &[u8]) -> (r: Result<Vec<u8>, FrameError>)
    ensures
        match (r, frame_body(input@)) {
            (Ok(b), Ok(s)) => b@ == s,
            (Err(FrameError::TooLarge), Err(FrameError::TooLarge)) => true,
            (Err(FrameError::Truncated), Err(FrameError::Truncated)) => true,
            _ => false,
        },
{
    if input.len() < 4 {
        return Err(FrameError::Truncated);
    }
    let prefix = vstd::slice::slice_subrange(input, 0, 4);
    assert(prefix@ =~= input@.take(4));
    let n = match frame_len(prefix) {
        Ok(n) => n,
        Err(e) => return Err(e),
    };
    if input.len() - 4 < n {
        return Err(FrameError::Truncated);
    }
    Ok(vstd::slice::slice_to_vec(vstd::slice::slice_subrange(input, 4, 4 + n)))
}

/// A frame reads back as the body that was written.
pub proof fn lemma_frame_round_trip(body: Seq<u8>, rest: Seq<u8>)
    requires
        body.len() <= MAX_FRAME_BYTES,
    ensures
        frame_body(frame(body) + rest) == Ok::<Seq<u8>, FrameError>(body),
{
    let n = body.len();
    let f = frame(body) + rest;
    assert(f.take(4) =~= le32(n));
    assert(le32_value(le32(n)) == n) by (nonlinear_arith)
        requires
            n <= MAX_FRAME_BYTES,
            le32(n)[0] as nat == n % 256,
            le32(n)[1] as nat == (n / 256) % 256,
            le32(n)[2] as nat == (n / 65536) % 256,
            le32(n)[3] as nat == (n / 16777216) % 256,
    ;
    assert(f.subrange(4, 4 + n as int) =~= body);
}

} // verus!
