//! The least of RFC 6455 the shell's mirror needs: accept an upgrade, read
//! client frames (masked, text/close/ping), write unmasked frames.
//!
//! No fragmentation, no extensions, no binary.

use vstd::prelude::*;
use vstd::utf8::*;

use crate::http::Request;
use crate::text::{char_from_ascii, chars_of, lower, push_char, push_str, to_lower_char};

verus! {

pub const GUID: &'static str = "258EAFA5-E914-47DA-95CA-C5AB0DC85B11";

/// Largest payload accepted from a client.
pub const MAX_PAYLOAD: usize = 262144;

pub const TEXT: u8 = 0x1;

pub const CLOSE: u8 = 0x8;

pub const PING: u8 = 0x9;

pub const PONG: u8 = 0xA;

/// The base64 alphabet.
pub open spec fn b64_digit(i: nat) -> char {
    if i < 26 {
        ((65 + i) as u32) as char
    } else if i < 52 {
        ((97 + i - 26) as u32) as char
    } else if i < 62 {
        ((48 + i - 52) as u32) as char
    } else if i == 62 {
        '+'
    } else {
        '/'
    }
}

/// Standard base64 with `=` padding.
pub open spec fn base64_spec(s: Seq<u8>) -> Seq<char>
    decreases s.len(),
{
    if s.len() == 0 {
        seq![]
    } else {
        let b1: nat = if s.len() > 1 { s[1] as nat } else { 0 };
        let b2: nat = if s.len() > 2 { s[2] as nat } else { 0 };
        let n: nat = (s[0] as nat) * 65536 + b1 * 256 + b2;
        let rest = if s.len() > 3 { s.skip(3) } else { seq![] };
        seq![
            b64_digit((n / 262144) % 64),
            b64_digit((n / 4096) % 64),
            if s.len() > 1 { b64_digit((n / 64) % 64) } else { '=' },
            if s.len() > 2 { b64_digit(n % 64) } else { '=' },
        ] + base64_spec(rest)
    }
}

/// Four characters for every started group of three bytes.
pub proof fn lemma_base64_len(s: Seq<u8>)
    ensures
        base64_spec(s).len() == 4 * ((s.len() + 2) / 3),
    decreases s.len(),
{
    if s.len() > 3 {
        lemma_base64_len(s.skip(3));
        assert(s.skip(3).len() == s.len() - 3);
        assert((s.len() - 3 + 2) / 3 + 1 == (s.len() + 2) / 3);
    } else if s.len() > 0 {
        assert((s.len() + 2) / 3 == 1);
        assert(base64_spec(s).len() == 4 + base64_spec(Seq::<u8>::empty()).len());
    }
}

fn b64_char(i: u32) -> (c: char)
    requires
        i < 64,
    ensures
        c == b64_digit(i as nat),
{
    if i < 26 {
        char_from_ascii((65 + i) as u8)
    } else if i < 52 {
        char_from_ascii((97 + i - 26) as u8)
    } else if i < 62 {
        char_from_ascii((48 + i - 52) as u8)
    } else if i == 62 {
        '+'
    } else {
        '/'
    }
}

pub fn base64(bytes: &[u8]) -> (r: String)
    ensures
        r@ == base64_spec(bytes@),
{
    let mut out = String::new();
    let mut i: usize = 0;
    let n = bytes.len();
    assert(bytes@.skip(0) =~= bytes@);
    while i < n
        invariant
            n == bytes@.len(),
            i <= n,
            out@ + base64_spec(bytes@.skip(i as int)) == base64_spec(bytes@),
        decreases n - i,
    {
        let ghost s = bytes@.skip(i as int);
        let rem = n - i;
        let b0 = bytes[i] as u32;
        let b1: u32 = if rem > 1 { bytes[i + 1] as u32 } else { 0 };
        let b2: u32 = if rem > 2 { bytes[i + 2] as u32 } else { 0 };
        let v: u32 = b0 * 65536 + b1 * 256 + b2;
        let ghost before = out@;
        push_char(&mut out, b64_char((v / 262144) % 64));
        push_char(&mut out, b64_char((v / 4096) % 64));
        if rem > 1 {
            push_char(&mut out, b64_char((v / 64) % 64));
        } else {
            push_char(&mut out, '=');
        }
        if rem > 2 {
            push_char(&mut out, b64_char(v % 64));
        } else {
            push_char(&mut out, '=');
        }
        let next = if rem > 3 { i + 3 } else { n };
        proof {
            assert(s[0] == bytes@[i as int]);
            if rem > 1 { assert(s[1] == bytes@[i + 1]); }
            if rem > 2 { assert(s[2] == bytes@[i + 2]); }
            let rest = if s.len() > 3 { s.skip(3) } else { seq![] };
            assert(rest =~= bytes@.skip(next as int));
            assert(out@ + base64_spec(bytes@.skip(next as int)) =~= before + base64_spec(s));
        }
        i = next;
    }
    assert(bytes@.skip(i as int) =~= seq![]);
    assert(out@ + seq![] =~= out@);
    out
}

/// What SHA-1 makes of a byte string.
pub uninterp spec fn sha1(data: Seq<u8>) -> Seq<u8>;

/// `Sha1::digest` from the `sha1` crate: the 20-byte SHA-1 digest of
/// `data`.
#[verifier::external_body]
fn sha1_digest(data: &[u8]) -> (r: Vec<u8>)
    ensures
        r@ == sha1(data@),
        r@.len() == 20,
{
    <sha1::Sha1 as sha1::Digest>::digest(data).to_vec()
}

/// The `Sec-WebSocket-Accept` value for a client's key.
pub open spec fn accept_value(key: Seq<char>) -> Seq<char> {
    base64_spec(sha1(encode_utf8(key + GUID@)))
}

pub fn accept_key(key: &str) -> (r: String)
    ensures
        r@ == accept_value(key@),
{
    let mut s = String::new();
    push_str(&mut s, key);
    push_str(&mut s, GUID);
    assert(s@ =~= key@ + GUID@);
    let digest = sha1_digest(s.as_str().as_bytes());
    base64(digest.as_slice())
}

/// The handshake answer for an accepted key.
pub open spec fn handshake(accept: Seq<char>) -> Seq<char> {
    "HTTP/1.1 101 Switching Protocols\r\nUpgrade: websocket\r\nConnection: Upgrade\r\nSec-WebSocket-Accept: "@
        + accept + "\r\n\r\n"@
}

/// True when `a` and `b` are equal ignoring ASCII case.
fn eq_ignore_ascii_case(a: &str, b: &str) -> (r: bool)
    ensures
        r == (lower(a@) == lower(b@)),
{
    let va = chars_of(a);
    let vb = chars_of(b);
    if va.len() != vb.len() {
        assert(lower(a@).len() != lower(b@).len());
        return false;
    }
    let mut i: usize = 0;
    while i < va.len()
        invariant
            va@ == a@,
            vb@ == b@,
            va@.len() == vb@.len(),
            0 <= i <= va@.len(),
            forall|k: int| 0 <= k < i ==> lower(a@)[k] == lower(b@)[k],
        decreases va@.len() - i,
    {
        if to_lower_char(va[i]) != to_lower_char(vb[i]) {
            assert(lower(a@)[i as int] != lower(b@)[i as int]);
            return false;
        }
        i = i + 1;
    }
    assert(lower(a@) =~= lower(b@));
    true
}

/// An upgrade to a websocket: `Upgrade: websocket` (any case) and a key.
pub open spec fn is_upgrade_spec(req: Request) -> bool {
    &&& req.header_spec("upgrade"@) matches Some(u) && lower(u) == "websocket"@
    &&& req.header_spec("sec-websocket-key"@) is Some
}

pub fn is_upgrade(req: &Request) -> (r: bool)
    ensures
        r == is_upgrade_spec(*req),
{
    proof {
        reveal_strlit("upgrade");
        reveal_strlit("sec-websocket-key");
        reveal_strlit("websocket");
    }
    let up = match req.header("upgrade") {
        Some(u) => eq_ignore_ascii_case(u, "websocket"),
        None => false,
    };
    proof {
        assert(lower("websocket"@) =~= "websocket"@);
    }
    up && req.header("sec-websocket-key").is_some()
}

/// Completes the handshake for `req`: appends the `101` answer to `out`.
/// After it, the stream carries frames.
pub fn accept(out: &mut Vec<u8>, req: &Request)
    ensures
        final(out)@ == old(out)@ + encode_utf8(handshake(accept_value(
            match req.header_spec("sec-websocket-key"@) {
                Some(k) => k,
                None => seq![],
            },
        ))),
{
    proof {
        reveal_strlit("sec-websocket-key");
        reveal_strlit("");
    }
    let key = match req.header("sec-websocket-key") {
        Some(k) => k,
        None => "",
    };
    let mut head = String::new();
    push_str(&mut head, "HTTP/1.1 101 Switching Protocols\r\nUpgrade: websocket\r\nConnection: Upgrade\r\nSec-WebSocket-Accept: ");
    let a = accept_key(key);
    push_str(&mut head, a.as_str());
    push_str(&mut head, "\r\n\r\n");
    assert(head@ =~= handshake(accept_value(key@)));
    out.extend_from_slice(head.as_str().as_bytes());
}

#[derive(Debug)]
pub struct Frame {
    pub opcode: u8,
    pub payload: Vec<u8>,
}

/// Big-endian value of a byte string.
pub open spec fn be(s: Seq<u8>) -> nat
    decreases s.len(),
{
    if s.len() == 0 {
        0
    } else {
        be(s.drop_last()) * 256 + s.last() as nat
    }
}

/// `n` as `k` big-endian bytes (its low `8k` bits).
pub open spec fn be_bytes(n: nat, k: nat) -> Seq<u8>
    decreases k,
{
    if k == 0 {
        seq![]
    } else {
        be_bytes(n / 256, (k - 1) as nat).push((n % 256) as u8)
    }
}

pub open spec fn pow256(k: nat) -> nat
    decreases k,
{
    if k == 0 {
        1
    } else {
        256 * pow256((k - 1) as nat)
    }
}

/// How many extended-length bytes follow the second header byte.
pub open spec fn ext_len(h1: u8) -> nat {
    let l = h1 & 0x7f;
    if l == 126 {
        2
    } else if l == 127 {
        8
    } else {
        0
    }
}

/// The payload length a frame header announces, its extended length bytes
/// present.
pub open spec fn announced_len(data: Seq<u8>) -> nat {
    let l = data[1] & 0x7f;
    if l == 126 {
        be(data.subrange(2, 4))
    } else if l == 127 {
        be(data.subrange(2, 10))
    } else {
        l as nat
    }
}

/// Each byte of `p` XORed with the mask byte of its position.
pub open spec fn unmask(p: Seq<u8>, mask: Seq<u8>) -> Seq<u8> {
    Seq::new(p.len(), |i: int| p[i] ^ mask[i % 4])
}

/// What the bytes at the front of a client's stream hold.
pub enum FrameSpec {
    /// At least this many bytes are needed to go on.
    Need(nat),
    /// Too long, or not masked: a protocol error.
    Malformed,
    /// A frame (opcode, payload), and how many bytes it took.
    Done(u8, Seq<u8>, nat),
}

/// The client frame at the front of `data`: two header bytes, the extended
/// length, the mask, the masked payload.
pub open spec fn frame_parse(data: Seq<u8>) -> FrameSpec {
    if data.len() < 2 {
        FrameSpec::Need(2)
    } else {
        let x = ext_len(data[1]);
        if data.len() < 2 + x {
            FrameSpec::Need(2 + x)
        } else {
            let n = announced_len(data);
            if n > MAX_PAYLOAD || data[1] & 0x80 == 0 {
                FrameSpec::Malformed
            } else {
                let total = 2 + x + 4 + n;
                if data.len() < total {
                    FrameSpec::Need(total)
                } else {
                    FrameSpec::Done(
                        data[0] & 0x0f,
                        unmask(data.subrange(2 + x + 4int, total as int), data.subrange(2 + x as int, 2 + x + 4int)),
                        total,
                    )
                }
            }
        }
    }
}

/// The exec counterpart of `FrameSpec`.
#[derive(Debug)]
pub enum FrameRead {
    Need(usize),
    Malformed,
    Done(Frame, usize),
}

pub open spec fn frame_read_matches(r: FrameRead, s: FrameSpec) -> bool {
    match (r, s) {
        (FrameRead::Need(n), FrameSpec::Need(m)) => n == m,
        (FrameRead::Malformed, FrameSpec::Malformed) => true,
        (FrameRead::Done(f, n), FrameSpec::Done(op, p, m)) => f.opcode == op && f.payload@ == p && n
            == m,
        _ => false,
    }
}

proof fn lemma_be_bound(s: Seq<u8>)
    ensures
        be(s) < pow256(s.len()),
    decreases s.len(),
{
    if s.len() > 0 {
        lemma_be_bound(s.drop_last());
        let a = be(s.drop_last());
        let p = pow256((s.len() - 1) as nat);
        let l = s.last() as nat;
        assert(a * 256 + l < 256 * p) by (nonlinear_arith)
            requires
                a < p,
                l < 256,
        ;
    }
}

/// Big-endian value of `data[lo..hi]`, at most eight bytes.
fn be_exec(data: &[u8], lo: usize, hi: usize) -> (r: u64)
    requires
        lo <= hi <= data@.len(),
        hi - lo <= 8,
    ensures
        r as nat == be(data@.subrange(lo as int, hi as int)),
{
    let mut v: u64 = 0;
    let mut i = lo;
    proof {
        reveal_with_fuel(pow256, 9);
        assert(pow256(8) == 18446744073709551616nat);
    }
    while i < hi
        invariant
            lo <= i <= hi <= data@.len(),
            hi - lo <= 8,
            pow256(8) == 18446744073709551616nat,
            v as nat == be(data@.subrange(lo as int, i as int)),
        decreases hi - i,
    {
        let ghost t = data@.subrange(lo as int, i + 1);
        assert(t.drop_last() =~= data@.subrange(lo as int, i as int));
        proof {
            lemma_be_bound(t);
            lemma_pow256_mono(t.len(), 8);
        }
        v = v * 256 + data[i] as u64;
        i = i + 1;
    }
    v
}

proof fn lemma_pow256_mono(a: nat, b: nat)
    requires
        a <= b,
    ensures
        pow256(a) <= pow256(b),
    decreases b,
{
    if a < b {
        lemma_pow256_mono(a, (b - 1) as nat);
    }
}

/// How far the bytes at the front of `buf` get towards one client frame.
pub fn frame_progress(buf: &[u8]) -> (r: FrameRead)
    ensures
        frame_read_matches(r, frame_parse(buf@)),
        r matches FrameRead::Need(n) ==> buf@.len() < n,
        r matches FrameRead::Done(_, n) ==> n <= buf@.len(),
{
    if buf.len() < 2 {
        return FrameRead::Need(2);
    }
    let h0 = buf[0];
    let h1 = buf[1];
    let l = h1 & 0x7f;
    let x: usize = if l == 126 { 2 } else if l == 127 { 8 } else { 0 };
    if buf.len() < 2 + x {
        return FrameRead::Need(2 + x);
    }
    let n: u64 = if l == 126 {
        be_exec(buf, 2, 4)
    } else if l == 127 {
        be_exec(buf, 2, 10)
    } else {
        l as u64
    };
    if n > MAX_PAYLOAD as u64 || h1 & 0x80 == 0 {
        return FrameRead::Malformed;
    }
    let n = n as usize;
    let total = 2 + x + 4 + n;
    if buf.len() < total {
        return FrameRead::Need(total);
    }
    let m = 2 + x;
    let mut payload: Vec<u8> = Vec::new();
    let mut i: usize = 0;
    while i < n
        invariant
            m + 4 + n == total <= buf@.len(),
            0 <= i <= n,
            payload@ == unmask(buf@.subrange(m + 4, m + 4 + i), buf@.subrange(m as int, m + 4)),
        decreases n - i,
    {
        let b = buf[m + 4 + i] ^ buf[m + i % 4];
        payload.push(b);
        assert(payload@ =~= unmask(buf@.subrange(m + 4, m + 4 + i + 1), buf@.subrange(m as int, m + 4)));
        i = i + 1;
    }
    FrameRead::Done(Frame { opcode: h0 & 0x0f, payload }, total)
}

/// One frame from the front of `input`, or nothing when the input ends
/// before the frame does or the frame is malformed.
pub fn read_frame(input: &[u8]) -> (r: Option<Frame>)
    ensures
        match r {
            Some(f) => frame_parse(input@) matches FrameSpec::Done(op, p, _) && f.opcode == op
                && f.payload@ == p,
            None => !(frame_parse(input@) is Done),
        },
{
    match frame_progress(input) {
        FrameRead::Done(f, _) => Some(f),
        _ => None,
    }
}

/// The length field of a server frame.
pub open spec fn len_field(n: nat) -> Seq<u8> {
    if n < 126 {
        seq![n as u8]
    } else if n <= 0xFFFF {
        seq![126u8] + be_bytes(n, 2)
    } else {
        seq![127u8] + be_bytes(n, 8)
    }
}

/// An unmasked, final frame.
pub open spec fn server_frame(opcode: u8, payload: Seq<u8>) -> Seq<u8> {
    seq![0x80u8 | opcode] + len_field(payload.len()) + payload
}

fn push_be(out: &mut Vec<u8>, n: u64, k: usize)
    ensures
        final(out)@ == old(out)@ + be_bytes(n as nat, k as nat),
    decreases k,
{
    if k > 0 {
        push_be(out, n / 256, k - 1);
        out.push((n % 256) as u8);
        assert(old(out)@ + be_bytes(n as nat, k as nat) =~= old(out)@ + be_bytes((n / 256) as nat, (k - 1) as nat) + seq![(n % 256) as u8]);
    } else {
        assert(old(out)@ + seq![] =~= old(out)@);
    }
}

/// Appends a final, unmasked frame to `out`.
pub fn write_frame(out: &mut Vec<u8>, opcode: u8, payload: &[u8])
    ensures
        final(out)@ == old(out)@ + server_frame(opcode, payload@),
{
    let ghost start = old(out)@;
    out.push(0x80 | opcode);
    let n = payload.len();
    if n < 126 {
        out.push(n as u8);
    } else if n <= 0xFFFF {
        out.push(126);
        push_be(out, n as u64, 2);
    } else {
        out.push(127);
        push_be(out, n as u64, 8);
    }
    assert(out@ =~= start + seq![0x80u8 | opcode] + len_field(n as nat));
    out.extend_from_slice(payload);
    assert(out@ =~= start + server_frame(opcode, payload@));
}

/// Appends a text frame carrying `text` to `out`.
pub fn send_text(out: &mut Vec<u8>, text: &str)
    ensures
        final(out)@ == old(out)@ + server_frame(TEXT, encode_utf8(text@)),
{
    write_frame(out, TEXT, text.as_bytes());
}

/// A frame as a client sends it, first header byte `b0` (its flags and
/// opcode): the length byte carries the mask bit, the mask follows the
/// length, the payload is masked.
pub open spec fn client_frame(b0: u8, mask: Seq<u8>, payload: Seq<u8>) -> Seq<u8> {
    let lf = len_field(payload.len());
    seq![b0, lf[0] | 0x80u8] + lf.drop_first() + mask + unmask(payload, mask)
}

proof fn lemma_be_bytes(n: nat, k: nat)
    requires
        n < pow256(k),
    ensures
        be(be_bytes(n, k)) == n,
        be_bytes(n, k).len() == k,
    decreases k,
{
    if k > 0 {
        let p = pow256((k - 1) as nat);
        assert(n / 256 < p) by (nonlinear_arith)
            requires
                n < 256 * p,
        ;
        lemma_be_bytes(n / 256, (k - 1) as nat);
        let s = be_bytes(n, k);
        assert(s.drop_last() =~= be_bytes(n / 256, (k - 1) as nat));
        assert((n / 256) * 256 + n % 256 == n) by (nonlinear_arith);
    }
}

/// A masked client frame reads back as the opcode and payload it carries,
/// whatever its flag bits and whatever follows it, taking exactly its own
/// bytes.
pub proof fn lemma_client_frame_round_trip(b0: u8, mask: Seq<u8>, payload: Seq<u8>, rest: Seq<u8>)
    requires
        mask.len() == 4,
        payload.len() <= MAX_PAYLOAD,
    ensures
        frame_parse(client_frame(b0, mask, payload) + rest) == FrameSpec::Done(
            b0 & 0x0f,
            payload,
            client_frame(b0, mask, payload).len(),
        ),
{
    let n = payload.len();
    let lf = len_field(n);
    let f = client_frame(b0, mask, payload);
    let d = f + rest;
    reveal_with_fuel(pow256, 9);
    let h1 = lf[0] | 0x80u8;
    let x: int = if n < 126 { 0 } else if n <= 0xFFFF { 2 } else { 8 };
    if n < 126 {
        let b = n as u8;
        assert(((b | 0x80u8) & 0x7fu8) == b && ((b | 0x80u8) & 0x80u8) != 0) by (bit_vector)
            requires
                b < 126,
        ;
    } else if n <= 0xFFFF {
        assert(((126u8 | 0x80u8) & 0x7fu8) == 126u8 && ((126u8 | 0x80u8) & 0x80u8) != 0) by (bit_vector);
        lemma_be_bytes(n, 2);
        assert(d.subrange(2, 4) =~= be_bytes(n, 2));
    } else {
        assert(((127u8 | 0x80u8) & 0x7fu8) == 127u8 && ((127u8 | 0x80u8) & 0x80u8) != 0) by (bit_vector);
        lemma_be_bytes(n, 8);
        assert(d.subrange(2, 10) =~= be_bytes(n, 8));
    }
    assert(d[0] == b0);
    assert(d[1] == h1);
    assert(f.len() == 2 + x + 4 + n);
    assert(d.subrange(2 + x, 2 + x + 4) =~= mask);
    let body = d.subrange(2 + x + 4, f.len() as int);
    assert(body =~= unmask(payload, mask));
    assert forall|i: int| 0 <= i < n implies #[trigger] unmask(body, mask)[i] == payload[i] by {
        let p = payload[i];
        let m = mask[i % 4];
        assert((p ^ m) ^ m == p) by (bit_vector);
    }
    assert(unmask(body, mask) =~= payload);
}

} // verus!
