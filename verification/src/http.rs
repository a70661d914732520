//! The least HTTP/1.1 that serves a page and a JSON API: one request per
//! connection, a bounded head, a bounded body.
//!
//! Everything here computes on bytes and characters; the stream that the
//! bytes come from and go to belongs to the caller.

use vstd::prelude::*;
use vstd::string::*;
use vstd::utf8::*;

use crate::text::{
    dec, push_dec,
    chars_of, find_char, first_match_from, lemma_first_match_shift, lower, matches_at, pieces,
    push_lower_range, push_range, push_str, range_eq, split, split_range, str_eq, string_of, trim, trim_range,
    utf8_to_string,
};

verus! {

/// Largest head (request line and headers) accepted.
pub const MAX_HEAD_BYTES: usize = 16384;

/// Largest body accepted.
pub const MAX_BODY_BYTES: usize = 65536;

#[derive(Debug)]
pub struct Request {
    pub method: String,
    pub path: String,
    /// Header names lowercased, in the order received. A later line for a
    /// name replaces an earlier one.
    pub headers: Vec<(String, String)>,
    pub body: Vec<u8>,
    /// The request line and headers exactly as received, up to and
    /// including the blank line — what a forwarder replays.
    pub raw_head: Vec<u8>,
}

/// The header list as characters.
pub open spec fn headers_view(hs: Seq<(String, String)>) -> Seq<(Seq<char>, Seq<char>)> {
    hs.map_values(|p: (String, String)| (p.0@, p.1@))
}

/// The value a header table holds for `name`: that of the last entry under
/// it.
pub open spec fn lookup(hs: Seq<(Seq<char>, Seq<char>)>, name: Seq<char>) -> Option<Seq<char>>
    decreases hs.len(),
{
    if hs.len() == 0 {
        None
    } else if hs.last().0 == name {
        Some(hs.last().1)
    } else {
        lookup(hs.drop_last(), name)
    }
}

/// The value of cookie `name` among the `;`-separated pairs of a `Cookie`
/// header: the first pair, trimmed, that reads `name=...`.
pub open spec fn find_cookie(parts: Seq<Seq<char>>, name: Seq<char>) -> Option<Seq<char>>
    decreases parts.len(),
{
    if parts.len() == 0 {
        None
    } else {
        let kv = trim(parts[0]);
        if names_pair(kv, name) {
            Some(kv.skip(name.len() + 1int))
        } else {
            find_cookie(parts.drop_first(), name)
        }
    }
}

/// True when `kv` reads `name=...`.
pub open spec fn names_pair(kv: Seq<char>, name: Seq<char>) -> bool {
    kv.len() > name.len() && kv.take(name.len() as int) == name && kv[name.len() as int] == '='
}

fn pair_matches(hv: &Vec<char>, a: usize, b: usize, nv: &Vec<char>) -> (r: bool)
    requires
        a <= b <= hv@.len(),
    ensures
        r == names_pair(hv@.subrange(a as int, b as int), nv@),
{
    let ghost kv = hv@.subrange(a as int, b as int);
    let n = nv.len();
    if b - a > n {
        assert(kv.take(n as int) =~= hv@.subrange(a as int, a + n));
        assert(kv[n as int] == hv@[a + n]);
        range_eq(hv, a, a + n, nv) && hv[a + n] == '='
    } else {
        false
    }
}

pub open spec fn cookie_value(header: Seq<char>, name: Seq<char>) -> Option<Seq<char>> {
    find_cookie(split(header, seq![';']), name)
}

impl Request {
    pub open spec fn header_spec(&self, name: Seq<char>) -> Option<Seq<char>> {
        lookup(headers_view(self.headers@), name)
    }

    pub fn header(&self, name: &str) -> (r: Option<&str>)
        ensures
            match r {
                Some(v) => self.header_spec(name@) == Some(v@),
                None => self.header_spec(name@) is None,
            },
    {
        let ghost hv = headers_view(self.headers@);
        let mut i = self.headers.len();
        assert(hv.take(i as int) =~= hv);
        while i > 0
            invariant
                hv == headers_view(self.headers@),
                i <= self.headers@.len(),
                lookup(hv, name@) == lookup(hv.take(i as int), name@),
            decreases i,
        {
            let ghost t = hv.take(i as int);
            assert(t.drop_last() =~= hv.take(i - 1));
            assert(t.last() == hv[i - 1]);
            if str_eq(self.headers[i - 1].0.as_str(), name) {
                return Some(self.headers[i - 1].1.as_str());
            }
            i = i - 1;
        }
        None
    }

    /// The value of one cookie, if the request carries it.
    pub fn cookie(&self, name: &str) -> (r: Option<&str>)
        ensures
            match r {
                Some(v) => self.header_spec("cookie"@) matches Some(h) && cookie_value(h, name@)
                    == Some(v@),
                None => self.header_spec("cookie"@) matches Some(h) ==> cookie_value(h, name@) is None,
            },
    {
        proof {
            reveal_strlit("cookie");
        }
        let h = match self.header("cookie") {
            Some(h) => h,
            None => return None,
        };
        let hv = chars_of(h);
        let nv = chars_of(name);
        let semi = vec![';'];
        assert(semi@ =~= seq![';']);
        let parts = split_range(&hv, 0, hv.len(), &semi);
        assert(hv@.subrange(0, hv@.len() as int) =~= hv@);
        let ghost ps = pieces(hv@, parts@);
        let mut j: usize = 0;
        assert(ps.skip(0) =~= ps);
        while j < parts.len()
            invariant
                ps == pieces(hv@, parts@),
                ps.len() == parts@.len(),
                hv@ == h@,
                nv@ == name@,
                self.header_spec("cookie"@) == Some(h@),
                forall|k: int| 0 <= k < parts@.len() ==> 0 <= (#[trigger] parts@[k]).0 <= parts@[k].1 <= hv@.len(),
                0 <= j <= parts@.len(),
                cookie_value(h@, name@) == find_cookie(ps.skip(j as int), name@),
            decreases parts@.len() - j,
        {
            let (lo, hi) = parts[j];
            let (a, b) = trim_range(&hv, lo, hi);
            let ghost kv = trim(ps[j as int]);
            assert(ps[j as int] == hv@.subrange(lo as int, hi as int));
            assert(kv == hv@.subrange(a as int, b as int));
            assert(ps.skip(j as int).drop_first() =~= ps.skip(j + 1));
            assert(ps.skip(j as int)[0] == ps[j as int]);
            if pair_matches(&hv, a, b, &nv) {
                let n = nv.len();
                assert(kv.skip(n + 1) =~= hv@.subrange(a + n + 1, b as int));
                assert(find_cookie(ps.skip(j as int), name@) == Some(kv.skip(n + 1)));
                let v = h.substring_char(a + n + 1, b);
                assert(v@ == kv.skip(n + 1));
                assert(cookie_value(h@, name@) == Some(v@));
                assert(self.header_spec("cookie"@) == Some(h@));
                return Some(v);
            }
            j = j + 1;
        }
        None
    }
}

/// `\r\n`.
pub open spec fn crlf() -> Seq<char> {
    seq!['\r', '\n']
}

/// The entry a header line makes, if it has a colon: the name before the
/// first colon, trimmed and lowercased, and the value after it, trimmed.
pub open spec fn header_entry(line: Seq<char>) -> Option<(Seq<char>, Seq<char>)> {
    match first_match_from(line, seq![':'], 0) {
        Some(c) => Some((lower(trim(line.take(c))), trim(line.skip(c + 1)))),
        None => None,
    }
}

/// The entries the header lines make, in order.
pub open spec fn header_entries(lines: Seq<Seq<char>>) -> Seq<(Seq<char>, Seq<char>)>
    decreases lines.len(),
{
    if lines.len() == 0 {
        seq![]
    } else {
        header_entries(lines.drop_last()) + match header_entry(lines.last()) {
            Some(e) => seq![e],
            None => seq![],
        }
    }
}

/// Method, path and header entries of a head, or nothing when the head is
/// not UTF-8 or its request line has no space.
pub open spec fn head_parts(head: Seq<u8>) -> Option<(Seq<char>, Seq<char>, Seq<(Seq<char>, Seq<char>)>)> {
    if !valid_utf8(head) {
        None
    } else {
        let lines = split(decode_utf8(head), crlf());
        let rl = split(lines[0], seq![' ']);
        if rl.len() < 2 {
            None
        } else {
            Some((rl[0], rl[1], header_entries(lines.skip(1))))
        }
    }
}

/// The digits `s` read as a decimal number.
pub open spec fn digits_value(s: Seq<char>) -> nat
    decreases s.len(),
{
    if s.len() == 0 {
        0
    } else {
        digits_value(s.drop_last()) * 10 + ((s.last() as u32) - 48) as nat
    }
}

/// Decimal reading: one more digit on the right is ten times the value
/// so far, plus that digit.
pub proof fn lemma_digits_value_push(s: Seq<char>, d: char)
    ensures
        digits_value(s.push(d)) == digits_value(s) * 10 + ((d as u32) - 48) as nat,
{
    assert(s.push(d).drop_last() =~= s);
}

/// `usize::from_str` on digits: one digit is its value, and one more
/// digit on the right makes ten times the value plus the digit, while it
/// fits.
pub proof fn lemma_parse_usize_digits(s: Seq<char>, d: char)
    requires
        '0' <= d <= '9',
        s.len() == 0 || all_digits(s),
    ensures
        s.len() == 0 ==> parse_usize(s.push(d)) == Some(((d as u32) - 48) as nat),
        s.len() > 0 ==> parse_usize(s.push(d)) == match parse_usize(s) {
            Some(v) => if v * 10 + ((d as u32) - 48) <= usize::MAX {
                Some((v * 10 + ((d as u32) - 48)) as nat)
            } else {
                None
            },
            None => None,
        },
{
    let t = s.push(d);
    lemma_digits_value_push(s, d);
    assert(t[t.len() - 1] == d);
    assert(forall|i: int| 0 <= i < s.len() ==> t[i] == s[i]);
    if s.len() == 0 {
        assert(t =~= seq![d]);
        assert(seq![d].drop_last() =~= Seq::<char>::empty());
        assert(t[0] != '+');
        assert(all_digits(t));
    } else {
        assert(s[0] != '+');
        assert(t[0] != '+');
        assert(all_digits(t));
        if digits_value(s) > usize::MAX {
            assert(digits_value(t) > usize::MAX);
        }
    }
}

pub open spec fn all_digits(s: Seq<char>) -> bool {
    s.len() > 0 && forall|i: int| 0 <= i < s.len() ==> '0' <= #[trigger] s[i] <= '9'
}

/// `usize::from_str`: an optional `+`, then decimal digits, in range.
pub open spec fn parse_usize(s: Seq<char>) -> Option<nat> {
    let d = if s.len() > 0 && s[0] == '+' {
        s.drop_first()
    } else {
        s
    };
    if all_digits(d) && digits_value(d) <= usize::MAX {
        Some(digits_value(d))
    } else {
        None
    }
}

/// The body length a header table announces: `content-length` when it
/// parses, else none.
pub open spec fn body_length(hs: Seq<(Seq<char>, Seq<char>)>) -> nat {
    match lookup(hs, "content-length"@) {
        Some(v) => match parse_usize(v) {
            Some(n) => n,
            None => 0,
        },
        None => 0,
    }
}

/// `\r\n\r\n` as bytes.
pub open spec fn blank_line() -> Seq<u8> {
    seq![13u8, 10u8, 13u8, 10u8]
}

/// Where the head ends: just past the first blank line.
pub open spec fn head_end(data: Seq<u8>) -> Option<int> {
    match first_match_from(data, blank_line(), 0) {
        Some(i) => Some(i + 4),
        None => None,
    }
}

proof fn lemma_digits_value_prefix(s: Seq<char>, k: int)
    requires
        0 <= k <= s.len(),
    ensures
        digits_value(s.take(k)) <= digits_value(s),
    decreases s.len(),
{
    if k < s.len() {
        lemma_digits_value_prefix(s.drop_last(), k);
        assert(s.drop_last().take(k) =~= s.take(k));
    } else {
        assert(s.take(k) =~= s);
    }
}

/// `usize::from_str` on `s`.
fn parse_usize_exec(s: &str) -> (r: Option<usize>)
    ensures
        match r {
            Some(n) => parse_usize(s@) == Some(n as nat),
            None => parse_usize(s@) is None,
        },
{
    let v = chars_of(s);
    let start: usize = if v.len() > 0 && v[0] == '+' { 1 } else { 0 };
    let ghost d = if v@.len() > 0 && v@[0] == '+' { v@.drop_first() } else { v@ };
    assert(d =~= v@.skip(start as int));
    if start == v.len() {
        return None;
    }
    let mut val: usize = 0;
    let mut i = start;
    while i < v.len()
        invariant
            start <= i <= v@.len(),
            v@ == s@,
            d == if v@.len() > 0 && v@[0] == '+' { v@.drop_first() } else { v@ },
            d == v@.skip(start as int),
            val as nat == digits_value(d.take(i - start)),
            forall|q: int| 0 <= q < i - start ==> '0' <= #[trigger] d[q] <= '9',
        decreases v@.len() - i,
    {
        let c = v[i];
        assert(d.take(i + 1 - start).drop_last() =~= d.take(i - start));
        assert(d.take(i + 1 - start).last() == c);
        if !('0' <= c && c <= '9') {
            assert(d[i - start] == c);
            return None;
        }
        let digit = (c as u32 - 48) as usize;
        let next = match val.checked_mul(10) {
            Some(m) => m.checked_add(digit),
            None => None,
        };
        match next {
            Some(n) => {
                val = n;
            },
            None => {
                proof {
                    lemma_digits_value_prefix(d, i + 1 - start);
                }
                return None;
            },
        }
        i = i + 1;
    }
    assert(d.take(i - start) =~= d);
    Some(val)
}

/// The first blank line in `data`.
fn find_head_end(data: &Vec<u8>) -> (r: Option<usize>)
    ensures
        match r {
            Some(e) => head_end(data@) == Some(e as int) && e <= data@.len(),
            None => head_end(data@) is None,
        },
{
    let n = data.len();
    let mut i: usize = 0;
    while i < n && 4 <= n - i
        invariant
            n == data@.len(),
            forall|j: int| 0 <= j < i ==> !matches_at(data@, blank_line(), j),
        decreases n - i,
    {
        if data[i] == 13 && data[i + 1] == 10 && data[i + 2] == 13 && data[i + 3] == 10 {
            proof {
                assert(data@.subrange(i as int, i + 4) =~= blank_line());
                lemma_first_match_shift(data@, blank_line(), 0, 0, Some(i as int));
                assert(data@.skip(0) =~= data@);
            }
            return Some(i + 4);
        }
        proof {
            if matches_at(data@, blank_line(), i as int) {
                assert(data@.subrange(i as int, i + 4)[0] == data@[i as int]);
                assert(data@.subrange(i as int, i + 4)[1] == data@[i + 1]);
                assert(data@.subrange(i as int, i + 4)[2] == data@[i + 2]);
                assert(data@.subrange(i as int, i + 4)[3] == data@[i + 3]);
            }
        }
        i = i + 1;
    }
    proof {
        lemma_first_match_shift(data@, blank_line(), 0, 0, None);
        assert(data@.skip(0) =~= data@);
    }
    None
}

/// A parsed head, before its body arrives.
struct ParsedHead {
    method: String,
    path: String,
    headers: Vec<(String, String)>,
}

/// The entry of the line `cs[lo..hi]`, added to `out` when it has one.
fn push_header_entry(cs: &Vec<char>, lo: usize, hi: usize, out: &mut Vec<(String, String)>)
    requires
        lo <= hi <= cs@.len(),
    ensures
        headers_view(final(out)@) == headers_view(old(out)@) + match header_entry(
            cs@.subrange(lo as int, hi as int),
        ) {
            Some(e) => seq![e],
            None => seq![],
        },
{
    let ghost line = cs@.subrange(lo as int, hi as int);
    match find_char(cs, lo, hi, ':') {
        Some(c) => {
            let (a, b) = trim_range(cs, lo, c);
            let mut key = String::new();
            push_lower_range(&mut key, cs, a, b);
            let (a2, b2) = trim_range(cs, c + 1, hi);
            let val = string_of(cs, a2, b2);
            assert(line.take(c - lo) =~= cs@.subrange(lo as int, c as int));
            assert(line.skip(c - lo + 1) =~= cs@.subrange(c + 1, hi as int));
            assert(key@ =~= lower(trim(line.take(c - lo))));
            let ghost before = out@;
            out.push((key, val));
            assert(headers_view(out@) =~= headers_view(before) + seq![(key@, val@)]);
        },
        None => {
            assert(headers_view(out@) =~= headers_view(out@) + seq![]);
        },
    }
}

fn parse_head(head: &[u8]) -> (r: Option<ParsedHead>)
    ensures
        match r {
            Some(h) => head_parts(head@) == Some((h.method@, h.path@, headers_view(h.headers@))),
            None => head_parts(head@) is None,
        },
{
    let s = match utf8_to_string(head) {
        Some(s) => s,
        None => return None,
    };
    let cs = chars_of(s.as_str());
    let crlf_v = vec!['\r', '\n'];
    assert(crlf_v@ =~= crlf());
    let lines = split_range(&cs, 0, cs.len(), &crlf_v);
    assert(cs@.subrange(0, cs@.len() as int) =~= cs@);
    let ghost ls = pieces(cs@, lines@);
    let (l0, h0) = lines[0];
    let space = vec![' '];
    assert(space@ =~= seq![' ']);
    let rl = split_range(&cs, l0, h0, &space);
    assert(ls[0] == cs@.subrange(l0 as int, h0 as int));
    if rl.len() < 2 {
        return None;
    }
    let method = string_of(&cs, rl[0].0, rl[0].1);
    let path = string_of(&cs, rl[1].0, rl[1].1);
    let mut headers: Vec<(String, String)> = Vec::new();
    let mut j: usize = 1;
    assert(ls.skip(1).take(0) =~= seq![]);
    while j < lines.len()
        invariant
            ls == pieces(cs@, lines@),
            ls.len() == lines@.len(),
            forall|k: int| 0 <= k < lines@.len() ==> 0 <= (#[trigger] lines@[k]).0 <= lines@[k].1 <= cs@.len(),
            1 <= j <= lines@.len(),
            headers_view(headers@) == header_entries(ls.skip(1).take(j - 1)),
        decreases lines@.len() - j,
    {
        let (lo, hi) = lines[j];
        push_header_entry(&cs, lo, hi, &mut headers);
        assert(ls.skip(1).take(j as int).drop_last() =~= ls.skip(1).take(j - 1));
        assert(ls.skip(1).take(j as int).last() == cs@.subrange(lo as int, hi as int));
        j = j + 1;
    }
    assert(ls.skip(1).take(j - 1) =~= ls.skip(1));
    Some(ParsedHead { method, path, headers })
}

/// What the bytes received so far settle about a request.
pub enum Verdict {
    /// The request is not complete yet: read more.
    More,
    /// The request cannot be accepted.
    Fail,
    /// The request is complete; its head ends at the index.
    Complete(int),
}

/// The decision on the bytes received so far: the head must end within
/// `MAX_HEAD_BYTES` (checked only while it has not been found), parse, and
/// announce no more than `MAX_BODY_BYTES` of body; then the body must have
/// arrived.
pub open spec fn verdict(data: Seq<u8>) -> Verdict {
    match head_end(data) {
        None => if data.len() >= MAX_HEAD_BYTES {
            Verdict::Fail
        } else {
            Verdict::More
        },
        Some(e) => match head_parts(data.take(e)) {
            None => Verdict::Fail,
            Some(p) => if body_length(p.2) > MAX_BODY_BYTES {
                Verdict::Fail
            } else if data.len() - e >= body_length(p.2) {
                Verdict::Complete(e)
            } else {
                Verdict::More
            },
        },
    }
}

/// `req` is the request that `data` holds, its head ending at `e`.
pub open spec fn request_of(req: Request, data: Seq<u8>, e: int) -> bool {
    &&& head_parts(data.take(e)) matches Some(p)
    &&& req.method@ == p.0
    &&& req.path@ == p.1
    &&& headers_view(req.headers@) == p.2
    &&& req.body@ == data.subrange(e, e + body_length(p.2))
    &&& req.raw_head@ == data.take(e)
}

/// The outcome of one look at the bytes received so far.
#[derive(Debug)]
pub enum ReadStep {
    NeedMore,
    Failed,
    Done(Request),
}

/// Reads one request from the bytes of a connection as they arrive. The
/// caller asks `step` what to do; on `NeedMore` it reads more and hands the
/// bytes to `push`, and when the connection ends first the request fails.
pub struct RequestReader {
    buf: Vec<u8>,
    head: Option<(ParsedHead, usize, usize)>,
}

impl RequestReader {
    /// The bytes received so far.
    pub closed spec fn data(&self) -> Seq<u8> {
        self.buf@
    }

    pub closed spec fn wf(&self) -> bool {
        match self.head {
            None => true,
            Some((h, e, n)) => {
                &&& head_end(self.buf@) == Some(e as int)
                &&& e <= self.buf@.len()
                &&& head_parts(self.buf@.take(e as int)) == Some((h.method@, h.path@, headers_view(h.headers@)))
                &&& n == body_length(headers_view(h.headers@))
                &&& n <= MAX_BODY_BYTES
            },
        }
    }

    pub fn new() -> (r: RequestReader)
        ensures
            r.wf(),
            r.data() == Seq::<u8>::empty(),
    {
        RequestReader { buf: Vec::new(), head: None }
    }

    /// Bytes arrived.
    pub fn push(&mut self, bytes: &[u8])
        requires
            old(self).wf(),
        ensures
            final(self).wf(),
            final(self).data() == old(self).data() + bytes@,
    {
        let ghost before = self.buf@;
        let mut i: usize = 0;
        while i < bytes.len()
            invariant
                0 <= i <= bytes@.len(),
                before == old(self).buf@,
                self.head == old(self).head,
                self.buf@ == before + bytes@.take(i as int),
            decreases bytes@.len() - i,
        {
            self.buf.push(bytes[i]);
            assert(bytes@.take(i + 1) =~= bytes@.take(i as int).push(bytes@[i as int]));
            i = i + 1;
        }
        assert(bytes@.take(i as int) =~= bytes@);
        proof {
            if let Some(t) = &self.head {
                let e = t.1;
                lemma_head_end_stable(before, bytes@, e as int);
                assert(self.buf@.take(e as int) =~= before.take(e as int));
            }
        }
    }

    /// What the bytes received so far decide.
    pub fn step(&mut self) -> (r: ReadStep)
        requires
            old(self).wf(),
        ensures
            final(self).wf(),
            final(self).data() == old(self).data(),
            match r {
                ReadStep::NeedMore => verdict(old(self).data()) is More,
                ReadStep::Failed => verdict(old(self).data()) is Fail,
                ReadStep::Done(req) => verdict(old(self).data()) matches Verdict::Complete(e)
                    && request_of(req, old(self).data(), e),
            },
    {
        if self.head.is_none() {
            match find_head_end(&self.buf) {
                None => {
                    if self.buf.len() >= MAX_HEAD_BYTES {
                        return ReadStep::Failed;
                    }
                    return ReadStep::NeedMore;
                },
                Some(e) => {
                    let h = match parse_head(slice_prefix(&self.buf, e)) {
                        Some(h) => h,
                        None => return ReadStep::Failed,
                    };
                    let n = content_length(&h.headers);
                    match n {
                        Some(n) => {
                            self.head = Some((h, e, n));
                        },
                        None => return ReadStep::Failed,
                    }
                },
            }
        }
        let (h, e, n) = match self.head.take() {
            Some(t) => t,
            None => return ReadStep::Failed,
        };
        if self.buf.len() - e >= n {
            let mut body: Vec<u8> = Vec::new();
            let mut i = e;
            let end = e + n;
            while i < end
                invariant
                    end == e + n,
                    e <= i <= e + n <= self.buf@.len(),
                    body@ == self.buf@.subrange(e as int, i as int),
                decreases end - i,
            {
                body.push(self.buf[i]);
                assert(self.buf@.subrange(e as int, i + 1) =~= self.buf@.subrange(e as int, i as int).push(self.buf@[i as int]));
                i = i + 1;
            }
            let raw_head = vstd::slice::slice_to_vec(slice_prefix(&self.buf, e));
            ReadStep::Done(Request { method: h.method, path: h.path, headers: h.headers, body, raw_head })
        } else {
            self.head = Some((h, e, n));
            ReadStep::NeedMore
        }
    }
}

/// `v[..n]`.
fn slice_prefix(v: &Vec<u8>, n: usize) -> (r: &[u8])
    requires
        n <= v@.len(),
    ensures
        r@ == v@.take(n as int),
{
    vstd::slice::slice_subrange(v.as_slice(), 0, n)
}

/// The announced body length, or nothing when it is too large.
fn content_length(headers: &Vec<(String, String)>) -> (r: Option<usize>)
    ensures
        match r {
            Some(n) => n == body_length(headers_view(headers@)) && n <= MAX_BODY_BYTES,
            None => body_length(headers_view(headers@)) > MAX_BODY_BYTES,
        },
{
    let mut i = headers.len();
    let ghost hv = headers_view(headers@);
    assert(hv.take(i as int) =~= hv);
    proof {
        reveal_strlit("content-length");
    }
    let key = "content-length";
    let mut found: Option<usize> = None;
    while i > 0
        invariant
            hv == headers_view(headers@),
            i <= headers@.len(),
            key@ == "content-length"@,
            lookup(hv, key@) == lookup(hv.take(i as int), key@),
        decreases i,
    {
        let ghost t = hv.take(i as int);
        assert(t.drop_last() =~= hv.take(i - 1));
        assert(t.last() == hv[i - 1]);
        if str_eq(headers[i - 1].0.as_str(), key) {
            let n = match parse_usize_exec(headers[i - 1].1.as_str()) {
                Some(n) => n,
                None => 0,
            };
            if n > MAX_BODY_BYTES {
                return None;
            }
            return Some(n);
        }
        i = i - 1;
    }
    Some(0)
}

proof fn lemma_head_end_stable(a: Seq<u8>, b: Seq<u8>, e: int)
    requires
        head_end(a) == Some(e),
    ensures
        head_end(a + b) == Some(e),
{
    let i = e - 4;
    crate::text::lemma_first_match_range(a, blank_line(), 0);
    let ab = a + b;
    assert(ab.subrange(i, i + 4) =~= a.subrange(i, i + 4));
    assert forall|j: int| 0 <= j < i implies !matches_at(ab, blank_line(), j) by {
        lemma_no_match_before(a, j);
        assert(ab.subrange(j, j + 4) =~= a.subrange(j, j + 4));
    }
    lemma_first_match_shift(ab, blank_line(), 0, 0, Some(i));
    assert(ab.skip(0) =~= ab);
}

proof fn lemma_no_match_before(a: Seq<u8>, j: int)
    requires
        head_end(a) matches Some(e) && 0 <= j < e - 4,
    ensures
        !matches_at(a, blank_line(), j),
{
    lemma_first_before(a, blank_line(), 0, j);
}

proof fn lemma_first_before<A>(s: Seq<A>, sep: Seq<A>, i: int, j: int)
    requires
        first_match_from(s, sep, i) matches Some(f) && i <= j < f,
    ensures
        !matches_at(s, sep, j),
    decreases s.len() + 1 - i,
{
    if i < 0 || i + sep.len() > s.len() {
    } else if matches_at(s, sep, i) {
    } else if i < j {
        lemma_first_before(s, sep, i + 1, j);
    }
}

/// `s` with every trailing `\r\n` removed (`trim_end_matches("\r\n")`).
pub open spec fn trim_crlf_end(s: Seq<char>) -> Seq<char>
    decreases s.len(),
{
    if s.len() >= 2 && s[s.len() - 2] == '\r' && s[s.len() - 1] == '\n' {
        trim_crlf_end(s.take(s.len() - 2))
    } else {
        s
    }
}

/// What a header line names: the text before its first colon, or the
/// whole line.
pub open spec fn name_part(line: Seq<char>) -> Seq<char> {
    match first_match_from(line, seq![':'], 0) {
        Some(c) => line.take(c),
        None => line,
    }
}

pub open spec fn line_name(line: Seq<char>) -> Seq<char> {
    lower(trim(name_part(line)))
}

/// The header lines whose names `drop` does not hold, each with its
/// `\r\n`.
pub open spec fn kept_lines(lines: Seq<Seq<char>>, drop: Seq<Seq<char>>) -> Seq<char>
    decreases lines.len(),
{
    if lines.len() == 0 {
        seq![]
    } else {
        kept_lines(lines.drop_last(), drop) + if drop.contains(line_name(lines.last())) {
            seq![]
        } else {
            lines.last() + crlf()
        }
    }
}

/// Each of `add`, with its `\r\n`.
pub open spec fn added_lines(add: Seq<Seq<char>>) -> Seq<char>
    decreases add.len(),
{
    if add.len() == 0 {
        seq![]
    } else {
        added_lines(add.drop_last()) + add.last() + crlf()
    }
}

/// The head again: request line, the header lines not dropped, the added
/// lines, the blank line.
pub open spec fn rewritten(head: Seq<char>, drop: Seq<Seq<char>>, add: Seq<Seq<char>>) -> Seq<char> {
    let lines = split(trim_crlf_end(head), crlf());
    lines[0] + crlf() + kept_lines(lines.skip(1), drop) + added_lines(add) + crlf()
}

/// With nothing dropped, a list of lines comes back each with its `\r\n`:
/// the first line, then the rest.
proof fn lemma_kept_cons(a: Seq<char>, rest: Seq<Seq<char>>)
    ensures
        kept_lines(seq![a] + rest, seq![]) == a + crlf() + kept_lines(rest, seq![]),
    decreases rest.len(),
{
    if rest.len() == 0 {
        assert(seq![a] + rest =~= seq![a]);
        assert(seq![a].drop_last() =~= Seq::<Seq<char>>::empty());
        assert(!Seq::<Seq<char>>::empty().contains(line_name(a)));
        assert(kept_lines(Seq::<Seq<char>>::empty(), seq![]) == Seq::<char>::empty());
        assert(kept_lines(seq![a], seq![]) =~= a + crlf());
        assert(a + crlf() + kept_lines(rest, seq![]) =~= a + crlf());
    } else {
        lemma_kept_cons(a, rest.drop_last());
        assert(!Seq::<Seq<char>>::empty().contains(line_name(rest.last())));
        assert((seq![a] + rest).drop_last() =~= seq![a] + rest.drop_last());
        assert((seq![a] + rest).last() == rest.last());
        assert(a + crlf() + kept_lines(rest.drop_last(), seq![]) + (rest.last() + crlf()) =~= a + crlf() + (
        kept_lines(rest.drop_last(), seq![]) + (rest.last() + crlf())));
    }
}

/// The lines of `s` between its `\r\n`s, put back each with its `\r\n`,
/// are `s` and a final `\r\n`.
proof fn lemma_split_rejoin(s: Seq<char>)
    ensures
        kept_lines(split(s, crlf()), seq![]) == s + crlf(),
    decreases s.len(),
{
    crate::text::lemma_first_match_range(s, crlf(), 0);
    match first_match_from(s, crlf(), 0) {
        None => {
            assert(split(s, crlf()) == seq![s]);
            lemma_kept_cons(s, seq![]);
            assert(seq![s] + Seq::<Seq<char>>::empty() =~= seq![s]);
            assert(s + crlf() + kept_lines(Seq::<Seq<char>>::empty(), seq![]) =~= s + crlf());
        },
        Some(i) => {
            let rest = s.skip(i + 2);
            lemma_split_rejoin(rest);
            assert(split(s, crlf()) == seq![s.take(i)] + split(rest, crlf()));
            lemma_kept_cons(s.take(i), split(rest, crlf()));
            assert(s.subrange(i, i + 2) == crlf());
            assert(s.take(i) + crlf() + (rest + crlf()) =~= s + crlf());
        },
    }
}

/// A head rewritten with nothing dropped and nothing added is the head
/// itself, when it ends at its first blank line.
pub proof fn lemma_rewrite_nothing(head: Seq<char>)
    requires
        head.len() >= 4,
        first_match_from(head, "\r\n\r\n"@, 0) == Some((head.len() - 4) as int),
    ensures
        rewritten(head, seq![], seq![]) == head,
{
    reveal_strlit("\r\n\r\n");
    assert("\r\n\r\n"@ =~= seq!['\r', '\n', '\r', '\n']);
    let n = head.len() as int;
    let c = head.take(n - 4);
    let h2 = head.take(n - 2);
    crate::text::lemma_first_match_range(head, "\r\n\r\n"@, 0);
    assert(head.subrange(n - 4, n) == "\r\n\r\n"@);
    assert(head.subrange(n - 4, n)[0] == head[n - 4]);
    assert(head.subrange(n - 4, n)[1] == head[n - 3]);
    assert(head.subrange(n - 4, n)[2] == head[n - 2]);
    assert(head.subrange(n - 4, n)[3] == head[n - 1]);
    assert(head[n - 4] == '\r' && head[n - 3] == '\n' && head[n - 2] == '\r' && head[n - 1] == '\n');
    // `c` does not end with `\r\n`: that would be an earlier blank line.
    if c.len() >= 2 && c[c.len() - 2] == '\r' && c[c.len() - 1] == '\n' {
        lemma_first_before(head, "\r\n\r\n"@, 0, n - 6);
        assert(head.subrange(n - 6, n - 2) =~= "\r\n\r\n"@);
    }
    assert(h2.take(n - 4) =~= c);
    assert(head.take(n - 2) =~= h2);
    assert(trim_crlf_end(c) == c);
    assert(trim_crlf_end(h2) == trim_crlf_end(c));
    assert(trim_crlf_end(head) == trim_crlf_end(h2));
    let lines = split(c, crlf());
    crate::text::lemma_split_nonempty(c, crlf());
    lemma_split_rejoin(c);
    assert(lines =~= seq![lines[0]] + lines.skip(1));
    lemma_kept_cons(lines[0], lines.skip(1));
    assert(added_lines(Seq::<Seq<char>>::empty()) == Seq::<char>::empty());
    assert(rewritten(head, seq![], seq![]) =~= c + crlf() + crlf());
    assert(head =~= c + crlf() + crlf());
}

/// The same on bytes: a valid UTF-8 head, rewritten with nothing dropped
/// and nothing added, comes back unchanged.
pub proof fn lemma_rewrite_nothing_bytes(raw: Seq<u8>)
    requires
        valid_utf8(raw),
        decode_utf8(raw).len() >= 4,
        first_match_from(decode_utf8(raw), "\r\n\r\n"@, 0) == Some((decode_utf8(raw).len() - 4) as int),
    ensures
        encode_utf8(rewritten(decode_utf8(raw), seq![], seq![])) == raw,
{
    lemma_rewrite_nothing(decode_utf8(raw));
    decode_utf8_encode_utf8(raw);
}

/// What `String::from_utf8_lossy` makes of a byte string.
pub uninterp spec fn utf8_lossy(bytes: Seq<u8>) -> Seq<char>;

/// `String::from_utf8_lossy`: the text of `bytes`, each invalid sequence
/// replaced by U+FFFD. The replacement rule is not stated here; what is
/// stated is that valid UTF-8 comes back as the text it encodes.
#[verifier::external_body]
fn lossy_string(bytes: &[u8]) -> (s: String)
    ensures
        s@ == utf8_lossy(bytes@),
        valid_utf8(bytes@) ==> s@ == decode_utf8(bytes@),
{
    String::from_utf8_lossy(bytes).into_owned()
}

pub open spec fn strs_view(v: Seq<&str>) -> Seq<Seq<char>> {
    v.map_values(|d: &str| d@)
}

pub open spec fn strings_view(v: Seq<String>) -> Seq<Seq<char>> {
    v.map_values(|d: String| d@)
}

/// True when one of `drop` is `name`.
fn any_named(drop: &[&str], name: &str) -> (r: bool)
    ensures
        r == strs_view(drop@).contains(name@),
{
    let mut i: usize = 0;
    while i < drop.len()
        invariant
            0 <= i <= drop@.len(),
            forall|k: int| 0 <= k < i ==> drop@[k]@ != name@,
        decreases drop@.len() - i,
    {
        if str_eq(drop[i], name) {
            assert(strs_view(drop@)[i as int] == name@);
            return true;
        }
        i = i + 1;
    }
    assert forall|k: int| 0 <= k < strs_view(drop@).len() implies strs_view(drop@)[k] != name@ by {
        assert(strs_view(drop@)[k] == drop@[k]@);
    }
    false
}

/// Appends `\r\n`.
fn push_crlf(out: &mut String)
    ensures
        final(out)@ == old(out)@ + crlf(),
{
    crate::text::push_char(out, '\r');
    crate::text::push_char(out, '\n');
    assert(old(out)@.push('\r').push('\n') =~= old(out)@ + crlf());
}

/// Appends the line `hv[lo..hi]` with its `\r\n` unless `drop` names it.
fn push_kept_line(out: &mut String, hv: &Vec<char>, lo: usize, hi: usize, drop: &[&str])
    requires
        lo <= hi <= hv@.len(),
    ensures
        final(out)@ == old(out)@ + if strs_view(drop@).contains(line_name(hv@.subrange(lo as int, hi as int))) {
            seq![]
        } else {
            hv@.subrange(lo as int, hi as int) + crlf()
        },
{
    let ghost line = hv@.subrange(lo as int, hi as int);
    let c = match find_char(hv, lo, hi, ':') {
        Some(c) => c,
        None => hi,
    };
    assert(name_part(line) =~= hv@.subrange(lo as int, c as int));
    let (a, b) = trim_range(hv, lo, c);
    let mut name = String::new();
    push_lower_range(&mut name, hv, a, b);
    assert(name@ =~= line_name(line));
    if any_named(drop, name.as_str()) {
        assert(old(out)@ + seq![] =~= old(out)@);
    } else {
        push_range(out, hv, lo, hi);
        push_crlf(out);
        assert(old(out)@ + line + crlf() =~= old(out)@ + (line + crlf()));
    }
}

impl Request {
    /// The head again, with `drop` headers removed and `add` lines
    /// appended. For a forwarder that must not pass the bearer through and
    /// wants to say who the browser is.
    #[verifier::spinoff_prover]
    #[verifier::rlimit(40)]
    pub fn rewritten_head(&self, drop: &[&str], add: &[String]) -> (r: Vec<u8>)
        ensures
            r@ == encode_utf8(rewritten(utf8_lossy(self.raw_head@), strs_view(drop@), strings_view(add@))),
            valid_utf8(self.raw_head@) ==> r@ == encode_utf8(
                rewritten(decode_utf8(self.raw_head@), strs_view(drop@), strings_view(add@)),
            ),
    {
        let head = lossy_string(self.raw_head.as_slice());
        let hv = chars_of(head.as_str());
        let mut end = hv.len();
        assert(hv@.take(end as int) =~= hv@);
        while end >= 2 && hv[end - 2] == '\r' && hv[end - 1] == '\n'
            invariant
                end <= hv@.len(),
                trim_crlf_end(hv@) == trim_crlf_end(hv@.take(end as int)),
            decreases end,
        {
            assert(hv@.take(end as int).take(end - 2) =~= hv@.take(end - 2));
            end = end - 2;
        }
        let ghost t = hv@.take(end as int);
        assert(trim_crlf_end(t) == t);
        let crlf_v = vec!['\r', '\n'];
        assert(crlf_v@ =~= crlf());
        let lines = split_range(&hv, 0, end, &crlf_v);
        assert(hv@.subrange(0, end as int) =~= t);
        let ghost ls = pieces(hv@, lines@);
        let mut out = String::new();
        push_range(&mut out, &hv, lines[0].0, lines[0].1);
        push_crlf(&mut out);
        assert(out@ =~= ls[0] + crlf());
        let mut j: usize = 1;
        assert(ls.skip(1).take(0) =~= seq![]);
        while j < lines.len()
            invariant
                ls == pieces(hv@, lines@),
                ls.len() == lines@.len(),
                forall|k: int| 0 <= k < lines@.len() ==> 0 <= (#[trigger] lines@[k]).0 <= lines@[k].1 <= hv@.len(),
                1 <= j <= lines@.len(),
                out@ == ls[0] + crlf() + kept_lines(ls.skip(1).take(j - 1), strs_view(drop@)),
            decreases lines@.len() - j,
        {
            let (lo, hi) = lines[j];
            push_kept_line(&mut out, &hv, lo, hi, drop);
            assert(ls.skip(1).take(j as int).drop_last() =~= ls.skip(1).take(j - 1));
            assert(ls.skip(1).take(j as int).last() == hv@.subrange(lo as int, hi as int));
            j = j + 1;
        }
        assert(ls.skip(1).take(j - 1) =~= ls.skip(1));
        let ghost before_add = out@;
        let mut k: usize = 0;
        assert(strings_view(add@).take(0) =~= seq![]);
        while k < add.len()
            invariant
                0 <= k <= add@.len(),
                out@ == before_add + added_lines(strings_view(add@).take(k as int)),
            decreases add@.len() - k,
        {
            push_str(&mut out, add[k].as_str());
            push_crlf(&mut out);
            let ghost av = strings_view(add@);
            assert(av.take(k + 1).drop_last() =~= av.take(k as int));
            assert(av.take(k + 1).last() == add@[k as int]@);
            assert(before_add + added_lines(av.take(k + 1)) =~= before_add + added_lines(av.take(k as int)) + add@[k as int]@ + crlf());
            k = k + 1;
        }
        assert(strings_view(add@).take(k as int) =~= strings_view(add@));
        push_crlf(&mut out);
        let bytes = vstd::slice::slice_to_vec(out.as_str().as_bytes());
        assert(out@ =~= rewritten(utf8_lossy(self.raw_head@), strs_view(drop@), strings_view(add@)));
        proof {
            if valid_utf8(self.raw_head@) {
                assert(utf8_lossy(self.raw_head@) == decode_utf8(self.raw_head@));
            }
        }
        bytes
    }
}

#[verifier::external_type_specification]
#[verifier::external_body]
pub struct ExJsonValue(serde_json::Value);

/// The JSON text serde_json writes for a value (`Value`'s `Display`),
/// as UTF-8 bytes. It depends on the value alone.
pub uninterp spec fn json_text(v: serde_json::Value) -> Seq<u8>;

/// `Value::to_string` as bytes: the JSON text of `v`.
#[verifier::external_body]
fn json_bytes(v: &serde_json::Value) -> (r: Vec<u8>)
    ensures
        r@ == json_text(*v),
{
    v.to_string().into_bytes()
}

#[derive(Debug)]
pub struct Response {
    pub status: u16,
    pub reason: &'static str,
    pub content_type: &'static str,
    pub extra_headers: Vec<String>,
    pub body: Vec<u8>,
}

impl Response {
    pub fn html(body: &str) -> (r: Response)
        ensures
            r.status == 200,
            r.reason@ == "OK"@,
            r.content_type@ == "text/html; charset=utf-8"@,
            r.extra_headers@.len() == 0,
            r.body@ == encode_utf8(body@),
    {
        Response {
            status: 200,
            reason: "OK",
            content_type: "text/html; charset=utf-8",
            extra_headers: Vec::new(),
            body: vstd::slice::slice_to_vec(body.as_bytes()),
        }
    }

    /// A `200 OK` carrying the JSON text of `value`.
    pub fn json(value: &serde_json::Value) -> (r: Response)
        ensures
            r.status == 200,
            r.reason@ == "OK"@,
            r.content_type@ == "application/json"@,
            r.extra_headers@.len() == 0,
            r.body@ == json_text(*value),
    {
        Response {
            status: 200,
            reason: "OK",
            content_type: "application/json",
            extra_headers: Vec::new(),
            body: json_bytes(value),
        }
    }

    /// A plain-text response whose body is its reason.
    pub fn status(status: u16, reason: &'static str) -> (r: Response)
        ensures
            r.status == status,
            r.reason@ == reason@,
            r.content_type@ == "text/plain; charset=utf-8"@,
            r.extra_headers@.len() == 0,
            r.body@ == encode_utf8(reason@),
    {
        Response {
            status,
            reason,
            content_type: "text/plain; charset=utf-8",
            extra_headers: Vec::new(),
            body: vstd::slice::slice_to_vec(reason.as_bytes()),
        }
    }

    pub fn with_header(self, h: String) -> (r: Response)
        ensures
            r.status == self.status,
            r.reason@ == self.reason@,
            r.content_type@ == self.content_type@,
            r.extra_headers@ == self.extra_headers@.push(h),
            r.body@ == self.body@,
    {
        let mut r = self;
        r.extra_headers.push(h);
        r
    }
}

/// The head of a response on the wire.
pub open spec fn response_head(r: Response) -> Seq<char> {
    "HTTP/1.1 "@ + dec(r.status as nat) + " "@ + r.reason@ + "\r\nContent-Type: "@ + r.content_type@
        + "\r\nContent-Length: "@ + dec(r.body@.len()) + "\r\nConnection: close\r\nCache-Control: no-store\r\n"@
        + added_lines(strings_view(r.extra_headers@)) + crlf()
}

/// Writes `r` to `out`: its head, then its body.
pub fn write_response(out: &mut Vec<u8>, r: &Response)
    ensures
        final(out)@ == old(out)@ + encode_utf8(response_head(*r)) + r.body@,
{
    let mut head = String::new();
    push_str(&mut head, "HTTP/1.1 ");
    push_dec(&mut head, r.status as u64);
    push_str(&mut head, " ");
    push_str(&mut head, r.reason);
    push_str(&mut head, "\r\nContent-Type: ");
    push_str(&mut head, r.content_type);
    push_str(&mut head, "\r\nContent-Length: ");
    push_dec(&mut head, r.body.len() as u64);
    push_str(&mut head, "\r\nConnection: close\r\nCache-Control: no-store\r\n");
    let ghost before = head@;
    let mut k: usize = 0;
    assert(strings_view(r.extra_headers@).take(0) =~= seq![]);
    while k < r.extra_headers.len()
        invariant
            0 <= k <= r.extra_headers@.len(),
            head@ == before + added_lines(strings_view(r.extra_headers@).take(k as int)),
        decreases r.extra_headers@.len() - k,
    {
        push_str(&mut head, r.extra_headers[k].as_str());
        push_crlf(&mut head);
        let ghost av = strings_view(r.extra_headers@);
        assert(av.take(k + 1).drop_last() =~= av.take(k as int));
        assert(av.take(k + 1).last() == r.extra_headers@[k as int]@);
        assert(before + added_lines(av.take(k + 1)) =~= before + added_lines(av.take(k as int)) + r.extra_headers@[k as int]@ + crlf());
        k = k + 1;
    }
    assert(strings_view(r.extra_headers@).take(k as int) =~= strings_view(r.extra_headers@));
    push_crlf(&mut head);
    assert(head@ =~= response_head(*r));
    out.extend_from_slice(head.as_str().as_bytes());
    out.extend_from_slice(r.body.as_slice());
}

/// A request is read whole or not at all, and its body is bounded: a
/// complete request holds exactly the body its head announces, at most
/// `MAX_BODY_BYTES`, and its head is the data up to the first blank line.
pub proof fn lemma_request_bounded(data: Seq<u8>, req: Request, e: int)
    requires
        verdict(data) == Verdict::Complete(e),
        request_of(req, data, e),
    ensures
        req.body@.len() <= MAX_BODY_BYTES,
        head_end(data) == Some(e),
        req.raw_head@ == data.take(e),
        e + req.body@.len() <= data.len(),
{
    crate::text::lemma_first_match_range(data, blank_line(), 0);
    let p = head_parts(data.take(e))->0;
    assert(body_length(p.2) <= MAX_BODY_BYTES);
    assert(0 <= e <= data.len());
    assert(req.body@.len() == body_length(p.2));
}

} // verus!
