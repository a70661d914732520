//! atrium-server's part: which browser holds which session (cookie ->
//! session, and nothing more), and how each HTTP request is answered.
//!
//! A request is routed by `handle`; where answering it needs atriumd or
//! randomness, `handle` says so and the caller comes back with the result.

use vstd::prelude::*;

use crate::http::{Request as HttpRequest, Response};
use crate::proto::Reply;
use crate::text::{chars_of, dec, push_char, push_dec, push_str, str_eq, string_of, trim, trim_range};

verus! {

/// The cookie that carries the bearer.
pub const COOKIE: &'static str = "atrium";

/// One browser's binding to a session.
#[derive(Debug)]
pub struct BrowserSession {
    pub session: u64,
    pub username: String,
    pub display_name: String,
}

pub open spec fn bview(b: BrowserSession) -> (u64, Seq<char>, Seq<char>) {
    (b.session, b.username@, b.display_name@)
}

fn copy_session(b: &BrowserSession) -> (r: BrowserSession)
    ensures
        r == *b,
{
    BrowserSession { session: b.session, username: b.username.clone(), display_name: b.display_name.clone() }
}

/// The bindings a list of (cookie, session) entries makes: a later entry
/// for a cookie replaces an earlier one.
pub open spec fn jar_map(s: Seq<(String, BrowserSession)>) -> Map<Seq<char>, (u64, Seq<char>, Seq<char>)>
    decreases s.len(),
{
    if s.len() == 0 {
        Map::empty()
    } else {
        jar_map(s.drop_last()).insert(s.last().0@, bview(s.last().1))
    }
}

/// Cookie -> session. What the server holds is exactly this routing view:
/// no token, no privilege.
pub struct CookieJar {
    entries: Vec<(String, BrowserSession)>,
}

/// Entries not for cookie `k`.
pub open spec fn other_than(k: Seq<char>) -> spec_fn((String, BrowserSession)) -> bool {
    |e: (String, BrowserSession)| e.0@ != k
}

proof fn lemma_jar_filter(s: Seq<(String, BrowserSession)>, k: Seq<char>)
    ensures
        jar_map(s.filter(other_than(k))) == jar_map(s).remove(k),
    decreases s.len(),
{
    reveal_with_fuel(Seq::<_>::filter, 1);
    if s.len() == 0 {
        assert(jar_map(s).remove(k) =~= Map::empty());
    } else {
        lemma_jar_filter(s.drop_last(), k);
        let f = s.filter(other_than(k));
        if s.last().0@ != k {
            assert(f.drop_last() == s.drop_last().filter(other_than(k)));
            assert(jar_map(f) =~= jar_map(s).remove(k));
        } else {
            assert(jar_map(f) =~= jar_map(s).remove(k));
        }
    }
}

impl CookieJar {
    pub closed spec fn view(&self) -> Map<Seq<char>, (u64, Seq<char>, Seq<char>)> {
        jar_map(self.entries@)
    }

    pub fn new() -> (j: CookieJar)
        ensures
            j.view() == Map::<Seq<char>, (u64, Seq<char>, Seq<char>)>::empty(),
    {
        CookieJar { entries: Vec::new() }
    }

    /// The session bound to `cookie`.
    pub fn get(&self, cookie: &str) -> (r: Option<BrowserSession>)
        ensures
            match r {
                Some(b) => self.view().contains_key(cookie@) && self.view()[cookie@] == bview(b),
                None => !self.view().contains_key(cookie@),
            },
    {
        let ghost s = self.entries@;
        let mut i = self.entries.len();
        assert(s.take(i as int) =~= s);
        while i > 0
            invariant
                s == self.entries@,
                i <= s.len(),
                forall|k: int| i <= k < s.len() ==> s[k].0@ != cookie@,
                jar_map(s).contains_key(cookie@) == jar_map(s.take(i as int)).contains_key(cookie@),
                jar_map(s).contains_key(cookie@) ==> jar_map(s)[cookie@] == jar_map(s.take(i as int))[cookie@],
            decreases i,
        {
            assert(s.take(i as int).drop_last() =~= s.take(i - 1));
            assert(s.take(i as int).last() == s[i - 1]);
            if str_eq(self.entries[i - 1].0.as_str(), cookie) {
                return Some(copy_session(&self.entries[i - 1].1));
            }
            i = i - 1;
        }
        None
    }

    /// Binds `cookie` to `b`.
    pub fn insert(&mut self, cookie: String, b: BrowserSession)
        ensures
            final(self).view() == old(self).view().insert(cookie@, bview(b)),
    {
        let ghost s = self.entries@;
        self.entries.push((cookie, b));
        assert(self.entries@.drop_last() =~= s);
    }

    /// Unbinds `cookie`, giving back what it was bound to.
    pub fn remove(&mut self, cookie: &str) -> (r: Option<BrowserSession>)
        ensures
            final(self).view() == old(self).view().remove(cookie@),
            match r {
                Some(b) => old(self).view().contains_key(cookie@) && old(self).view()[cookie@] == bview(b),
                None => !old(self).view().contains_key(cookie@),
            },
    {
        let found = self.get(cookie);
        let ghost s = self.entries@;
        let mut kept: Vec<(String, BrowserSession)> = Vec::new();
        let mut i: usize = 0;
        let ghost pred = other_than(cookie@);
        assert(s.take(0).filter(pred) =~= seq![]);
        while i < self.entries.len()
            invariant
                s == self.entries@,
                i <= s.len(),
                kept@ == s.take(i as int).filter(pred),
                pred == other_than(cookie@),
            decreases s.len() - i,
        {
            assert(s.take(i + 1).drop_last() =~= s.take(i as int));
            reveal_with_fuel(Seq::<_>::filter, 1);
            if !str_eq(self.entries[i].0.as_str(), cookie) {
                let e = (self.entries[i].0.clone(), copy_session(&self.entries[i].1));
                kept.push(e);
            }
            i = i + 1;
        }
        assert(s.take(i as int) =~= s);
        self.entries = kept;
        proof {
            lemma_jar_filter(s, cookie@);
        }
        found
    }
}

/// `Set-Cookie` binding the bearer `value`.
pub open spec fn set_cookie_spec(value: Seq<char>) -> Seq<char> {
    "Set-Cookie: atrium="@ + value + "; Path=/; HttpOnly; SameSite=Strict"@
}

pub fn set_cookie(value: &str) -> (h: String)
    ensures
        h@ == set_cookie_spec(value@),
{
    let mut h = String::new();
    push_str(&mut h, "Set-Cookie: atrium=");
    push_str(&mut h, value);
    push_str(&mut h, "; Path=/; HttpOnly; SameSite=Strict");
    assert(h@ =~= set_cookie_spec(value@));
    h
}

/// `Set-Cookie` clearing the bearer.
pub open spec fn clear_cookie_spec() -> Seq<char> {
    "Set-Cookie: atrium=; Path=/; HttpOnly; SameSite=Strict; Max-Age=0"@
}

pub fn clear_cookie() -> (h: String)
    ensures
        h@ == clear_cookie_spec(),
{
    let mut h = String::new();
    push_str(&mut h, "Set-Cookie: atrium=; Path=/; HttpOnly; SameSite=Strict; Max-Age=0");
    assert(h@ =~= clear_cookie_spec());
    h
}

/// The HTML text for one character.
pub open spec fn esc_char(c: char) -> Seq<char> {
    if c == '&' {
        "&amp;"@
    } else if c == '<' {
        "&lt;"@
    } else if c == '>' {
        "&gt;"@
    } else if c == '"' {
        "&quot;"@
    } else {
        seq![c]
    }
}

/// `s` safe to place in HTML text and attribute values.
pub open spec fn escape_spec(s: Seq<char>) -> Seq<char>
    decreases s.len(),
{
    if s.len() == 0 {
        seq![]
    } else {
        escape_spec(s.drop_last()) + esc_char(s.last())
    }
}

pub fn escape(s: &str) -> (r: String)
    ensures
        r@ == escape_spec(s@),
{
    let v = chars_of(s);
    let mut out = String::new();
    let mut i: usize = 0;
    assert(v@.take(0) =~= seq![]);
    while i < v.len()
        invariant
            v@ == s@,
            i <= v@.len(),
            out@ == escape_spec(v@.take(i as int)),
        decreases v@.len() - i,
    {
        let c = v[i];
        if c == '&' {
            push_str(&mut out, "&amp;");
        } else if c == '<' {
            push_str(&mut out, "&lt;");
        } else if c == '>' {
            push_str(&mut out, "&gt;");
        } else if c == '"' {
            push_str(&mut out, "&quot;");
        } else {
            push_char(&mut out, c);
        }
        assert(v@.take(i + 1).drop_last() =~= v@.take(i as int));
        assert(v@.take(i + 1).last() == c);
        i = i + 1;
    }
    assert(v@.take(i as int) =~= v@);
    out
}

/// Escaped text holds no `<`, `>` or `"`: nothing in it can open or close
/// markup or an attribute.
pub proof fn lemma_escape_safe(s: Seq<char>)
    ensures
        forall|i: int| 0 <= i < escape_spec(s).len() ==> {
            let c = #[trigger] escape_spec(s)[i];
            c != '<' && c != '>' && c != '"'
        },
    decreases s.len(),
{
    reveal_strlit("&amp;");
    reveal_strlit("&lt;");
    reveal_strlit("&gt;");
    reveal_strlit("&quot;");
    if s.len() > 0 {
        lemma_escape_safe(s.drop_last());
        let a = escape_spec(s.drop_last());
        let b = esc_char(s.last());
        assert forall|i: int| 0 <= i < escape_spec(s).len() implies {
            let c = #[trigger] escape_spec(s)[i];
            c != '<' && c != '>' && c != '"'
        } by {
            if i < a.len() {
                assert(escape_spec(s)[i] == a[i]);
            } else {
                assert(escape_spec(s)[i] == b[i - a.len()]);
            }
        }
    }
}

/// The placeholder page for a browser with a session.
pub open spec fn session_page_spec(b: (u64, Seq<char>, Seq<char>)) -> Seq<char> {
    "<!doctype html><html lang=\"en\"><head><meta charset=\"utf-8\"><title>Atrium</title><style>:root{color-scheme:light dark;font-family:system-ui,sans-serif}body{margin:2rem}button{font:inherit}</style></head><body><h1>Hello "@
        + escape_spec(b.2) + "</h1><p>Logged in as <code>"@ + escape_spec(b.1)
        + "</code>, logon session <code>"@ + dec(b.0 as nat)
        + "</code>.</p><p>This is atrium-server's placeholder: the session host that will own this page is spawned through peinit's jobs API, which is not there yet.</p><form method=\"post\" action=\"/api/logout\"><button>Log out</button></form></body></html>"@
}

pub fn session_page(b: &BrowserSession) -> (p: String)
    ensures
        p@ == session_page_spec(bview(*b)),
{
    let mut p = String::new();
    push_str(&mut p, "<!doctype html><html lang=\"en\"><head><meta charset=\"utf-8\"><title>Atrium</title><style>:root{color-scheme:light dark;font-family:system-ui,sans-serif}body{margin:2rem}button{font:inherit}</style></head><body><h1>Hello ");
    let dn = escape(b.display_name.as_str());
    push_str(&mut p, dn.as_str());
    push_str(&mut p, "</h1><p>Logged in as <code>");
    let un = escape(b.username.as_str());
    push_str(&mut p, un.as_str());
    push_str(&mut p, "</code>, logon session <code>");
    push_dec(&mut p, b.session);
    push_str(&mut p, "</code>.</p><p>This is atrium-server's placeholder: the session host that will own this page is spawned through peinit's jobs API, which is not there yet.</p><form method=\"post\" action=\"/api/logout\"><button>Log out</button></form></body></html>");
    assert(p@ =~= session_page_spec(bview(*b)));
    p
}

/// The lowercase hex digit for `d < 16`.
pub open spec fn hex_digit(d: nat) -> char {
    if d < 10 {
        ((48 + d) as u32) as char
    } else {
        ((87 + d) as u32) as char
    }
}

/// Each byte as two lowercase hex digits.
pub open spec fn hex(s: Seq<u8>) -> Seq<char>
    decreases s.len(),
{
    if s.len() == 0 {
        seq![]
    } else {
        hex(s.drop_last()) + seq![hex_digit((s.last() / 16) as nat), hex_digit((s.last() % 16) as nat)]
    }
}

/// A bearer made of `n` bytes is `2n` lowercase hex digits.
pub proof fn lemma_hex_shape(s: Seq<u8>)
    ensures
        hex(s).len() == 2 * s.len(),
        forall|i: int| 0 <= i < hex(s).len() ==> {
            let c = #[trigger] hex(s)[i];
            ('0' <= c && c <= '9') || ('a' <= c && c <= 'f')
        },
    decreases s.len(),
{
    if s.len() > 0 {
        lemma_hex_shape(s.drop_last());
        let t = hex(s.drop_last());
        let b = s.last();
        assert forall|i: int| 0 <= i < hex(s).len() implies {
            let c = #[trigger] hex(s)[i];
            ('0' <= c && c <= '9') || ('a' <= c && c <= 'f')
        } by {
            if i < t.len() {
                assert(hex(s)[i] == t[i]);
            } else {
                let d = if i == t.len() { (b / 16) as nat } else { (b % 16) as nat };
                assert(hex(s)[i] == hex_digit(d));
                assert(d < 16);
            }
        }
    }
}

fn hex_char(d: u8) -> (c: char)
    requires
        d < 16,
    ensures
        c == hex_digit(d as nat),
{
    if d < 10 {
        crate::text::char_from_ascii(48 + d)
    } else {
        crate::text::char_from_ascii(87 + d)
    }
}

/// The bearer made of random bytes: their hex. It goes into the cookie
/// jar and nowhere else.
pub fn cookie_from_bytes(bytes: &[u8]) -> (c: String)
    ensures
        c@ == hex(bytes@),
{
    let mut c = String::new();
    let mut i: usize = 0;
    assert(bytes@.take(0) =~= seq![]);
    while i < bytes.len()
        invariant
            i <= bytes@.len(),
            c@ == hex(bytes@.take(i as int)),
        decreases bytes@.len() - i,
    {
        let b = bytes[i];
        push_char(&mut c, hex_char(b / 16));
        push_char(&mut c, hex_char(b % 16));
        assert(bytes@.take(i + 1).drop_last() =~= bytes@.take(i as int));
        assert(bytes@.take(i + 1).last() == b);
        i = i + 1;
    }
    assert(bytes@.take(i as int) =~= bytes@);
    c
}

/// The username a logon starts with: trimmed, not empty, at most 256 bytes.
pub open spec fn logon_username_spec(raw: Seq<char>) -> Option<Seq<char>> {
    let t = trim(raw);
    if t.len() == 0 || vstd::utf8::encode_utf8(t).len() > 256 {
        None
    } else {
        Some(t)
    }
}

pub fn logon_username(raw: &str) -> (r: Option<String>)
    ensures
        match r {
            Some(u) => logon_username_spec(raw@) == Some(u@),
            None => logon_username_spec(raw@) is None,
        },
{
    let v = chars_of(raw);
    let (a, b) = trim_range(&v, 0, v.len());
    assert(v@.subrange(0, v@.len() as int) =~= v@);
    let t = string_of(&v, a, b);
    if a == b || t.as_str().as_bytes().len() > 256 {
        return None;
    }
    Some(t)
}

/// A logon start's body, as read: `username` is `None` when the body is not
/// a JSON object with a string `username`. Gives the username to log on
/// (trimmed), or the `400` that refuses the start; on a refusal nothing is
/// asked of atriumd.
pub fn logon_start(username: Option<&str>) -> (r: Result<String, Response>)
    ensures
        match username {
            None => r matches Err(x) && is_status(x, 400, "Bad Request"@),
            Some(u) => match logon_username_spec(u@) {
                Some(t) => r matches Ok(v) && v@ == t,
                None => r matches Err(x) && is_status(x, 400, "Bad Request"@),
            },
        },
{
    match username {
        None => Err(Response::status(400, "Bad Request")),
        Some(u) => match logon_username(u) {
            Some(t) => Ok(t),
            None => Err(Response::status(400, "Bad Request")),
        },
    }
}

/// Where a request goes.
#[derive(Debug)]
pub enum Route {
    Home,
    LogonStart,
    LogonAnswer,
    Logout,
    WhoAmI,
    NotFound,
}

pub open spec fn route_spec(method: Seq<char>, path: Seq<char>) -> Route {
    if method == "GET"@ && path == "/"@ {
        Route::Home
    } else if method == "POST"@ && path == "/api/logon/start"@ {
        Route::LogonStart
    } else if method == "POST"@ && path == "/api/logon/answer"@ {
        Route::LogonAnswer
    } else if method == "POST"@ && path == "/api/logout"@ {
        Route::Logout
    } else if method == "GET"@ && path == "/api/whoami"@ {
        Route::WhoAmI
    } else {
        Route::NotFound
    }
}

pub fn route(method: &str, path: &str) -> (r: Route)
    ensures
        r == route_spec(method@, path@),
{
    if str_eq(method, "GET") && str_eq(path, "/") {
        Route::Home
    } else if str_eq(method, "POST") && str_eq(path, "/api/logon/start") {
        Route::LogonStart
    } else if str_eq(method, "POST") && str_eq(path, "/api/logon/answer") {
        Route::LogonAnswer
    } else if str_eq(method, "POST") && str_eq(path, "/api/logout") {
        Route::Logout
    } else if str_eq(method, "GET") && str_eq(path, "/api/whoami") {
        Route::WhoAmI
    } else {
        Route::NotFound
    }
}

/// The bearer a request carries.
pub open spec fn req_cookie(req: HttpRequest) -> Option<Seq<char>> {
    match req.header_spec("cookie"@) {
        Some(h) => crate::http::cookie_value(h, COOKIE@),
        None => None,
    }
}

/// The session a request's bearer is bound to.
pub open spec fn bound_spec(jar: Map<Seq<char>, (u64, Seq<char>, Seq<char>)>, req: HttpRequest) -> Option<(u64, Seq<char>, Seq<char>)> {
    match req_cookie(req) {
        Some(c) => if jar.contains_key(c) {
            Some(jar[c])
        } else {
            None
        },
        None => None,
    }
}

/// `r` is the plain-text response `status reason`.
pub open spec fn is_status(r: Response, status: u16, reason: Seq<char>) -> bool {
    &&& r.status == status
    &&& r.reason@ == reason
    &&& r.content_type@ == "text/plain; charset=utf-8"@
    &&& r.extra_headers@.len() == 0
    &&& r.body@ == vstd::utf8::encode_utf8(reason)
}

/// `r` is a `200 OK` page with text `page`.
pub open spec fn is_page(r: Response, page: Seq<char>) -> bool {
    &&& r.status == 200
    &&& r.reason@ == "OK"@
    &&& r.content_type@ == "text/html; charset=utf-8"@
    &&& r.extra_headers@.len() == 0
    &&& r.body@ == vstd::utf8::encode_utf8(page)
}

/// What answering a request takes.
#[derive(Debug)]
pub enum Action {
    /// The answer.
    Respond(Response),
    /// Read the body as a logon start, check it with `logon_start`, ask
    /// atriumd, and answer with what `finish` makes of the reply.
    LogonStart,
    /// Read the body as answers, ask atriumd, answer as for a start.
    LogonAnswer,
    /// Tell atriumd that this session logged out, if one was bound, then
    /// answer with `logout_response`.
    Logout(Option<u64>),
    /// Answer with who this browser is logged in as.
    WhoAmI(BrowserSession),
}

/// The answer to a logout: back to the login page, bearer cleared.
pub open spec fn is_logout_response(r: Response) -> bool {
    &&& r.status == 303
    &&& r.reason@ == "See Other"@
    &&& r.content_type@ == "text/plain"@
    &&& r.extra_headers@.map_values(|h: String| h@) == seq!["Location: /"@, clear_cookie_spec()]
    &&& r.body@.len() == 0
}

pub fn logout_response() -> (r: Response)
    ensures
        is_logout_response(r),
{
    let mut loc = String::new();
    push_str(&mut loc, "Location: /");
    let mut headers: Vec<String> = Vec::new();
    headers.push(loc);
    headers.push(clear_cookie());
    assert(headers@.map_values(|h: String| h@) =~= seq!["Location: /"@, clear_cookie_spec()]);
    Response { status: 303, reason: "See Other", content_type: "text/plain", extra_headers: headers, body: Vec::new() }
}

/// Routes one request. `login_page` is served to a browser without a
/// session. Only a logout changes the jar: it unbinds the bearer.
pub fn handle(jar: &mut CookieJar, req: &HttpRequest, login_page: &str) -> (a: Action)
    ensures
        match route_spec(req.method@, req.path@) {
            Route::Home => a matches Action::Respond(r) && is_page(
                r,
                match bound_spec(old(jar).view(), *req) {
                    Some(b) => session_page_spec(b),
                    None => login_page@,
                },
            ),
            Route::LogonStart => match bound_spec(old(jar).view(), *req) {
                Some(_) => a matches Action::Respond(r) && is_status(r, 409, "Already logged in"@),
                None => a is LogonStart,
            },
            Route::LogonAnswer => a is LogonAnswer,
            Route::Logout => a matches Action::Logout(s) && s == match bound_spec(old(jar).view(), *req) {
                Some(b) => Some(b.0),
                None => None,
            },
            Route::WhoAmI => match bound_spec(old(jar).view(), *req) {
                Some(b) => a matches Action::WhoAmI(x) && bview(x) == b,
                None => a matches Action::Respond(r) && is_status(r, 401, "Unauthorized"@),
            },
            Route::NotFound => a matches Action::Respond(r) && is_status(r, 404, "Not Found"@),
        },
        final(jar).view() == if route_spec(req.method@, req.path@) is Logout && req_cookie(*req) is Some {
            old(jar).view().remove(req_cookie(*req)->0)
        } else {
            old(jar).view()
        },
{
    proof {
        reveal_strlit("cookie");
    }
    let r = route(req.method.as_str(), req.path.as_str());
    let cookie = req.cookie(COOKIE);
    proof {
        assert(req_cookie(*req) == match cookie { Some(c) => Some(c@), None => None::<Seq<char>> });
    }
    if let Route::Logout = r {
        let removed = match cookie {
            Some(c) => jar.remove(c),
            None => None,
        };
        return match removed {
            Some(b) => Action::Logout(Some(b.session)),
            None => Action::Logout(None),
        };
    }
    let bound = match cookie {
        Some(c) => jar.get(c),
        None => None,
    };
    match r {
        Route::Home => match bound {
            Some(b) => Action::Respond(Response::html(session_page(&b).as_str())),
            None => Action::Respond(Response::html(login_page)),
        },
        Route::LogonStart => match bound {
            Some(_) => Action::Respond(Response::status(409, "Already logged in")),
            None => Action::LogonStart,
        },
        Route::LogonAnswer => Action::LogonAnswer,
        Route::WhoAmI => match bound {
            Some(b) => Action::WhoAmI(b),
            None => Action::Respond(Response::status(401, "Unauthorized")),
        },
        _ => Action::Respond(Response::status(404, "Not Found")),
    }
}

/// A logon was granted: bind the fresh bearer `cookie` to the session and
/// give the header that hands it to the browser.
pub fn bind_session(jar: &mut CookieJar, cookie: String, session: u64, username: &str, display_name: &str) -> (h: String)
    ensures
        final(jar).view() == old(jar).view().insert(cookie@, (session, username@, display_name@)),
        h@ == set_cookie_spec(cookie@),
{
    let h = set_cookie(cookie.as_str());
    let mut u = String::new();
    push_str(&mut u, username);
    let mut d = String::new();
    push_str(&mut d, display_name);
    assert(u@ =~= username@);
    assert(d@ =~= display_name@);
    jar.insert(cookie, BrowserSession { session, username: u, display_name: d });
    h
}

/// What a logon reply is answered with.
#[derive(Debug)]
pub enum Finish {
    /// The reply as JSON, with this header besides if there is one.
    Reply(Option<String>),
    /// This answer instead of the reply.
    Respond(Response),
}

/// Turns a logon reply into the HTTP answer. A grant binds a fresh bearer,
/// made of `random` (the bytes read for it, `None` when there were none);
/// without randomness a grant is answered with a server error.
pub fn finish(jar: &mut CookieJar, reply: &Reply, random: Option<&[u8]>) -> (f: Finish)
    ensures
        match *reply {
            Reply::Granted { session, username, display_name, .. } => match random {
                Some(b) => {
                    &&& f matches Finish::Reply(Some(h)) && h@ == set_cookie_spec(hex(b@))
                    &&& final(jar).view() == old(jar).view().insert(hex(b@), (session, username@, display_name@))
                },
                None => {
                    &&& f matches Finish::Respond(r) && is_status(r, 500, "Internal Server Error"@)
                    &&& final(jar).view() == old(jar).view()
                },
            },
            _ => f matches Finish::Reply(None) && final(jar).view() == old(jar).view(),
        },
{
    match reply {
        Reply::Granted { session, username, display_name, .. } => match random {
            Some(b) => {
                let cookie = cookie_from_bytes(b);
                let h = bind_session(jar, cookie, *session, username.as_str(), display_name.as_str());
                Finish::Reply(Some(h))
            },
            None => Finish::Respond(Response::status(500, "Internal Server Error")),
        },
        _ => Finish::Reply(None),
    }
}

/// A bearer bound by `bind_session` routes to the session it was bound
/// to until it is unbound, and to nothing after.
pub proof fn lemma_jar_read_after_write(
    jar: Map<Seq<char>, (u64, Seq<char>, Seq<char>)>,
    c: Seq<char>,
    b: (u64, Seq<char>, Seq<char>),
    other: Seq<char>,
)
    ensures
        jar.insert(c, b).contains_key(c) && jar.insert(c, b)[c] == b,
        other != c ==> jar.insert(c, b).contains_key(other) == jar.contains_key(other),
        other != c && jar.contains_key(other) ==> jar.insert(c, b)[other] == jar[other],
        !jar.insert(c, b).remove(c).contains_key(c),
{
}

} // verus!
