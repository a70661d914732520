use atrium::proto::Reply;
use atrium::server::{finish, Finish};
use atrium::http::Request;
use atrium::server::{
    bind_session, clear_cookie, cookie_from_bytes, escape, handle, logon_username, logout_response,
    route, session_page, set_cookie, Action, BrowserSession, CookieJar, Route,
};

fn req(method: &str, path: &str, cookie: Option<&str>) -> Request {
    Request {
        method: method.into(),
        path: path.into(),
        headers: cookie.map(|c| vec![("cookie".to_string(), c.to_string())]).unwrap_or_default(),
        body: vec![],
        raw_head: vec![],
    }
}

#[test]
fn cookie_headers() {
    assert_eq!(set_cookie("ab"), "Set-Cookie: atrium=ab; Path=/; HttpOnly; SameSite=Strict");
    assert_eq!(clear_cookie(), "Set-Cookie: atrium=; Path=/; HttpOnly; SameSite=Strict; Max-Age=0");
}

#[test]
fn escapes_markup() {
    assert_eq!(escape("a<b>&\"c'"), "a&lt;b&gt;&amp;&quot;c'");
    assert_eq!(escape(""), "");
    let e = escape("<script>\"x\"</script>");
    assert!(!e.contains('<') && !e.contains('>') && !e.contains('"'));
}

#[test]
fn renders_the_session_page() {
    let b = BrowserSession { session: 42, username: "jack".into(), display_name: "Jack <J>".into() };
    let p = session_page(&b);
    assert!(p.starts_with("<!doctype html><html lang=\"en\"><head><meta charset=\"utf-8\"><title>Atrium</title><style>:root{color-scheme"));
    assert!(p.contains("<h1>Hello Jack &lt;J&gt;</h1><p>Logged in as <code>jack</code>, logon session <code>42</code>.</p>"));
    assert!(p.ends_with("<button>Log out</button></form></body></html>"));
}

#[test]
fn cookie_is_hex() {
    assert_eq!(cookie_from_bytes(&[0x00, 0x0f, 0xa0, 0xff]), "000fa0ff");
    assert_eq!(cookie_from_bytes(&[7u8; 32]).len(), 64);
}

#[test]
fn checks_usernames() {
    assert_eq!(logon_username("  jack \t").as_deref(), Some("jack"));
    assert_eq!(logon_username("   "), None);
    assert_eq!(logon_username(&"a".repeat(256)).map(|s| s.len()), Some(256));
    assert_eq!(logon_username(&"a".repeat(257)), None);
    assert_eq!(logon_username(&"é".repeat(129)), None);
}

#[test]
fn routes() {
    assert!(matches!(route("GET", "/"), Route::Home));
    assert!(matches!(route("POST", "/api/logon/start"), Route::LogonStart));
    assert!(matches!(route("POST", "/api/logon/answer"), Route::LogonAnswer));
    assert!(matches!(route("POST", "/api/logout"), Route::Logout));
    assert!(matches!(route("GET", "/api/whoami"), Route::WhoAmI));
    assert!(matches!(route("GET", "/api/logout"), Route::NotFound));
}

#[test]
fn jar_binds_and_unbinds() {
    let mut jar = CookieJar::new();
    let h = bind_session(&mut jar, "c1".into(), 5, "jack", "Jack");
    assert_eq!(h, "Set-Cookie: atrium=c1; Path=/; HttpOnly; SameSite=Strict");
    let b = jar.get("c1").unwrap();
    assert_eq!((b.session, b.username.as_str(), b.display_name.as_str()), (5, "jack", "Jack"));
    assert!(jar.get("c2").is_none());
    bind_session(&mut jar, "c1".into(), 6, "jill", "Jill");
    assert_eq!(jar.get("c1").unwrap().session, 6);
    assert_eq!(jar.remove("c1").unwrap().session, 6);
    assert!(jar.get("c1").is_none());
    assert!(jar.remove("c1").is_none());
}

#[test]
fn handles_requests() {
    let mut jar = CookieJar::new();
    bind_session(&mut jar, "tok".into(), 9, "jack", "Jack");
    match handle(&mut jar, &req("GET", "/", None), "LOGIN") {
        Action::Respond(r) => assert_eq!(r.body, b"LOGIN"),
        other => panic!("{other:?}"),
    }
    match handle(&mut jar, &req("GET", "/", Some("atrium=tok")), "LOGIN") {
        Action::Respond(r) => assert!(String::from_utf8(r.body).unwrap().contains("Hello Jack")),
        other => panic!("{other:?}"),
    }
    match handle(&mut jar, &req("POST", "/api/logon/start", Some("atrium=tok")), "") {
        Action::Respond(r) => assert_eq!((r.status, r.reason), (409, "Already logged in")),
        other => panic!("{other:?}"),
    }
    assert!(matches!(handle(&mut jar, &req("POST", "/api/logon/start", None), ""), Action::LogonStart));
    assert!(matches!(handle(&mut jar, &req("POST", "/api/logon/answer", None), ""), Action::LogonAnswer));
    match handle(&mut jar, &req("GET", "/api/whoami", Some("x=1; atrium=tok")), "") {
        Action::WhoAmI(b) => assert_eq!(b.session, 9),
        other => panic!("{other:?}"),
    }
    match handle(&mut jar, &req("GET", "/api/whoami", None), "") {
        Action::Respond(r) => assert_eq!((r.status, r.reason, r.body), (401, "Unauthorized", b"Unauthorized".to_vec())),
        other => panic!("{other:?}"),
    }
    match handle(&mut jar, &req("PUT", "/", None), "") {
        Action::Respond(r) => assert_eq!(r.status, 404),
        other => panic!("{other:?}"),
    }
    assert!(matches!(handle(&mut jar, &req("POST", "/api/logout", Some("atrium=tok")), ""), Action::Logout(Some(9))));
    assert!(jar.get("tok").is_none());
    assert!(matches!(handle(&mut jar, &req("POST", "/api/logout", Some("atrium=tok")), ""), Action::Logout(None)));
}

#[test]
fn logout_answer() {
    let r = logout_response();
    assert_eq!((r.status, r.reason, r.content_type), (303, "See Other", "text/plain"));
    assert_eq!(r.extra_headers, vec!["Location: /".to_string(), clear_cookie()]);
    assert!(r.body.is_empty());
}

#[test]
fn finish_binds_a_cookie_on_a_grant() {
    let mut jar = CookieJar::new();
    let granted = Reply::Granted { conv: 1, session: 9, username: "jack".into(), display_name: "Jack".into() };
    match finish(&mut jar, &granted, Some(&[0xab, 0x01])) {
        Finish::Reply(Some(h)) => assert_eq!(h, "Set-Cookie: atrium=ab01; Path=/; HttpOnly; SameSite=Strict"),
        other => panic!("{other:?}"),
    }
    let b = jar.get("ab01").expect("bound");
    assert_eq!((b.session, b.username.as_str(), b.display_name.as_str()), (9, "jack", "Jack"));
}

#[test]
fn finish_without_randomness_is_a_server_error() {
    let mut jar = CookieJar::new();
    let granted = Reply::Granted { conv: 1, session: 9, username: "jack".into(), display_name: "Jack".into() };
    match finish(&mut jar, &granted, None) {
        Finish::Respond(r) => assert_eq!((r.status, r.reason, r.body.as_slice()), (500, "Internal Server Error", &b"Internal Server Error"[..])),
        other => panic!("{other:?}"),
    }
    assert!(jar.get("").is_none());
}

#[test]
fn finish_passes_other_replies_through() {
    let mut jar = CookieJar::new();
    let denied = Reply::Denied { conv: 1, retryable: true, reason: "no".into() };
    assert!(matches!(finish(&mut jar, &denied, Some(&[1, 2])), Finish::Reply(None)));
    assert!(jar.get("0102").is_none());
}

#[test]
fn logon_start_bodies() {
    assert_eq!(atrium::server::logon_start(Some("  jack ")).ok().as_deref(), Some("jack"));
    for bad in [None, Some("   "), Some("")] {
        match atrium::server::logon_start(bad) {
            Err(r) => assert_eq!((r.status, r.reason, r.body.as_slice()), (400, "Bad Request", &b"Bad Request"[..])),
            Ok(u) => panic!("{u}"),
        }
    }
    assert!(atrium::server::logon_start(Some(&"a".repeat(257))).is_err());
}
