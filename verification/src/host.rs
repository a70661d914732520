//! The session host's part in serving a browser connection: which
//! requests it answers and how, and the shell's built-in files.

use vstd::prelude::*;

use crate::http::{Request, Response};
use crate::text::str_eq;

verus! {

/// A built-in file of the shell.
pub fn asset(body: &'static str, content_type: &'static str) -> (r: Response)
    ensures
        r.status == 200,
        r.reason@ == "OK"@,
        r.content_type@ == content_type@,
        r.extra_headers@.len() == 0,
        r.body@ == vstd::utf8::encode_utf8(body@),
{
    Response {
        status: 200,
        reason: "OK",
        content_type,
        extra_headers: Vec::new(),
        body: vstd::slice::slice_to_vec(body.as_bytes()),
    }
}

/// The shell's built-in files.
#[derive(Debug)]
pub enum ShellFile {
    Html,
    Css,
    Js,
    Icons,
    Sdk,
}

/// Where a request to the session host goes.
#[derive(Debug)]
pub enum HostRoute {
    /// `GET /ws` with an upgrade: the mirror's websocket.
    Mirror,
    /// `GET /ws` without one.
    UpgradeRequired,
    WhoAmI,
    Apps,
    /// A file of an app: `/apps/...`.
    AppFile,
    Shell(ShellFile),
    NotFound,
}

pub open spec fn host_route_spec(req: Request) -> HostRoute {
    let m = req.method@;
    let p = req.path@;
    if m == "GET"@ && p == "/ws"@ {
        if crate::ws::is_upgrade_spec(req) {
            HostRoute::Mirror
        } else {
            HostRoute::UpgradeRequired
        }
    } else if m != "GET"@ {
        HostRoute::NotFound
    } else if p == "/api/whoami"@ {
        HostRoute::WhoAmI
    } else if p == "/"@ {
        HostRoute::Shell(ShellFile::Html)
    } else if p == "/api/apps"@ {
        HostRoute::Apps
    } else if p.len() >= 6 && p.take(6) == "/apps/"@ {
        HostRoute::AppFile
    } else if p == "/shell/shell.css"@ {
        HostRoute::Shell(ShellFile::Css)
    } else if p == "/shell/shell.js"@ {
        HostRoute::Shell(ShellFile::Js)
    } else if p == "/shell/icons.js"@ {
        HostRoute::Shell(ShellFile::Icons)
    } else if p == "/shell/sdk.js"@ {
        HostRoute::Shell(ShellFile::Sdk)
    } else {
        HostRoute::NotFound
    }
}

pub fn host_route(req: &Request) -> (r: HostRoute)
    ensures
        r == host_route_spec(*req),
{
    proof {
        reveal_strlit("/apps/");
    }
    let m = req.method.as_str();
    let p = req.path.as_str();
    if str_eq(m, "GET") && str_eq(p, "/ws") {
        return if crate::ws::is_upgrade(req) {
            HostRoute::Mirror
        } else {
            HostRoute::UpgradeRequired
        };
    }
    if !str_eq(m, "GET") {
        return HostRoute::NotFound;
    }
    if str_eq(p, "/api/whoami") {
        HostRoute::WhoAmI
    } else if str_eq(p, "/") {
        HostRoute::Shell(ShellFile::Html)
    } else if str_eq(p, "/api/apps") {
        HostRoute::Apps
    } else if starts_with_apps(p) {
        HostRoute::AppFile
    } else if str_eq(p, "/shell/shell.css") {
        HostRoute::Shell(ShellFile::Css)
    } else if str_eq(p, "/shell/shell.js") {
        HostRoute::Shell(ShellFile::Js)
    } else if str_eq(p, "/shell/icons.js") {
        HostRoute::Shell(ShellFile::Icons)
    } else if str_eq(p, "/shell/sdk.js") {
        HostRoute::Shell(ShellFile::Sdk)
    } else {
        HostRoute::NotFound
    }
}

fn starts_with_apps(p: &str) -> (r: bool)
    ensures
        r == (p@.len() >= 6 && p@.take(6) == "/apps/"@),
{
    proof {
        reveal_strlit("/apps/");
    }
    let v = crate::text::chars_of(p);
    let prefix = crate::text::chars_of("/apps/");
    if v.len() < 6 {
        return false;
    }
    let r = crate::text::range_eq(&v, 0, 6, &prefix);
    assert(v@.subrange(0, 6) =~= v@.take(6));
    r
}

} // verus!
