use atrium::host::{asset, host_route, HostRoute, ShellFile};
use atrium::http::Request;

fn req(method: &str, path: &str, upgrade: bool) -> Request {
    Request {
        method: method.into(),
        path: path.into(),
        headers: if upgrade {
            vec![("upgrade".into(), "websocket".into()), ("sec-websocket-key".into(), "k".into())]
        } else {
            vec![]
        },
        body: vec![],
        raw_head: vec![],
    }
}

#[test]
fn routes_host_requests() {
    assert!(matches!(host_route(&req("GET", "/ws", true)), HostRoute::Mirror));
    assert!(matches!(host_route(&req("GET", "/ws", false)), HostRoute::UpgradeRequired));
    assert!(matches!(host_route(&req("POST", "/ws", true)), HostRoute::NotFound));
    assert!(matches!(host_route(&req("GET", "/api/whoami", false)), HostRoute::WhoAmI));
    assert!(matches!(host_route(&req("GET", "/api/apps", false)), HostRoute::Apps));
    assert!(matches!(host_route(&req("GET", "/apps/x/y", false)), HostRoute::AppFile));
    assert!(matches!(host_route(&req("GET", "/", false)), HostRoute::Shell(ShellFile::Html)));
    assert!(matches!(host_route(&req("GET", "/shell/sdk.js", false)), HostRoute::Shell(ShellFile::Sdk)));
    assert!(matches!(host_route(&req("GET", "/shell/x.js", false)), HostRoute::NotFound));
}

#[test]
fn serves_assets() {
    let r = asset("body{}", "text/css; charset=utf-8");
    assert_eq!((r.status, r.reason, r.content_type, r.body), (200, "OK", "text/css; charset=utf-8", b"body{}".to_vec()));
}
