use atrium::state::{app_request, AppAnswer};
use atrium::apps::{app_from_manifest, App, ManifestFile};
use atrium::state::{default_keymap, frame_action, Event, FrameAction, Request, State};

fn catalogue() -> Vec<App> {
    ["org.about", "org.files"]
        .iter()
        .map(|id| {
            app_from_manifest(
                id,
                ManifestFile {
                    id: id.to_string(),
                    name: if *id == "org.about" { "About".into() } else { "Files".into() },
                    description: String::new(),
                    category: None,
                    icon: None,
                    color: None,
                    glyph: None,
                    entry: "index.html".into(),
                },
            )
            .unwrap()
        })
        .collect()
}

fn launch(s: &mut State, app: &str, new: bool) -> atrium::state::Handled {
    s.handle(Request::Launch { app: app.into(), new }, &catalogue())
}

#[test]
fn launch_opens_and_focuses() {
    let mut s = State::new();
    let h = launch(&mut s, "org.about", false);
    assert!(matches!(h.result, Ok(None)));
    assert_eq!(h.events.len(), 2);
    match &h.events[0] {
        Event::Opened(w) => {
            assert_eq!((w.id, w.app.as_str(), w.title.as_str(), w.url.as_str(), w.minimized), (1, "org.about", "About", "/apps/org.about/index.html", false));
        }
        other => panic!("{other:?}"),
    }
    assert!(matches!(h.events[1], Event::Focus(Some(1))));
    assert_eq!(s.focus(), Some(1));
}

#[test]
fn second_launch_focuses_unless_new() {
    let mut s = State::new();
    launch(&mut s, "org.about", false);
    launch(&mut s, "org.files", false);
    let h = launch(&mut s, "org.about", false);
    assert_eq!(s.windows().len(), 2);
    assert!(matches!(h.events[..], [Event::Focus(Some(1))]));
    let h = launch(&mut s, "org.about", true);
    match &h.events[0] {
        Event::Opened(w) => assert_eq!((w.id, w.title.as_str()), (3, "About 2")),
        other => panic!("{other:?}"),
    }
    let h = launch(&mut s, "org.about", true);
    match &h.events[0] {
        Event::Opened(w) => assert_eq!((w.id, w.title.as_str()), (4, "About 3")),
        other => panic!("{other:?}"),
    }
}

#[test]
fn unknown_things_are_errors() {
    let mut s = State::new();
    let h = launch(&mut s, "org.none", false);
    assert_eq!(h.result.unwrap_err(), "no such app: org.none");
    assert!(h.events.is_empty());
    let h = s.handle(Request::Focus { id: 12 }, &[]);
    assert_eq!(h.result.unwrap_err(), "no such window: 12");
    let h = s.handle(Request::Close { id: 3 }, &[]);
    assert_eq!(h.result.unwrap_err(), "no such window: 3");
    let h = s.handle(Request::App { win: 1, req: 2 }, &[]);
    assert_eq!(h.result.unwrap_err(), "no such window: 1");
}

#[test]
fn minimize_and_close_move_focus() {
    let mut s = State::new();
    launch(&mut s, "org.about", false);
    launch(&mut s, "org.files", false);
    let h = s.handle(Request::Minimize { id: 2 }, &[]);
    assert!(matches!(h.events[..], [Event::Minimized(2), Event::Focus(Some(1))]));
    assert_eq!(s.focus(), Some(1));
    let h = s.handle(Request::Minimize { id: 2 }, &[]);
    assert!(matches!(h.events[..], [Event::Minimized(2)]));
    let h = s.handle(Request::Focus { id: 2 }, &[]);
    assert!(matches!(h.events[..], [Event::Restored(2), Event::Focus(Some(2))]));
    let h = s.handle(Request::Close { id: 2 }, &[]);
    assert!(matches!(h.events[..], [Event::Closed(2), Event::Focus(Some(1))]));
    s.handle(Request::Minimize { id: 1 }, &[]);
    assert_eq!(s.focus(), None);
    let h = s.handle(Request::Close { id: 1 }, &[]);
    assert!(matches!(h.events[..], [Event::Closed(1)]));
    assert!(s.windows().is_empty());
}

#[test]
fn titles() {
    let mut s = State::new();
    launch(&mut s, "org.about", false);
    let h = s.handle(Request::SetTitle { id: 1, title: "   ".into() }, &[]);
    assert_eq!(h.result.unwrap_err(), "empty title");
    let h = s.handle(Request::SetTitle { id: 9, title: "x".into() }, &[]);
    assert_eq!(h.result.unwrap_err(), "no such window: 9");
    let long: String = "é".repeat(130);
    let h = s.handle(Request::SetTitle { id: 1, title: long }, &[]);
    match &h.events[..] {
        [Event::Titled(1, t)] => assert_eq!(t.chars().count(), 120),
        other => panic!("{other:?}"),
    }
    assert_eq!(s.windows()[0].title.chars().count(), 120);
}

#[test]
fn app_requests_are_direct() {
    let mut s = State::new();
    launch(&mut s, "org.about", false);
    let h = s.handle(Request::App { win: 1, req: 77 }, &[]);
    let call = h.result.unwrap().unwrap();
    assert_eq!((call.win, call.req), (1, 77));
    assert!(h.events.is_empty());
}

#[test]
fn mirrors_come_and_go() {
    let mut s = State::new();
    assert_eq!(s.attach(), 1);
    assert_eq!(s.attach(), 2);
    s.detach(1);
    assert_eq!(s.attach(), 3);
}

#[test]
fn keymap() {
    let m = default_keymap();
    assert_eq!(m.len(), 14);
    assert_eq!((m[0].chord.as_str(), m[0].action.as_str()), ("Ctrl+K", "command-bar"));
    assert_eq!((m[4].chord.as_str(), m[4].action.as_str()), ("Ctrl+`", "cycle-window"));
    assert_eq!((m[5].chord.as_str(), m[5].action.as_str()), ("Alt+1", "focus-window-1"));
    assert_eq!((m[13].chord.as_str(), m[13].action.as_str()), ("Alt+9", "focus-window-9"));
}

#[test]
fn frame_actions() {
    assert!(matches!(frame_action(0x1), FrameAction::Request));
    assert!(matches!(frame_action(0x9), FrameAction::Pong));
    assert!(matches!(frame_action(0x8), FrameAction::Close));
    assert!(matches!(frame_action(0x2), FrameAction::Ignore));
}

#[test]
fn app_requests_by_kind() {
    assert!(matches!(app_request(Some("system-info")), AppAnswer::SystemInfo));
    match app_request(Some("weather")) {
        AppAnswer::Unknown(m) => assert_eq!(m, "unknown request kind: weather"),
        other => panic!("{other:?}"),
    }
    match app_request(None) {
        AppAnswer::Unknown(m) => assert_eq!(m, "unknown request kind: "),
        other => panic!("{other:?}"),
    }
}

#[test]
fn ids_are_left_to_hand_out() {
    let mut s = State::new();
    assert!(s.can_open_window());
    assert!(s.can_attach());
    assert_eq!(s.attach(), 1);
    assert_eq!(s.attach(), 2);
}
