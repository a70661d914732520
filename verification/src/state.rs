//! The session's state: the windows every connected shell mirrors, and
//! which one has focus.
//!
//! A shell asks for changes; the state answers with the events every
//! mirror is sent (state changes travel by broadcast) and, for some
//! requests, a direct reply for the asking mirror alone.

use vstd::prelude::*;

use crate::apps::App;
use crate::text::{
    chars_of, dec, is_whitespace, push_char, push_dec, push_str, str_eq, string_of, trim, trim_range,
};

verus! {

#[derive(Debug)]
pub struct Window {
    pub id: u64,
    pub app: String,
    pub title: String,
    pub url: String,
    /// Hidden but alive; its frame stays loaded. Focusing it restores it.
    pub minimized: bool,
}

pub struct WindowSpec {
    pub id: u64,
    pub app: Seq<char>,
    pub title: Seq<char>,
    pub url: Seq<char>,
    pub minimized: bool,
}

impl Window {
    pub open spec fn spec(self) -> WindowSpec {
        WindowSpec {
            id: self.id,
            app: self.app@,
            title: self.title@,
            url: self.url@,
            minimized: self.minimized,
        }
    }
}

/// What a shell may ask for.
#[derive(Debug)]
pub enum Request {
    /// Open `app`. Without `new`, an app that already has a window is
    /// focused rather than opened again.
    Launch { app: String, new: bool },
    /// Show and focus; a minimised window is restored.
    Focus { id: u64 },
    Minimize { id: u64 },
    Close { id: u64 },
    /// An app renamed its own window.
    SetTitle { id: u64, title: String },
    /// An app's request, relayed by the shell for window `win`; answered to
    /// the asking mirror only, correlated by `req`.
    App { win: u64, req: u64 },
}

/// A change every mirror is told about.
#[derive(Debug)]
pub enum Event {
    Opened(Window),
    Focus(Option<u64>),
    Restored(u64),
    Minimized(u64),
    Titled(u64, String),
    Closed(u64),
}

pub enum EventSpec {
    Opened(WindowSpec),
    Focus(Option<u64>),
    Restored(u64),
    Minimized(u64),
    Titled(u64, Seq<char>),
    Closed(u64),
}

impl Event {
    pub open spec fn spec(self) -> EventSpec {
        match self {
            Event::Opened(w) => EventSpec::Opened(w.spec()),
            Event::Focus(f) => EventSpec::Focus(f),
            Event::Restored(id) => EventSpec::Restored(id),
            Event::Minimized(id) => EventSpec::Minimized(id),
            Event::Titled(id, t) => EventSpec::Titled(id, t@),
            Event::Closed(id) => EventSpec::Closed(id),
        }
    }
}

/// An app request to answer for the asking mirror: window and correlation.
#[derive(Debug)]
pub struct AppCall {
    pub win: u64,
    pub req: u64,
}

/// What one request did: its answer for the asking mirror (`Ok(None)` is
/// no direct reply, `Err` an error message) and the events for everyone.
#[derive(Debug)]
pub struct Handled {
    pub result: Result<Option<AppCall>, String>,
    pub events: Vec<Event>,
}

pub struct SessionSpec {
    pub windows: Seq<WindowSpec>,
    pub focus: Option<u64>,
    pub next_window: u64,
}

pub struct StepSpec {
    pub state: SessionSpec,
    pub result: Result<Option<(u64, u64)>, Seq<char>>,
    pub events: Seq<EventSpec>,
}

pub open spec fn events_spec(v: Seq<Event>) -> Seq<EventSpec> {
    v.map_values(|e: Event| e.spec())
}

pub open spec fn handled_spec(h: Handled) -> (Result<Option<(u64, u64)>, Seq<char>>, Seq<EventSpec>) {
    (
        match h.result {
            Ok(Some(c)) => Ok(Some((c.win, c.req))),
            Ok(None) => Ok(None),
            Err(m) => Err(m@),
        },
        events_spec(h.events@),
    )
}

/// The first window with id `id`.
pub open spec fn window_index(ws: Seq<WindowSpec>, id: u64) -> Option<int> {
    if exists|i: int| 0 <= i < ws.len() && ws[i].id == id {
        Some(choose|i: int| 0 <= i < ws.len() && ws[i].id == id)
    } else {
        None
    }
}

/// The most recently opened window of app `app`.
pub open spec fn last_of_app(ws: Seq<WindowSpec>, app: Seq<char>) -> Option<int>
    decreases ws.len(),
{
    if ws.len() == 0 {
        None
    } else if ws.last().app == app {
        Some(ws.len() - 1)
    } else {
        last_of_app(ws.drop_last(), app)
    }
}

/// How many windows app `app` has.
pub open spec fn count_of_app(ws: Seq<WindowSpec>, app: Seq<char>) -> nat
    decreases ws.len(),
{
    if ws.len() == 0 {
        0
    } else {
        count_of_app(ws.drop_last(), app) + if ws.last().app == app { 1nat } else { 0nat }
    }
}

/// The most recently opened window that is not minimized.
pub open spec fn last_visible(ws: Seq<WindowSpec>) -> Option<u64>
    decreases ws.len(),
{
    if ws.len() == 0 {
        None
    } else if !ws.last().minimized {
        Some(ws.last().id)
    } else {
        last_visible(ws.drop_last())
    }
}

/// The first app of the catalogue with id `app`.
pub open spec fn catalogue_index(apps: Seq<App>, app: Seq<char>, i: int) -> Option<int>
    decreases apps.len() - i,
{
    if i < 0 || i >= apps.len() {
        None
    } else if apps[i].id@ == app {
        Some(i)
    } else {
        catalogue_index(apps, app, i + 1)
    }
}

pub open spec fn no_such_window(id: u64) -> Seq<char> {
    "no such window: "@ + dec(id as nat)
}

/// The title a new window of an app gets when `n` of its windows are open:
/// the app's name, then "2", "3", ...
pub open spec fn numbered_title(name: Seq<char>, n: nat) -> Seq<char> {
    if n == 0 {
        name
    } else {
        name + " "@ + dec(n + 1)
    }
}

pub open spec fn focus_step(s: SessionSpec, id: u64) -> StepSpec {
    match window_index(s.windows, id) {
        None => StepSpec { state: s, result: Err(no_such_window(id)), events: seq![] },
        Some(i) => {
            let w = s.windows[i];
            let ws = if w.minimized { s.windows.update(i, WindowSpec { minimized: false, ..w }) } else { s.windows };
            let restored = if w.minimized { seq![EventSpec::Restored(id)] } else { seq![] };
            StepSpec {
                state: SessionSpec { windows: ws, focus: Some(id), ..s },
                result: Ok(None),
                events: restored + seq![EventSpec::Focus(Some(id))],
            }
        },
    }
}

/// What one request does to the session, given the installed apps.
pub open spec fn step(s: SessionSpec, req: Request, apps: Seq<App>) -> StepSpec {
    match req {
        Request::Launch { app, new } => {
            if !new && last_of_app(s.windows, app@) is Some {
                focus_step(s, s.windows[last_of_app(s.windows, app@)->0].id)
            } else {
                match catalogue_index(apps, app@, 0) {
                    None => StepSpec { state: s, result: Err("no such app: "@ + app@), events: seq![] },
                    Some(k) => {
                        let found = apps[k];
                        let id = (s.next_window + 1) as u64;
                        let w = WindowSpec {
                            id,
                            app: found.id@,
                            title: numbered_title(found.name@, count_of_app(s.windows, found.id@)),
                            url: found.entry@,
                            minimized: false,
                        };
                        StepSpec {
                            state: SessionSpec { windows: s.windows.push(w), focus: Some(id), next_window: id },
                            result: Ok(None),
                            events: seq![EventSpec::Opened(w), EventSpec::Focus(Some(id))],
                        }
                    },
                }
            }
        },
        Request::Focus { id } => focus_step(s, id),
        Request::Minimize { id } => match window_index(s.windows, id) {
            None => StepSpec { state: s, result: Err(no_such_window(id)), events: seq![] },
            Some(i) => {
                let ws = s.windows.update(i, WindowSpec { minimized: true, ..s.windows[i] });
                if s.focus == Some(id) {
                    let f = last_visible(ws);
                    StepSpec {
                        state: SessionSpec { windows: ws, focus: f, ..s },
                        result: Ok(None),
                        events: seq![EventSpec::Minimized(id), EventSpec::Focus(f)],
                    }
                } else {
                    StepSpec {
                        state: SessionSpec { windows: ws, ..s },
                        result: Ok(None),
                        events: seq![EventSpec::Minimized(id)],
                    }
                }
            },
        },
        Request::SetTitle { id, title } => {
            let t = if title@.len() > 120 { title@.take(120) } else { title@ };
            if trim(t).len() == 0 {
                StepSpec { state: s, result: Err("empty title"@), events: seq![] }
            } else {
                match window_index(s.windows, id) {
                    None => StepSpec { state: s, result: Err(no_such_window(id)), events: seq![] },
                    Some(i) => StepSpec {
                        state: SessionSpec {
                            windows: s.windows.update(i, WindowSpec { title: t, ..s.windows[i] }),
                            ..s
                        },
                        result: Ok(None),
                        events: seq![EventSpec::Titled(id, t)],
                    },
                }
            }
        },
        Request::App { win, req } => {
            if window_index(s.windows, win) is None {
                StepSpec { state: s, result: Err(no_such_window(win)), events: seq![] }
            } else {
                StepSpec { state: s, result: Ok(Some((win, req))), events: seq![] }
            }
        },
        Request::Close { id } => match window_index(s.windows, id) {
            None => StepSpec { state: s, result: Err(no_such_window(id)), events: seq![] },
            Some(i) => {
                let ws = s.windows.remove(i);
                if s.focus == Some(id) {
                    let f = last_visible(ws);
                    StepSpec {
                        state: SessionSpec { windows: ws, focus: f, ..s },
                        result: Ok(None),
                        events: seq![EventSpec::Closed(id), EventSpec::Focus(f)],
                    }
                } else {
                    StepSpec {
                        state: SessionSpec { windows: ws, ..s },
                        result: Ok(None),
                        events: seq![EventSpec::Closed(id)],
                    }
                }
            },
        },
    }
}

/// Whether the request opens a new window: a launch of an installed app
/// that is not merely refocusing one of its windows.
pub open spec fn opens_window(s: SessionSpec, req: Request, apps: Seq<App>) -> bool {
    match req {
        Request::Launch { app, new } => !(!new && last_of_app(s.windows, app@) is Some) && catalogue_index(
            apps,
            app@,
            0,
        ) is Some,
        _ => false,
    }
}

/// Window ids are distinct and at most the last one handed out, and focus,
/// when set, names a window that is not minimized.
pub open spec fn session_wf(s: SessionSpec) -> bool {
    &&& s.windows.len() <= s.next_window
    &&& forall|i: int, j: int| 0 <= i < j < s.windows.len() ==> s.windows[i].id != s.windows[j].id
    &&& forall|i: int| 0 <= i < s.windows.len() ==> 1 <= #[trigger] s.windows[i].id <= s.next_window
    &&& match s.focus {
        Some(f) => exists|i: int| 0 <= i < s.windows.len() && s.windows[i].id == f && !s.windows[i].minimized,
        None => true,
    }
}

pub open spec fn windows_spec(v: Seq<Window>) -> Seq<WindowSpec> {
    v.map_values(|w: Window| w.spec())
}

pub struct State {
    windows: Vec<Window>,
    focus: Option<u64>,
    next_window: u64,
    next_mirror: u64,
    mirrors: Vec<u64>,
}

fn copy_string(s: &String) -> (r: String)
    ensures
        r@ == s@,
{
    s.clone()
}

fn copy_window(w: &Window) -> (r: Window)
    ensures
        r.spec() == w.spec(),
{
    Window {
        id: w.id,
        app: copy_string(&w.app),
        title: copy_string(&w.title),
        url: copy_string(&w.url),
        minimized: w.minimized,
    }
}

proof fn lemma_window_index(ws: Seq<WindowSpec>, i: int)
    requires
        0 <= i < ws.len(),
        forall|a: int, b: int| 0 <= a < b < ws.len() ==> ws[a].id != ws[b].id,
    ensures
        window_index(ws, ws[i].id) == Some(i),
{
    let j = choose|j: int| 0 <= j < ws.len() && ws[j].id == ws[i].id;
    if j != i {
        if j < i {
            assert(ws[j].id != ws[i].id);
        } else {
            assert(ws[i].id != ws[j].id);
        }
    }
}

proof fn lemma_last_visible(ws: Seq<WindowSpec>)
    ensures
        last_visible(ws) matches Some(f) ==> exists|i: int| 0 <= i < ws.len() && ws[i].id == f && !ws[i].minimized,
    decreases ws.len(),
{
    if ws.len() > 0 {
        if ws.last().minimized {
            lemma_last_visible(ws.drop_last());
            if let Some(f) = last_visible(ws.drop_last()) {
                let i = choose|i: int| 0 <= i < ws.drop_last().len() && ws.drop_last()[i].id == f && !ws.drop_last()[i].minimized;
                assert(ws[i] == ws.drop_last()[i]);
            }
        } else {
            assert(ws[ws.len() - 1] == ws.last());
        }
    }
}

fn find_last_visible(ws: &Vec<Window>) -> (r: Option<u64>)
    ensures
        r == last_visible(windows_spec(ws@)),
{
    let ghost v = windows_spec(ws@);
    let mut i = ws.len();
    assert(v.take(i as int) =~= v);
    while i > 0
        invariant
            v == windows_spec(ws@),
            i <= ws@.len(),
            last_visible(v) == last_visible(v.take(i as int)),
        decreases i,
    {
        assert(v.take(i as int).drop_last() =~= v.take(i - 1));
        assert(v.take(i as int).last() == ws@[i - 1].spec());
        if !ws[i - 1].minimized {
            return Some(ws[i - 1].id);
        }
        i = i - 1;
    }
    None
}

fn find_catalogue(apps: &[App], app: &str) -> (r: Option<usize>)
    ensures
        match r {
            Some(k) => catalogue_index(apps@, app@, 0) == Some(k as int) && k < apps@.len(),
            None => catalogue_index(apps@, app@, 0) is None,
        },
{
    let mut i: usize = 0;
    while i < apps.len()
        invariant
            i <= apps@.len(),
            catalogue_index(apps@, app@, 0) == catalogue_index(apps@, app@, i as int),
        decreases apps@.len() - i,
    {
        if crate::text::str_eq(apps[i].id.as_str(), app) {
            return Some(i);
        }
        i = i + 1;
    }
    None
}

impl State {
    /// The windows, focus and last window id handed out.
    pub closed spec fn session(&self) -> SessionSpec {
        SessionSpec { windows: windows_spec(self.windows@), focus: self.focus, next_window: self.next_window }
    }

    /// The ids of the connected mirrors.
    pub closed spec fn mirror_ids(&self) -> Seq<u64> {
        self.mirrors@
    }

    /// The last mirror id handed out.
    pub closed spec fn last_mirror(&self) -> u64 {
        self.next_mirror
    }

    pub fn new() -> (s: State)
        ensures
            s.session().windows.len() == 0,
            s.session().focus is None,
            s.session().next_window == 0,
            s.mirror_ids().len() == 0,
            s.last_mirror() == 0,
            session_wf(s.session()),
    {
        let s = State { windows: Vec::new(), focus: None, next_window: 0, next_mirror: 0, mirrors: Vec::new() };
        assert(s.session().windows =~= seq![]);
        s
    }

    /// The windows, in the order they were opened.
    pub fn windows(&self) -> (r: &Vec<Window>)
        ensures
            windows_spec(r@) == self.session().windows,
    {
        &self.windows
    }

    /// Whether a window id is left to hand out.
    pub fn can_open_window(&self) -> (r: bool)
        ensures
            r == (self.session().next_window < u64::MAX),
    {
        self.next_window < u64::MAX
    }

    pub fn focus(&self) -> (r: Option<u64>)
        ensures
            r == self.session().focus,
    {
        self.focus
    }

    fn index_of(&self, id: u64) -> (r: Option<usize>)
        requires
            session_wf(self.session()),
        ensures
            match r {
                Some(i) => window_index(self.session().windows, id) == Some(i as int) && i < self.windows@.len(),
                None => window_index(self.session().windows, id) is None,
            },
    {
        let ghost v = self.session().windows;
        let mut i: usize = 0;
        while i < self.windows.len()
            invariant
                v == windows_spec(self.windows@),
                v == self.session().windows,
                session_wf(self.session()),
                i <= self.windows@.len(),
                forall|k: int| 0 <= k < i ==> v[k].id != id,
            decreases self.windows@.len() - i,
        {
            if self.windows[i].id == id {
                proof {
                    lemma_window_index(v, i as int);
                }
                return Some(i);
            }
            i = i + 1;
        }
        None
    }

    /// The step `st` was taken: the answer and events are its, and so is
    /// the new session.
    pub open spec fn took(&self, h: Handled, st: StepSpec) -> bool {
        &&& handled_spec(h) == (st.result, st.events)
        &&& self.session() == st.state
    }

    fn no_such_window_error(id: u64) -> (h: Handled)
        ensures
            handled_spec(h) == (Err::<Option<(u64, u64)>, Seq<char>>(no_such_window(id)), Seq::<EventSpec>::empty()),
    {
        let mut m = String::new();
        push_str(&mut m, "no such window: ");
        push_dec(&mut m, id);
        assert(m@ =~= no_such_window(id));
        let h = Handled { result: Err(m), events: Vec::new() };
        assert(events_spec(h.events@) =~= Seq::<EventSpec>::empty());
        h
    }

    fn focus_window(&mut self, id: u64) -> (h: Handled)
        requires
            session_wf(old(self).session()),
        ensures
            final(self).took(h, focus_step(old(self).session(), id)),
            session_wf(final(self).session()),
            final(self).mirror_ids() == old(self).mirror_ids(),
            final(self).last_mirror() == old(self).last_mirror(),
    {
        let ghost s0 = self.session();
        match self.index_of(id) {
            None => Self::no_such_window_error(id),
            Some(i) => {
                let mut events: Vec<Event> = Vec::new();
                let ghost restored: Seq<EventSpec> = seq![];
                if self.windows[i].minimized {
                    let w = copy_window(&self.windows[i]);
                    let w2 = Window { minimized: false, ..w };
                    self.windows.set(i, w2);
                    assert(windows_spec(self.windows@) =~= s0.windows.update(i as int, WindowSpec { minimized: false, ..s0.windows[i as int] }));
                    events.push(Event::Restored(id));
                    proof { restored = seq![EventSpec::Restored(id)]; }
                } else {
                    assert(windows_spec(self.windows@) =~= s0.windows);
                }
                self.focus = Some(id);
                events.push(Event::Focus(Some(id)));
                assert(events_spec(events@) =~= restored + seq![EventSpec::Focus(Some(id))]);
                let h = Handled { result: Ok(None), events };
                proof {
                    let s1 = self.session();
                    assert(s1.windows[i as int].id == id && !s1.windows[i as int].minimized);
                }
                h
            },
        }
    }

    fn last_of_app_index(&self, app: &str) -> (r: Option<usize>)
        ensures
            match r {
                Some(j) => last_of_app(self.session().windows, app@) == Some(j as int) && j < self.windows@.len(),
                None => last_of_app(self.session().windows, app@) is None,
            },
    {
        let ghost v = self.session().windows;
        let mut i = self.windows.len();
        assert(v.take(i as int) =~= v);
        while i > 0
            invariant
                v == self.session().windows,
                i <= self.windows@.len(),
                last_of_app(v, app@) == last_of_app(v.take(i as int), app@),
            decreases i,
        {
            assert(v.take(i as int).drop_last() =~= v.take(i - 1));
            assert(v.take(i as int).last() == self.windows@[i - 1].spec());
            if crate::text::str_eq(self.windows[i - 1].app.as_str(), app) {
                return Some(i - 1);
            }
            i = i - 1;
        }
        None
    }

    fn count_of_app_exec(&self, app: &str) -> (n: usize)
        ensures
            n == count_of_app(self.session().windows, app@),
            n <= self.windows@.len(),
    {
        let ghost v = self.session().windows;
        let mut n: usize = 0;
        let mut i: usize = 0;
        assert(v.take(0) =~= seq![]);
        while i < self.windows.len()
            invariant
                v == self.session().windows,
                i <= self.windows@.len(),
                n <= i,
                n == count_of_app(v.take(i as int), app@),
            decreases self.windows@.len() - i,
        {
            assert(v.take(i + 1).drop_last() =~= v.take(i as int));
            assert(v.take(i + 1).last() == self.windows@[i as int].spec());
            if crate::text::str_eq(self.windows[i].app.as_str(), app) {
                n = n + 1;
            }
            i = i + 1;
        }
        assert(v.take(i as int) =~= v);
        n
    }

    fn launch(&mut self, app: String, new: bool, apps: &[App]) -> (h: Handled)
        requires
            session_wf(old(self).session()),
            opens_window(old(self).session(), Request::Launch { app, new }, apps@) ==> old(self).session().next_window
                < u64::MAX,
        ensures
            final(self).took(h, step(old(self).session(), Request::Launch { app, new }, apps@)),
            session_wf(final(self).session()),
            final(self).mirror_ids() == old(self).mirror_ids(),
            final(self).last_mirror() == old(self).last_mirror(),
    {
        let ghost s0 = self.session();
        if !new {
            if let Some(j) = self.last_of_app_index(app.as_str()) {
                let id = self.windows[j].id;
                return self.focus_window(id);
            }
        }
        let k = match find_catalogue(apps, app.as_str()) {
            Some(k) => k,
            None => {
                let mut m = String::new();
                push_str(&mut m, "no such app: ");
                push_str(&mut m, app.as_str());
                let h = Handled { result: Err(m), events: Vec::new() };
                assert(events_spec(h.events@) =~= Seq::<EventSpec>::empty());
                return h;
            },
        };
        let found = &apps[k];
        let n = self.count_of_app_exec(found.id.as_str());
        self.next_window = self.next_window + 1;
        let id = self.next_window;
        let mut title = copy_string(&found.name);
        if n > 0 {
            push_str(&mut title, " ");
            push_dec(&mut title, (n as u64) + 1);
        }
        assert(title@ =~= numbered_title(found.name@, n as nat));
        let w = Window { id, app: copy_string(&found.id), title, url: copy_string(&found.entry), minimized: false };
        self.windows.push(copy_window(&w));
        self.focus = Some(id);
        let ghost ws = w.spec();
        let mut events: Vec<Event> = Vec::new();
        events.push(Event::Opened(w));
        events.push(Event::Focus(Some(id)));
        assert(events_spec(events@) =~= seq![EventSpec::Opened(ws), EventSpec::Focus(Some(id))]);
        assert(windows_spec(self.windows@) =~= s0.windows.push(ws));
        proof {
            let s1 = self.session();
            assert(s1.windows[s1.windows.len() - 1].id == id);
        }
        Handled { result: Ok(None), events }
    }

    fn minimize(&mut self, id: u64) -> (h: Handled)
        requires
            session_wf(old(self).session()),
        ensures
            final(self).took(h, step(old(self).session(), Request::Minimize { id }, seq![])),
            session_wf(final(self).session()),
            final(self).mirror_ids() == old(self).mirror_ids(),
            final(self).last_mirror() == old(self).last_mirror(),
    {
        let ghost s0 = self.session();
        let i = match self.index_of(id) {
            Some(i) => i,
            None => return Self::no_such_window_error(id),
        };
        let w = copy_window(&self.windows[i]);
        self.windows.set(i, Window { minimized: true, ..w });
        let ghost ws = s0.windows.update(i as int, WindowSpec { minimized: true, ..s0.windows[i as int] });
        assert(windows_spec(self.windows@) =~= ws);
        assert(forall|a: int| 0 <= a < ws.len() ==> #[trigger] ws[a].id == s0.windows[a].id);
        let mut events: Vec<Event> = Vec::new();
        events.push(Event::Minimized(id));
        if self.focus == Some(id) {
            let f = find_last_visible(&self.windows);
            self.focus = f;
            events.push(Event::Focus(f));
            assert(events_spec(events@) =~= seq![EventSpec::Minimized(id), EventSpec::Focus(f)]);
            proof {
                lemma_last_visible(ws);
            }
        } else {
            assert(events_spec(events@) =~= seq![EventSpec::Minimized(id)]);
            proof {
                if let Some(f) = s0.focus {
                    let j = choose|j: int| 0 <= j < s0.windows.len() && s0.windows[j].id == f && !s0.windows[j].minimized;
                    assert(ws[j] == s0.windows[j]);
                }
            }
        }
        Handled { result: Ok(None), events }
    }

    fn set_title(&mut self, id: u64, title: String) -> (h: Handled)
        requires
            session_wf(old(self).session()),
        ensures
            final(self).took(h, step(old(self).session(), Request::SetTitle { id, title }, seq![])),
            session_wf(final(self).session()),
            final(self).mirror_ids() == old(self).mirror_ids(),
            final(self).last_mirror() == old(self).last_mirror(),
    {
        let ghost s0 = self.session();
        let tv = chars_of(title.as_str());
        let tl = if tv.len() > 120 { 120 } else { tv.len() };
        let ghost t = if title@.len() > 120 { title@.take(120) } else { title@ };
        assert(tv@.subrange(0, tl as int) =~= t);
        let (a, b) = trim_range(&tv, 0, tl);
        if a == b {
            let mut m = String::new();
            push_str(&mut m, "empty title");
            let h = Handled { result: Err(m), events: Vec::new() };
            assert(events_spec(h.events@) =~= Seq::<EventSpec>::empty());
            return h;
        }
        let i = match self.index_of(id) {
            Some(i) => i,
            None => return Self::no_such_window_error(id),
        };
        let tt = string_of(&tv, 0, tl);
        let w = copy_window(&self.windows[i]);
        self.windows.set(i, Window { title: copy_string(&tt), ..w });
        assert(windows_spec(self.windows@) =~= s0.windows.update(i as int, WindowSpec { title: t, ..s0.windows[i as int] }));
        let mut events: Vec<Event> = Vec::new();
        events.push(Event::Titled(id, tt));
        assert(events_spec(events@) =~= seq![EventSpec::Titled(id, t)]);
        proof {
            let s1 = self.session();
            if let Some(f) = s0.focus {
                let j = choose|j: int| 0 <= j < s0.windows.len() && s0.windows[j].id == f && !s0.windows[j].minimized;
                assert(s1.windows[j].id == f && !s1.windows[j].minimized);
            }
        }
        Handled { result: Ok(None), events }
    }

    fn close(&mut self, id: u64) -> (h: Handled)
        requires
            session_wf(old(self).session()),
        ensures
            final(self).took(h, step(old(self).session(), Request::Close { id }, seq![])),
            session_wf(final(self).session()),
            final(self).mirror_ids() == old(self).mirror_ids(),
            final(self).last_mirror() == old(self).last_mirror(),
    {
        let ghost s0 = self.session();
        let i = match self.index_of(id) {
            Some(i) => i,
            None => return Self::no_such_window_error(id),
        };
        self.windows.remove(i);
        let ghost ws = s0.windows.remove(i as int);
        assert(windows_spec(self.windows@) =~= ws);
        let mut events: Vec<Event> = Vec::new();
        events.push(Event::Closed(id));
        if self.focus == Some(id) {
            let f = find_last_visible(&self.windows);
            self.focus = f;
            events.push(Event::Focus(f));
            assert(events_spec(events@) =~= seq![EventSpec::Closed(id), EventSpec::Focus(f)]);
            proof {
                lemma_last_visible(ws);
                if let Some(g) = f {
                    let j = choose|j: int| 0 <= j < ws.len() && ws[j].id == g && !ws[j].minimized;
                    assert(self.session().windows[j] == ws[j]);
                }
            }
        } else {
            assert(events_spec(events@) =~= seq![EventSpec::Closed(id)]);
            proof {
                if let Some(f) = s0.focus {
                    let j = choose|j: int| 0 <= j < s0.windows.len() && s0.windows[j].id == f && !s0.windows[j].minimized;
                    assert(j != i);
                    if j < i {
                        assert(ws[j] == s0.windows[j]);
                    } else {
                        assert(ws[j - 1] == s0.windows[j]);
                    }
                }
            }
        }
        proof {
            assert forall|a: int, b: int| 0 <= a < b < ws.len() implies ws[a].id != ws[b].id by {
                let a0 = if a < i { a } else { a + 1 };
                let b0 = if b < i { b } else { b + 1 };
                assert(ws[a] == s0.windows[a0]);
                assert(ws[b] == s0.windows[b0]);
            }
            assert forall|a: int| 0 <= a < ws.len() implies 1 <= #[trigger] ws[a].id <= s0.next_window by {
                let a0 = if a < i { a } else { a + 1 };
                assert(ws[a] == s0.windows[a0]);
            }
            let s1 = self.session();
            assert(s1.windows == ws);
            assert(s1.windows.len() <= s1.next_window);
            assert(forall|a: int, b: int| 0 <= a < b < s1.windows.len() ==> s1.windows[a].id != s1.windows[b].id);
            assert(forall|a: int| 0 <= a < s1.windows.len() ==> 1 <= #[trigger] s1.windows[a].id <= s1.next_window);
        }
        Handled { result: Ok(None), events }
    }

    /// Handles one request. `apps` is the catalogue, which only a launch
    /// reads.
    pub fn handle(&mut self, req: Request, apps: &[App]) -> (h: Handled)
        requires
            session_wf(old(self).session()),
            opens_window(old(self).session(), req, apps@) ==> old(self).session().next_window < u64::MAX,
        ensures
            final(self).took(h, step(old(self).session(), req, apps@)),
            session_wf(final(self).session()),
            final(self).mirror_ids() == old(self).mirror_ids(),
            final(self).last_mirror() == old(self).last_mirror(),
    {
        match req {
            Request::Launch { app, new } => self.launch(app, new, apps),
            Request::Focus { id } => self.focus_window(id),
            Request::Minimize { id } => self.minimize(id),
            Request::SetTitle { id, title } => self.set_title(id, title),
            Request::App { win, req } => {
                match self.index_of(win) {
                    None => Self::no_such_window_error(win),
                    Some(_) => {
                        let h = Handled { result: Ok(Some(AppCall { win, req })), events: Vec::new() };
                        assert(events_spec(h.events@) =~= Seq::<EventSpec>::empty());
                        h
                    },
                }
            },
            Request::Close { id } => self.close(id),
        }
    }

    /// Whether a mirror id is left to hand out.
    pub fn can_attach(&self) -> (r: bool)
        ensures
            r == (self.last_mirror() < u64::MAX),
    {
        self.next_mirror < u64::MAX
    }

    /// A shell connected: a new mirror id, recorded.
    pub fn attach(&mut self) -> (id: u64)
        requires
            old(self).last_mirror() < u64::MAX,
        ensures
            id == old(self).last_mirror() + 1,
            final(self).last_mirror() == id,
            final(self).mirror_ids() == old(self).mirror_ids().push(id),
            final(self).session() == old(self).session(),
    {
        self.next_mirror = self.next_mirror + 1;
        let id = self.next_mirror;
        self.mirrors.push(id);
        id
    }

    /// A shell went away.
    pub fn detach(&mut self, mirror: u64)
        ensures
            final(self).mirror_ids() == old(self).mirror_ids().filter(|m: u64| m != mirror),
            final(self).last_mirror() == old(self).last_mirror(),
            final(self).session() == old(self).session(),
    {
        let ghost before = self.mirrors@;
        let mut kept: Vec<u64> = Vec::new();
        let mut i: usize = 0;
        assert(before.take(0).filter(|m: u64| m != mirror) =~= seq![]);
        while i < self.mirrors.len()
            invariant
                before == self.mirrors@,
                i <= before.len(),
                kept@ == before.take(i as int).filter(|m: u64| m != mirror),
            decreases before.len() - i,
        {
            let m = self.mirrors[i];
            assert(before.take(i + 1).drop_last() =~= before.take(i as int));
            reveal_with_fuel(Seq::<_>::filter, 1);
            if m != mirror {
                kept.push(m);
            }
            i = i + 1;
        }
        assert(before.take(i as int) =~= before);
        self.mirrors = kept;
    }
}

/// One binding of the session's chord table.
#[derive(Debug)]
pub struct KeyBinding {
    pub chord: String,
    pub action: String,
}

/// The session's chord table: what the shell and every app frame treat as
/// reserved, and what each chord does.
pub open spec fn keymap_spec() -> Seq<(Seq<char>, Seq<char>)> {
    seq![
        ("Ctrl+K"@, "command-bar"@),
        ("Alt+T"@, "toolbox"@),
        ("Alt+W"@, "close-window"@),
        ("Alt+M"@, "minimize-window"@),
        ("Ctrl+`"@, "cycle-window"@),
    ] + Seq::new(9, |i: int| ("Alt+"@ + dec((i + 1) as nat), "focus-window-"@ + dec((i + 1) as nat)))
}

fn binding(chord: &str, action: &str) -> (b: KeyBinding)
    ensures
        b.chord@ == chord@,
        b.action@ == action@,
{
    let mut c = String::new();
    push_str(&mut c, chord);
    let mut a = String::new();
    push_str(&mut a, action);
    assert(c@ =~= chord@);
    assert(a@ =~= action@);
    KeyBinding { chord: c, action: a }
}

pub fn default_keymap() -> (m: Vec<KeyBinding>)
    ensures
        m@.map_values(|b: KeyBinding| (b.chord@, b.action@)) == keymap_spec(),
{
    let mut map: Vec<KeyBinding> = Vec::new();
    map.push(binding("Ctrl+K", "command-bar"));
    map.push(binding("Alt+T", "toolbox"));
    map.push(binding("Alt+W", "close-window"));
    map.push(binding("Alt+M", "minimize-window"));
    map.push(binding("Ctrl+`", "cycle-window"));
    let ghost fixed = keymap_spec().take(5);
    assert(map@.map_values(|b: KeyBinding| (b.chord@, b.action@)) =~= fixed);
    let mut n: u64 = 1;
    while n <= 9
        invariant
            1 <= n <= 10,
            map@.map_values(|b: KeyBinding| (b.chord@, b.action@)) == keymap_spec().take(4 + n as int),
        decreases 10 - n,
    {
        let mut c = String::new();
        push_str(&mut c, "Alt+");
        push_dec(&mut c, n);
        let mut a = String::new();
        push_str(&mut a, "focus-window-");
        push_dec(&mut a, n);
        let ghost before = map@;
        map.push(KeyBinding { chord: c, action: a });
        assert(map@.map_values(|b: KeyBinding| (b.chord@, b.action@)) =~= before.map_values(|b: KeyBinding| (b.chord@, b.action@)).push(keymap_spec()[4 + n as int]));
        assert(keymap_spec().take(4 + n + 1) =~= keymap_spec().take(4 + n as int).push(keymap_spec()[4 + n as int]));
        n = n + 1;
    }
    assert(keymap_spec().take(14) =~= keymap_spec());
    map
}

/// How an app request is answered.
#[derive(Debug)]
pub enum AppAnswer {
    /// Facts about the system and the session.
    SystemInfo,
    /// An error: the request's kind is not known; the text says so.
    Unknown(String),
}

/// An app request by its `kind` (absent is empty). One kind is known.
pub fn app_request(kind: Option<&str>) -> (a: AppAnswer)
    ensures
        ({
            let k = match kind {
                Some(k) => k@,
                None => Seq::<char>::empty(),
            };
            if k == "system-info"@ {
                a is SystemInfo
            } else {
                a matches AppAnswer::Unknown(m) && m@ == "unknown request kind: "@ + k
            }
        }),
{
    let k = match kind {
        Some(k) => k,
        None => "",
    };
    proof {
        reveal_strlit("");
        assert(""@ =~= Seq::<char>::empty());
    }
    if str_eq(k, "system-info") {
        AppAnswer::SystemInfo
    } else {
        let mut m = String::new();
        push_str(&mut m, "unknown request kind: ");
        push_str(&mut m, k);
        assert(m@ =~= "unknown request kind: "@ + k@);
        AppAnswer::Unknown(m)
    }
}

/// What a connection does with a frame from its shell.
#[derive(Debug)]
pub enum FrameAction {
    /// A text frame: a request to handle.
    Request,
    /// A ping: answer with a pong carrying the same payload.
    Pong,
    /// A close: answer with a close, then stop.
    Close,
    /// Anything else is ignored.
    Ignore,
}

pub fn frame_action(opcode: u8) -> (a: FrameAction)
    ensures
        opcode == crate::ws::TEXT ==> a is Request,
        opcode == crate::ws::PING ==> a is Pong,
        opcode == crate::ws::CLOSE ==> a is Close,
        opcode != crate::ws::TEXT && opcode != crate::ws::PING && opcode != crate::ws::CLOSE ==> a is Ignore,
{
    if opcode == crate::ws::TEXT {
        FrameAction::Request
    } else if opcode == crate::ws::PING {
        FrameAction::Pong
    } else if opcode == crate::ws::CLOSE {
        FrameAction::Close
    } else {
        FrameAction::Ignore
    }
}

/// A refused request changes nothing and tells no one: an error is for the
/// asker alone.
pub proof fn lemma_error_changes_nothing(s: SessionSpec, req: Request, apps: Seq<App>)
    requires
        step(s, req, apps).result is Err,
    ensures
        step(s, req, apps).state == s,
        step(s, req, apps).events.len() == 0,
{
}

/// One window per app by default: launching an app that has a window,
/// without asking for a new one, opens nothing and focuses its most recent
/// window.
pub proof fn lemma_launch_focuses_existing(s: SessionSpec, app: String, apps: Seq<App>)
    requires
        session_wf(s),
        last_of_app(s.windows, app@) is Some,
    ensures
        ({
            let st = step(s, Request::Launch { app, new: false }, apps);
            let j = last_of_app(s.windows, app@)->0;
            &&& st.result == Ok::<Option<(u64, u64)>, Seq<char>>(None)
            &&& st.state.windows.len() == s.windows.len()
            &&& st.state.focus == Some(s.windows[j].id)
            &&& st.state.next_window == s.next_window
        }),
{
    lemma_last_of_app_range(s.windows, app@);
    let j = last_of_app(s.windows, app@)->0;
    crate::state::lemma_window_index(s.windows, j);
}

/// Changes travel by broadcast: a request that changes the session tells
/// every mirror something.
pub proof fn lemma_changes_are_broadcast(s: SessionSpec, req: Request, apps: Seq<App>)
    requires
        step(s, req, apps).state != s,
    ensures
        step(s, req, apps).events.len() > 0,
{
}

/// Only an app request is answered to the asker directly; everything else
/// succeeds with no direct reply, and the asker learns what happened from
/// the broadcast like every other mirror.
pub proof fn lemma_direct_replies_only_for_apps(s: SessionSpec, req: Request, apps: Seq<App>)
    requires
        step(s, req, apps).result matches Ok(Some(_)),
    ensures
        req is App,
{
}

/// A second window of an app is a deliberate ask: a launch with `new` of an
/// installed app always opens one, numbered by how many the app has open.
pub proof fn lemma_launch_new_opens(s: SessionSpec, app: String, apps: Seq<App>)
    requires
        catalogue_index(apps, app@, 0) is Some,
    ensures
        ({
            let st = step(s, Request::Launch { app, new: true }, apps);
            let k = catalogue_index(apps, app@, 0)->0;
            &&& st.result == Ok::<Option<(u64, u64)>, Seq<char>>(None)
            &&& st.state.windows == s.windows.push(st.state.windows.last())
            &&& st.state.windows.last().app == apps[k].id@
            &&& st.state.windows.last().title == numbered_title(apps[k].name@, count_of_app(s.windows, apps[k].id@))
            &&& st.state.focus == Some(st.state.windows.last().id)
        }),
{
    let st = step(s, Request::Launch { app, new: true }, apps);
    assert(st.state.windows.drop_last() =~= s.windows);
    assert(st.state.windows =~= s.windows.push(st.state.windows.last()));
}

/// `last_of_app` finds the most recently opened window of the app: that
/// window is the app's and no later one is; without one, no window is.
pub proof fn lemma_last_of_app_is_last(ws: Seq<WindowSpec>, app: Seq<char>)
    ensures
        match last_of_app(ws, app) {
            Some(j) => 0 <= j < ws.len() && ws[j].app == app && forall|k: int| j < k < ws.len() ==> #[trigger] ws[k].app != app,
            None => forall|k: int| 0 <= k < ws.len() ==> #[trigger] ws[k].app != app,
        },
    decreases ws.len(),
{
    if ws.len() > 0 {
        lemma_last_of_app_is_last(ws.drop_last(), app);
        if ws.last().app != app {
            assert(forall|k: int| 0 <= k < ws.len() - 1 ==> ws[k] == ws.drop_last()[k]);
        }
    }
}

/// `last_visible` finds the most recently opened window that is not
/// minimized: that window is visible and every later one is minimized;
/// without one, every window is minimized.
pub proof fn lemma_last_visible_is_last(ws: Seq<WindowSpec>)
    ensures
        match last_visible(ws) {
            Some(f) => exists|j: int|
                0 <= j < ws.len() && ws[j].id == f && !ws[j].minimized && forall|k: int|
                    j < k < ws.len() ==> #[trigger] ws[k].minimized,
            None => forall|k: int| 0 <= k < ws.len() ==> #[trigger] ws[k].minimized,
        },
    decreases ws.len(),
{
    if ws.len() > 0 {
        let n = ws.len() - 1;
        lemma_last_visible_is_last(ws.drop_last());
        assert(forall|k: int| 0 <= k < n ==> ws[k] == ws.drop_last()[k]);
        if !ws.last().minimized {
            assert(ws[n].id == ws.last().id && !ws[n].minimized);
        } else {
            if let Some(f) = last_visible(ws.drop_last()) {
                let j = choose|j: int|
                    0 <= j < n && ws.drop_last()[j].id == f && !ws.drop_last()[j].minimized && forall|k: int|
                        j < k < n ==> #[trigger] ws.drop_last()[k].minimized;
                assert(ws[j].id == f && !ws[j].minimized);
                assert forall|k: int| j < k < ws.len() implies #[trigger] ws[k].minimized by {
                    if k < n {
                        assert(ws.drop_last()[k].minimized);
                    }
                }
            }
        }
    }
}

/// One window per app, and the latest one: a launch without `new` of an
/// app that has windows opens nothing and focuses the app's most recently
/// opened window.
pub proof fn lemma_launch_focuses_latest(s: SessionSpec, app: String, apps: Seq<App>, i: int)
    requires
        session_wf(s),
        0 <= i < s.windows.len(),
        s.windows[i].app == app@,
    ensures
        ({
            let st = step(s, Request::Launch { app, new: false }, apps);
            &&& st.result == Ok::<Option<(u64, u64)>, Seq<char>>(None)
            &&& st.state.windows.len() == s.windows.len()
            &&& exists|j: int|
                0 <= j < s.windows.len() && s.windows[j].app == app@ && st.state.focus == Some(s.windows[j].id)
                    && forall|k: int| j < k < s.windows.len() ==> #[trigger] s.windows[k].app != app@
        }),
{
    lemma_last_of_app_is_last(s.windows, app@);
    let j = last_of_app(s.windows, app@)->0;
    lemma_launch_focuses_existing(s, app, apps);
    assert(s.windows[j].app == app@);
}

/// When the focused window is minimized or closed, focus falls to the most
/// recently opened window still visible: one that is not minimized with
/// every later window minimized, or nowhere when every window is.
pub proof fn lemma_focus_falls_to_latest_visible(s: SessionSpec, req: Request, apps: Seq<App>)
    requires
        session_wf(s),
        req is Minimize || req is Close,
        match req {
            Request::Minimize { id } => s.focus == Some(id),
            Request::Close { id } => s.focus == Some(id),
            _ => false,
        },
    ensures
        ({
            let st = step(s, req, apps);
            let ws = st.state.windows;
            match st.state.focus {
                Some(f) => exists|j: int|
                    0 <= j < ws.len() && ws[j].id == f && !ws[j].minimized && forall|k: int|
                        j < k < ws.len() ==> #[trigger] ws[k].minimized,
                None => forall|k: int| 0 <= k < ws.len() ==> #[trigger] ws[k].minimized,
            }
        }),
{
    let id = match req {
        Request::Minimize { id } => id,
        Request::Close { id } => id,
        _ => 0,
    };
    let f = s.focus->0;
    let i0 = choose|i: int| 0 <= i < s.windows.len() && s.windows[i].id == f && !s.windows[i].minimized;
    lemma_window_index(s.windows, i0);
    lemma_last_visible_is_last(step(s, req, apps).state.windows);
}

proof fn lemma_last_of_app_range(ws: Seq<WindowSpec>, app: Seq<char>)
    ensures
        last_of_app(ws, app) matches Some(j) ==> 0 <= j < ws.len() && ws[j].app == app,
    decreases ws.len(),
{
    if ws.len() > 0 && ws.last().app != app {
        lemma_last_of_app_range(ws.drop_last(), app);
    }
}

/// Window ids are never reused: a launch that opens a window gives it an
/// id above every id the session has handed out.
pub proof fn lemma_new_window_id_fresh(s: SessionSpec, req: Request, apps: Seq<App>)
    requires
        session_wf(s),
        s.next_window < u64::MAX,
        step(s, req, apps).state.windows.len() > s.windows.len(),
    ensures
        ({
            let st = step(s, req, apps);
            let w = st.state.windows.last();
            &&& st.state.windows.len() == s.windows.len() + 1
            &&& st.state.windows.drop_last() == s.windows
            &&& w.id == s.next_window + 1
            &&& forall|i: int| 0 <= i < s.windows.len() ==> s.windows[i].id < w.id
            &&& !w.minimized
            &&& st.state.focus == Some(w.id)
        }),
{
    match req {
        Request::Launch { app, new } => {
            if !new && last_of_app(s.windows, app@) is Some {
                let j = last_of_app(s.windows, app@)->0;
                lemma_last_of_app_range(s.windows, app@);
                lemma_window_index(s.windows, j);
            } else {
                let st = step(s, req, apps);
                assert(st.state.windows.drop_last() =~= s.windows);
            }
        },
        Request::Focus { id } => {
            if let Some(i) = window_index(s.windows, id) {
            }
        },
        Request::Close { id } => {
            if let Some(i) = window_index(s.windows, id) {
            }
        },
        _ => {},
    }
}

} // verus!
