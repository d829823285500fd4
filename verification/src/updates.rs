//! What tmux, the file system and the clock do to the popup.
use crate::order;
use crate::paths;
use crate::paths::DirPath;
use crate::popup;
use crate::popup::ActionView;
use crate::popup::App;
use crate::popup::AppView;
use crate::popup::DirInput;
use crate::popup::Focus;
use crate::popup::Rect;
use crate::popup::SessionAction;
use crate::popup::UiAreas;
use crate::search;
use crate::sessions;
use crate::sessions::Session;
use crate::store;
use crate::store::Age;
use crate::text;
use crate::tree;
use crate::tree::ChildCache;
use crate::tree::DirNode;
use vstd::prelude::*;

verus! {

/// How many seconds the list of sessions is good for.
pub const REFRESH_SECS: u64 = 2;

/// A request to the worker that talks to tmux.
#[derive(Debug)]
pub enum WorkerRequest {
    /// List the sessions, with the preview of one of them.
    Refresh { preview_for: Option<String>, current_session: Option<String> },
    /// Capture what a session shows.
    Preview { session: String, pane: Option<String> },
}

/// The value of a [`WorkerRequest`].
#[verifier::ext_equal]
pub enum RequestView {
    Refresh { preview_for: Option<Seq<char>>, current_session: Option<Seq<char>> },
    Preview { session: Seq<char>, pane: Option<Seq<char>> },
}

impl View for WorkerRequest {
    type V = RequestView;

    open spec fn view(&self) -> RequestView {
        match *self {
            WorkerRequest::Refresh { preview_for, current_session } => RequestView::Refresh {
                preview_for: text::text_opt(preview_for),
                current_session: text::text_opt(current_session),
            },
            WorkerRequest::Preview { session, pane } => RequestView::Preview {
                session: session@,
                pane: text::text_opt(pane),
            },
        }
    }
}

/// The value of a request that may be missing.
pub open spec fn request_view(request: Option<WorkerRequest>) -> Option<RequestView> {
    match request {
        Some(request) => Some(request@),
        None => None,
    }
}

/// An answer of the worker that talks to tmux.
pub enum WorkerResponse {
    Sessions(Result<Vec<Session>, String>),
    Preview { session: String, lines: Result<Vec<String>, String> },
}

/// The value of a [`WorkerResponse`].
pub enum ResponseView {
    Sessions(Result<Seq<sessions::SessionView>, Seq<char>>),
    Preview { session: Seq<char>, lines: Result<Seq<Seq<char>>, Seq<char>> },
}

impl View for WorkerResponse {
    type V = ResponseView;

    open spec fn view(&self) -> ResponseView {
        match *self {
            WorkerResponse::Sessions(Ok(list)) => ResponseView::Sessions(
                Ok(sessions::session_views(list@)),
            ),
            WorkerResponse::Sessions(Err(error)) => ResponseView::Sessions(Err(error@)),
            WorkerResponse::Preview { session, lines: Ok(lines) } => ResponseView::Preview {
                session: session@,
                lines: Ok(text::texts(lines@)),
            },
            WorkerResponse::Preview { session, lines: Err(error) } => ResponseView::Preview {
                session: session@,
                lines: Err(error@),
            },
        }
    }
}

/// Whether the list of sessions is due to be read again, so long after it was asked for.
pub fn refresh_due(since: Age) -> (r: bool)
    ensures
        r == store::is_longer(since, REFRESH_SECS),
{
    since.secs > REFRESH_SECS || (since.secs == REFRESH_SECS && since.nanos > 0)
}

/// Whether the index of directories is due to be built when the popup opens.
pub fn index_due(stale: bool, loaded: &Vec<DirPath>) -> (r: bool)
    ensures
        r == (stale || loaded@.len() == 0),
{
    stale || loaded.len() == 0
}

/// No part of the screen.
pub open spec fn nowhere() -> Rect {
    Rect { x: 0, y: 0, width: 0, height: 0 }
}

/// The state in which the popup opens, from what the stored index holds, the sessions, the one
/// that was selected last, the one the popup runs in, and the home directory.
pub open spec fn opened(
    loaded: Seq<Seq<u8>>,
    list: Seq<sessions::SessionView>,
    last_session: Option<Seq<char>>,
    current_session: Option<Seq<char>>,
    home: Option<Seq<u8>>,
) -> AppView {
    let root = popup::root_of(home);
    let place = match last_session {
        Some(name) => match sessions::place_of_session(list, name, 0) {
            Some(i) => i,
            None => 0,
        },
        None => 0,
    };
    AppView {
        focus: Focus::Sessions,
        dir_idx: 0,
        sess_idx: place as usize,
        query: Seq::empty(),
        dir_query: Seq::empty(),
        dir_input: DirInput::Filter,
        new_session: Seq::empty(),
        dirs: seq![tree::NodeView { path: root, depth: 0, expanded: true }],
        dir_children: Seq::empty(),
        dir_cache: search::index_of(
            if loaded.len() == 0 {
                seq![root]
            } else {
                loaded
            },
        ),
        cache_status: if loaded.len() == 0 {
            "cache: indexing"@
        } else {
            "cache: loaded"@
        },
        sessions: list,
        preview_for: if place < list.len() {
            Some(list[place].name)
        } else {
            None
        },
        preview_scroll: 0,
        action: ActionView::Idle,
        notice: Seq::empty(),
        ui: UiAreas { sessions: nowhere(), dirs: nowhere(), session_start: 0, dir_start: 0 },
        current_session,
        home,
    }
}

/// The name of the session at a place, if there is one.
fn name_at(list: &Vec<Session>, i: usize) -> (r: Option<String>)
    ensures
        text::text_opt(r) == (if i < list.len() {
            Some(list[i as int]@.name)
        } else {
            None
        }),
{
    if i < list.len() {
        Some(list[i].name.clone())
    } else {
        None
    }
}

/// An empty text.
fn empty_text() -> (r: String)
    ensures
        r@ == Seq::<char>::empty(),
{
    let r: String = String::new();
    assert(r@ =~= Seq::<char>::empty());
    r
}

/// Opens the popup.
pub fn open(
    loaded: Vec<DirPath>,
    list: Vec<Session>,
    last_session: Option<&str>,
    current_session: Option<String>,
    home: Option<DirPath>,
) -> (r: App)
    ensures
        r@ == opened(
            paths::path_views(loaded@),
            sessions::session_views(list@),
            text::str_opt(last_session),
            text::text_opt(current_session),
            popup::home_view(home),
        ),
{
    let root: DirPath = popup::tree_root(&home);
    let mut known: Vec<DirPath> = loaded;
    let cache_status: String = if known.len() == 0 {
        known.push(root.clone());
        assert(paths::path_views(known@) =~= seq![root@]);
        "cache: indexing".to_string()
    } else {
        "cache: loaded".to_string()
    };
    let sess_idx: usize = match last_session {
        Some(name) => match sessions::session_place(&list, name) {
            Some(i) => i,
            None => 0,
        },
        None => 0,
    };
    let mut dirs: Vec<DirNode> = Vec::new();
    dirs.push(DirNode { path: root, depth: 0, expanded: true });
    assert(tree::node_views(dirs@) =~= seq![
        tree::NodeView { path: root@, depth: 0, expanded: true },
    ]);
    let preview_for: Option<String> = name_at(&list, sess_idx);
    let nothing = Rect { x: 0, y: 0, width: 0, height: 0 };
    App {
        focus: Focus::Sessions,
        dir_idx: 0,
        sess_idx,
        query: empty_text(),
        dir_query: empty_text(),
        dir_input: DirInput::Filter,
        new_session: empty_text(),
        dirs,
        dir_children: ChildCache::new(),
        dir_cache: search::index_dirs(known),
        cache_status,
        sessions: list,
        preview_for,
        preview_scroll: 0,
        action: SessionAction::Idle,
        notice: empty_text(),
        ui: UiAreas { sessions: nothing, dirs: nothing, session_start: 0, dir_start: 0 },
        current_session,
        home,
    }
}

/// The first place in a list of sessions at which one of that name stands.
pub open spec fn listed_place(
    listed: Seq<int>,
    list: Seq<sessions::SessionView>,
    name: Seq<char>,
    from: int,
) -> Option<int>
    decreases listed.len() - from,
{
    if from < 0 || from >= listed.len() {
        None
    } else if list[listed[from]].name == name {
        Some(from)
    } else {
        listed_place(listed, list, name, from + 1)
    }
}

/// The state once the sessions have been read again: the one of the same name stays selected, or
/// the first where it is gone.
pub open spec fn refreshed(a: AppView, list: Seq<sessions::SessionView>) -> AppView {
    let now = AppView { sessions: list, ..a };
    match a.selected() {
        Some(s) => AppView {
            sess_idx: match listed_place(now.listed(), list, s.name, 0) {
                Some(k) => k as usize,
                None => 0,
            },
            ..now
        },
        None => now,
    }
}

/// The state once a preview has been captured; one that is no longer asked for changes nothing.
pub open spec fn previewed(a: AppView, session: Seq<char>, lines: Seq<Seq<char>>) -> AppView {
    if a.preview_for == Some(session) {
        match sessions::place_of_session(a.sessions, session, 0) {
            Some(i) => AppView { sessions: sessions::with_preview(a.sessions, i, lines), ..a },
            None => a,
        }
    } else {
        a
    }
}

/// The state once the worker has answered.
pub open spec fn answered(a: AppView, response: ResponseView) -> AppView {
    match response {
        ResponseView::Sessions(Ok(list)) => refreshed(a, list),
        ResponseView::Sessions(Err(error)) => AppView { notice: "refresh failed: "@ + error, ..a },
        ResponseView::Preview { session, lines: Ok(lines) } => previewed(a, session, lines),
        ResponseView::Preview { session, lines: Err(error) } => AppView {
            notice: "preview failed: "@ + error,
            ..a
        },
    }
}

/// The place of the session of that name in the list, or the first one.
fn place_or_first(app: &App, name: &str) -> (r: usize)
    ensures
        r == (match listed_place(app@.listed(), app@.sessions, name@, 0) {
            Some(k) => k,
            None => 0,
        }),
{
    let listed: Vec<usize> = sessions::filtered_session_indices(
        &app.sessions,
        app.query.as_str(),
    );
    let mut k: usize = 0;
    while k < listed.len()
        invariant
            k <= listed.len(),
            order::positions(listed@) == app@.listed(),
            forall|j: int|
                0 <= j < listed.len() ==> (#[trigger] listed[j]) < app.sessions.len(),
            listed_place(app@.listed(), app@.sessions, name@, 0) == listed_place(
                app@.listed(),
                app@.sessions,
                name@,
                k as int,
            ),
        decreases listed.len() - k,
    {
        let i: usize = listed[k];
        assert(app@.listed()[k as int] == i as int);
        assert(app@.sessions[i as int] == app.sessions[i as int]@);
        if text::same(app.sessions[i].name.as_str(), name) {
            return k;
        }
        k = k + 1;
    }
    0
}

/// Takes a list of sessions that has been read again.
fn refresh(app: &mut App, list: Vec<Session>)
    ensures
        final(app)@ == refreshed(old(app)@, sessions::session_views(list@)),
{
    let selected: Option<String> = app.selected_session();
    app.sessions = list;
    if let Some(name) = selected {
        app.sess_idx = place_or_first(app, name.as_str());
    }
}

/// Takes an answer of the worker.
pub fn take_response(app: &mut App, response: WorkerResponse)
    ensures
        final(app)@ == answered(old(app)@, response@),
{
    match response {
        WorkerResponse::Sessions(Ok(list)) => refresh(app, list),
        WorkerResponse::Sessions(Err(error)) => {
            app.notice = text::joined("refresh failed: ", error.as_str());
        },
        WorkerResponse::Preview { session, lines } => match lines {
            Ok(lines) => {
                let wanted: bool = match &app.preview_for {
                    Some(shown) => text::same(shown.as_str(), session.as_str()),
                    None => false,
                };
                if wanted {
                    if let Some(i) = sessions::session_place(&app.sessions, session.as_str()) {
                        sessions::load_preview(&mut app.sessions, i, lines);
                    }
                }
            },
            Err(error) => {
                app.notice = text::joined("preview failed: ", error.as_str());
            },
        },
    }
}

/// The state once the index of directories has been built anew.
pub open spec fn reindexed(a: AppView, fresh: Seq<Seq<u8>>) -> AppView {
    AppView {
        dir_cache: search::index_of(fresh),
        cache_status: "cache: "@ + text::decimal_of(fresh.len()) + " dirs"@,
        dir_idx: 0,
        ..a
    }
}

/// Takes an index of directories that has been built anew.
pub fn take_index(app: &mut App, fresh: Vec<DirPath>)
    ensures
        final(app)@ == reindexed(old(app)@, paths::path_views(fresh@)),
{
    let count: String = text::decimal(fresh.len() as u64);
    app.dir_cache = search::index_dirs(fresh);
    app.cache_status = text::joined(text::joined("cache: ", count.as_str()).as_str(), " dirs");
    app.dir_idx = 0;
}

/// The state once tmux has given a session another name.
pub open spec fn rename_accepted(
    a: AppView,
    original: Seq<char>,
    replacement: Seq<char>,
) -> AppView {
    AppView {
        current_session: if a.current_session == Some(original) {
            Some(replacement)
        } else {
            a.current_session
        },
        preview_for: Some(replacement),
        ..a
    }
}

/// Notes that tmux has given a session another name.
pub fn accept_rename(app: &mut App, original: &str, replacement: &str)
    ensures
        final(app)@ == rename_accepted(old(app)@, original@, replacement@),
{
    let is_current: bool = match &app.current_session {
        Some(name) => text::same(name.as_str(), original),
        None => false,
    };
    if is_current {
        app.current_session = Some(replacement.to_string());
    }
    app.preview_for = Some(replacement.to_string());
}

/// The state once the sessions have been read after one of them was renamed: it is selected by its
/// place in the whole list.
pub open spec fn renamed(
    a: AppView,
    list: Seq<sessions::SessionView>,
    replacement: Seq<char>,
) -> AppView {
    AppView {
        sessions: list,
        sess_idx: match sessions::place_of_session(list, replacement, 0) {
            Some(i) => i as usize,
            None => 0,
        },
        notice: "session renamed"@,
        ..a
    }
}

/// Takes the sessions as they are after one of them was renamed.
pub fn show_renamed(app: &mut App, list: Vec<Session>, replacement: &str)
    ensures
        final(app)@ == renamed(old(app)@, sessions::session_views(list@), replacement@),
{
    app.sess_idx = match sessions::session_place(&list, replacement) {
        Some(i) => i,
        None => 0,
    };
    app.sessions = list;
    app.notice = "session renamed".to_string();
}

/// The state once the sessions have been read after one of them was ended.
pub open spec fn killed(a: AppView, list: Seq<sessions::SessionView>) -> AppView {
    let place = popup::within(a.sess_idx as int, list.len());
    AppView {
        sessions: list,
        sess_idx: place as usize,
        preview_for: if place < list.len() {
            Some(list[place].name)
        } else {
            None
        },
        notice: "session killed"@,
        ..a
    }
}

/// Takes the sessions as they are after one of them was ended.
pub fn show_killed(app: &mut App, list: Vec<Session>)
    ensures
        final(app)@ == killed(old(app)@, sessions::session_views(list@)),
{
    app.sess_idx = popup::clip(app.sess_idx, list.len());
    app.preview_for = name_at(&list, app.sess_idx);
    app.sessions = list;
    app.notice = "session killed".to_string();
}

/// Notes that tmux did not give a session another name.
pub fn reject_rename(app: &mut App, error: &str)
    ensures
        final(app)@ == (AppView { notice: "rename failed: "@ + error@, ..old(app)@ }),
{
    app.notice = text::joined("rename failed: ", error);
}

/// Notes that tmux did not end a session.
pub fn reject_kill(app: &mut App, error: &str)
    ensures
        final(app)@ == (AppView { notice: "kill failed: "@ + error@, ..old(app)@ }),
{
    app.notice = text::joined("kill failed: ", error);
}

/// A request to list the sessions as the popup shows them.
pub fn refresh_request(app: &App) -> (r: WorkerRequest)
    ensures
        r@ == (RequestView::Refresh {
            preview_for: app@.preview_for,
            current_session: app@.current_session,
        }),
{
    WorkerRequest::Refresh {
        preview_for: app.preview_for.clone(),
        current_session: app.current_session.clone(),
    }
}

/// The request to answer next when others came in behind it: the last of them all.
pub fn newest(request: WorkerRequest, waiting: Vec<WorkerRequest>) -> (r: WorkerRequest)
    ensures
        r == (if waiting@.len() == 0 {
            request
        } else {
            waiting@.last()
        }),
{
    let mut waiting: Vec<WorkerRequest> = waiting;
    match waiting.pop() {
        Some(last) => last,
        None => request,
    }
}

} // verus!
