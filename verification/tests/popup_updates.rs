use tmux_jump::paths::DirPath;
use tmux_jump::popup::{tree_root, App};
use tmux_jump::sessions::Session;
use tmux_jump::store::Age;
use tmux_jump::updates::{
    accept_rename, index_due, newest, open, refresh_due, refresh_request, reject_kill, reject_rename,
    show_killed, show_renamed, take_index, take_response, WorkerRequest, WorkerResponse,
};

fn session(name: &str) -> Session {
    Session {
        name: name.into(),
        windows: "1".into(),
        attached: false,
        created: String::new(),
        activity: String::new(),
        active_line: String::new(),
        active_pane: None,
        activity_epoch: 0,
        current: false,
        preview: Vec::new(),
    }
}

fn list(names: &[&str]) -> Vec<Session> {
    names.iter().map(|name| session(name)).collect()
}

fn app(names: &[&str], last: Option<&str>) -> App {
    open(Vec::new(), list(names), last, Some("api".into()), Some(DirPath::from_text("/h")))
}

#[test]
fn popup_opens_where_it_was_left() {
    let opened = app(&["api", "docs"], Some("docs"));
    assert_eq!(opened.sess_idx, 1);
    assert_eq!(opened.preview_for.as_deref(), Some("docs"));
    let gone = app(&["api", "docs"], Some("web"));
    assert_eq!(gone.sess_idx, 0);
    assert_eq!(gone.preview_for.as_deref(), Some("api"));
    let none = app(&[], Some("web"));
    assert_eq!(none.preview_for, None);
}

#[test]
fn popup_starts_with_the_stored_index() {
    let empty = app(&["api"], None);
    assert_eq!(empty.cache_status, "cache: indexing");
    assert_eq!(empty.dir_cache.len(), 1);
    assert_eq!(empty.dir_cache[0].full_lower, "/h");
    let stored = open(vec![DirPath::from_text("/h/A")], Vec::new(), None, None, None);
    assert_eq!(stored.cache_status, "cache: loaded");
    assert_eq!(stored.dir_cache[0].name_lower, "a");
    assert_eq!(stored.dirs[0].path.text(), "/");
    assert!(stored.dirs[0].expanded);
    assert_eq!(tree_root(&None).text(), "/");
    assert_eq!(tree_root(&Some(DirPath::from_text("/h"))).text(), "/h");
}

#[test]
fn index_is_due_when_stale_or_empty() {
    assert!(index_due(true, &vec![DirPath::from_text("/")]));
    assert!(index_due(false, &Vec::new()));
    assert!(!index_due(false, &vec![DirPath::from_text("/")]));
}

#[test]
fn sessions_are_due_after_two_seconds() {
    assert!(!refresh_due(Age { secs: 2, nanos: 0 }));
    assert!(refresh_due(Age { secs: 2, nanos: 1 }));
    assert!(refresh_due(Age { secs: 3, nanos: 0 }));
}

#[test]
fn reading_again_keeps_the_selection() {
    let mut app = app(&["api", "docs", "web"], Some("docs"));
    take_response(&mut app, WorkerResponse::Sessions(Ok(list(&["web", "new", "docs"]))));
    assert_eq!(app.sess_idx, 2);
    assert_eq!(app.selected_session().as_deref(), Some("docs"));
    take_response(&mut app, WorkerResponse::Sessions(Ok(list(&["web", "new"]))));
    assert_eq!(app.sess_idx, 0);
    app.query = "ne".into();
    take_response(&mut app, WorkerResponse::Sessions(Ok(list(&["api", "new", "next"]))));
    assert_eq!(app.selected_session().as_deref(), Some("new"));
}

#[test]
fn nothing_selected_stays_so() {
    let mut app = app(&["api"], None);
    app.sess_idx = 5;
    take_response(&mut app, WorkerResponse::Sessions(Ok(list(&["api", "docs"]))));
    assert_eq!(app.sess_idx, 5);
}

#[test]
fn failures_are_noticed() {
    let mut app = app(&["api"], None);
    take_response(&mut app, WorkerResponse::Sessions(Err("gone".into())));
    assert_eq!(app.notice, "refresh failed: gone");
    take_response(&mut app, WorkerResponse::Preview { session: "x".into(), lines: Err("no pane".into()) });
    assert_eq!(app.notice, "preview failed: no pane");
    reject_rename(&mut app, "duplicate");
    assert_eq!(app.notice, "rename failed: duplicate");
    reject_kill(&mut app, "missing");
    assert_eq!(app.notice, "kill failed: missing");
}

#[test]
fn only_the_preview_that_is_asked_for_is_taken() {
    let mut app = app(&["api", "docs"], None);
    take_response(&mut app, WorkerResponse::Preview { session: "docs".into(), lines: Ok(vec!["late".into()]) });
    assert!(app.sessions.iter().all(|s| s.preview.is_empty()));
    take_response(&mut app, WorkerResponse::Preview { session: "api".into(), lines: Ok(vec!["now".into()]) });
    assert_eq!(app.sessions[0].preview, vec!["now"]);
    assert!(app.sessions[1].preview.is_empty());
}

#[test]
fn new_index_is_counted() {
    let mut app = app(&["api"], None);
    app.dir_idx = 3;
    take_index(&mut app, vec![DirPath::from_text("/a"), DirPath::from_text("/b")]);
    assert_eq!(app.cache_status, "cache: 2 dirs");
    assert_eq!(app.dir_cache.len(), 2);
    assert_eq!(app.dir_idx, 0);
}

#[test]
fn renamed_session_is_selected() {
    let mut app = app(&["api", "docs"], None);
    accept_rename(&mut app, "api", "web");
    assert_eq!(app.current_session.as_deref(), Some("web"));
    assert_eq!(app.preview_for.as_deref(), Some("web"));
    show_renamed(&mut app, list(&["docs", "web"]), "web");
    assert_eq!(app.sess_idx, 1);
    assert_eq!(app.notice, "session renamed");
    accept_rename(&mut app, "docs", "text");
    assert_eq!(app.current_session.as_deref(), Some("web"));
    show_renamed(&mut app, list(&["web"]), "text");
    assert_eq!(app.sess_idx, 0);
}

#[test]
fn ended_session_leaves_the_nearest_selected() {
    let mut app = app(&["api", "docs", "web"], Some("web"));
    show_killed(&mut app, list(&["api", "docs"]));
    assert_eq!(app.sess_idx, 1);
    assert_eq!(app.preview_for.as_deref(), Some("docs"));
    assert_eq!(app.notice, "session killed");
    show_killed(&mut app, Vec::new());
    assert_eq!(app.sess_idx, 0);
    assert_eq!(app.preview_for, None);
}

#[test]
fn refresh_asks_for_what_is_shown() {
    match refresh_request(&app(&["docs"], None)) {
        WorkerRequest::Refresh { preview_for, current_session } => {
            assert_eq!(preview_for.as_deref(), Some("docs"));
            assert_eq!(current_session.as_deref(), Some("api"));
        }
        other => panic!("{other:?}"),
    }
}

#[test]
fn last_waiting_request_is_answered() {
    let preview = |name: &str| WorkerRequest::Preview { session: name.into(), pane: None };
    let name_of = |request: WorkerRequest| match request {
        WorkerRequest::Preview { session, .. } => session,
        other => panic!("{other:?}"),
    };
    assert_eq!(name_of(newest(preview("a"), Vec::new())), "a");
    assert_eq!(name_of(newest(preview("a"), vec![preview("b"), preview("c")])), "c");
}
