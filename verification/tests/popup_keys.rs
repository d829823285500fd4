use tmux_jump::input::{handle_input, Input, Key, Modifiers, Step, Task};
use tmux_jump::paths::DirPath;
use tmux_jump::popup::{rect_contains, App, Choice, DirInput, Focus, Rect, SessionAction, UiAreas};
use tmux_jump::sessions::Session;
use tmux_jump::tree::{cached_child_dirs, DirEntry};
use tmux_jump::updates::{open, WorkerRequest};

fn session(name: &str) -> Session {
    Session {
        name: name.into(),
        windows: "1".into(),
        attached: false,
        created: String::new(),
        activity: String::new(),
        active_line: String::new(),
        active_pane: Some(format!("%{name}")),
        activity_epoch: 0,
        current: false,
        preview: Vec::new(),
    }
}

fn entry(name: &str) -> DirEntry {
    DirEntry { name: name.as_bytes().to_vec(), is_dir: true, is_symlink: false }
}

/// A popup with three sessions, the last of them the current one, and two directories at home.
fn app() -> App {
    let mut sessions = vec![session("api"), session("docs"), session("web")];
    sessions[2].current = true;
    let mut app = open(Vec::new(), sessions, None, Some("web".into()), Some(DirPath::from_text("/h")));
    cached_child_dirs(&mut app.dir_children, &DirPath::from_text("/h"), vec![entry("a"), entry("b")]);
    cached_child_dirs(&mut app.dir_children, &DirPath::from_text("/h/a"), vec![entry("x")]);
    app
}

const PLAIN: Modifiers = Modifiers { control: false, more: false };
const CONTROL: Modifiers = Modifiers { control: true, more: false };

fn press_key(app: &mut App, key: Key) -> Step {
    handle_input(app, Input::Key(key, PLAIN))
}

fn press_control(app: &mut App, c: char) -> Step {
    handle_input(app, Input::Key(Key::Char(c), CONTROL))
}

fn type_text(app: &mut App, text: &str) {
    for c in text.chars() {
        press_key(app, Key::Char(c));
    }
}

fn shown_dirs(app: &mut App) -> Vec<String> {
    app.list_dirs().rows.iter().map(|row| row.path.text()).collect()
}

#[test]
fn popup_opens_on_the_sessions() {
    let app = app();
    assert_eq!(app.focus, Focus::Sessions);
    assert_eq!(app.dir_input, DirInput::Filter);
    assert_eq!(app.selected_session().as_deref(), Some("api"));
    assert_eq!(app.preview_for.as_deref(), Some("api"));
    assert_eq!(app.cache_status, "cache: indexing");
    assert_eq!(app.action, SessionAction::Idle);
}

#[test]
fn arrows_lead_from_one_box_to_the_other() {
    let mut app = app();
    press_key(&mut app, Key::Up);
    assert_eq!(app.sess_idx, 0);
    press_key(&mut app, Key::Down);
    press_key(&mut app, Key::Down);
    assert_eq!((app.focus, app.sess_idx), (Focus::Sessions, 2));
    press_key(&mut app, Key::Down);
    assert_eq!((app.focus, app.dir_idx), (Focus::Dirs, 0));
    press_key(&mut app, Key::Down);
    press_key(&mut app, Key::Down);
    press_key(&mut app, Key::Down);
    assert_eq!((app.focus, app.dir_idx), (Focus::Dirs, 2));
    press_key(&mut app, Key::Up);
    press_key(&mut app, Key::Up);
    assert_eq!((app.focus, app.dir_idx), (Focus::Dirs, 0));
    press_key(&mut app, Key::Up);
    assert_eq!((app.focus, app.sess_idx), (Focus::Sessions, 2));
}

#[test]
fn empty_list_of_sessions_is_left_at_once() {
    let mut app = app();
    type_text(&mut app, "zzz");
    assert_eq!(app.selected_session(), None);
    assert!(matches!(press_key(&mut app, Key::Enter).task, Task::Stay));
    press_key(&mut app, Key::Down);
    assert_eq!(app.focus, Focus::Dirs);
    press_key(&mut app, Key::Up);
    assert_eq!((app.focus, app.sess_idx), (Focus::Sessions, 0));
}

#[test]
fn preview_follows_the_selection() {
    let mut app = app();
    app.preview_scroll = 10;
    let step = press_key(&mut app, Key::Down);
    match step.preview {
        Some(WorkerRequest::Preview { session, pane }) => {
            assert_eq!(session, "docs");
            assert_eq!(pane.as_deref(), Some("%docs"));
        }
        other => panic!("{other:?}"),
    }
    assert_eq!(app.preview_for.as_deref(), Some("docs"));
    assert_eq!(app.preview_scroll, 0);
    assert!(press_key(&mut app, Key::PageDown).preview.is_none());
    assert!(handle_input(&mut app, Input::Unknown).preview.is_none());
    assert!(press_key(&mut app, Key::Unknown).preview.is_none());
}

#[test]
fn preview_moves_by_pages() {
    let mut app = app();
    press_key(&mut app, Key::PageDown);
    press_key(&mut app, Key::PageDown);
    assert_eq!(app.preview_scroll, 10);
    press_key(&mut app, Key::PageUp);
    assert_eq!(app.preview_scroll, 5);
    press_key(&mut app, Key::PageUp);
    press_key(&mut app, Key::PageUp);
    assert_eq!(app.preview_scroll, 0);
    app.preview_scroll = u16::MAX - 2;
    press_key(&mut app, Key::PageDown);
    assert_eq!(app.preview_scroll, u16::MAX);
}

#[test]
fn tab_switches_the_field_of_the_directory_box() {
    let mut app = app();
    press_key(&mut app, Key::Tab);
    assert_eq!(app.dir_input, DirInput::Filter);
    app.focus = Focus::Dirs;
    press_key(&mut app, Key::Tab);
    assert_eq!(app.dir_input, DirInput::Name);
    press_key(&mut app, Key::Tab);
    assert_eq!(app.dir_input, DirInput::Filter);
}

#[test]
fn typing_goes_to_the_field_with_the_focus() {
    let mut app = app();
    app.sess_idx = 2;
    type_text(&mut app, "do");
    assert_eq!(app.query, "do");
    assert_eq!(app.selected_session().as_deref(), Some("docs"));
    press_key(&mut app, Key::Backspace);
    assert_eq!((app.query.as_str(), app.sess_idx), ("d", 0));

    app.focus = Focus::Dirs;
    app.dir_idx = 2;
    type_text(&mut app, "ab");
    assert_eq!((app.dir_query.as_str(), app.dir_idx), ("ab", 0));
    press_key(&mut app, Key::Backspace);
    assert_eq!(app.dir_query, "a");

    app.dir_idx = 1;
    press_key(&mut app, Key::Tab);
    type_text(&mut app, "néw");
    assert_eq!((app.new_session.as_str(), app.dir_idx), ("néw", 1));
    press_key(&mut app, Key::Backspace);
    press_key(&mut app, Key::Backspace);
    press_key(&mut app, Key::Backspace);
    press_key(&mut app, Key::Backspace);
    assert_eq!(app.new_session, "");
    // Control-R and Control-D are about sessions; here they are typed.
    press_control(&mut app, 'r');
    press_control(&mut app, 'd');
    assert_eq!(app.new_session, "rd");
    assert_eq!(app.action, SessionAction::Idle);
}

#[test]
fn right_opens_and_left_closes() {
    let mut app = app();
    app.focus = Focus::Dirs;
    assert_eq!(shown_dirs(&mut app), vec!["/h", "/h/a", "/h/b"]);
    app.dir_idx = 1;
    press_key(&mut app, Key::Right);
    assert_eq!(shown_dirs(&mut app), vec!["/h", "/h/a", "/h/a/x", "/h/b"]);
    press_key(&mut app, Key::Left);
    assert_eq!(shown_dirs(&mut app), vec!["/h", "/h/a", "/h/b"]);
    app.dir_idx = 0;
    press_key(&mut app, Key::Left);
    assert_eq!(shown_dirs(&mut app), vec!["/h"]);
    app.focus = Focus::Sessions;
    press_key(&mut app, Key::Right);
    assert_eq!(shown_dirs(&mut app), vec!["/h"]);
}

#[test]
fn enter_chooses_what_is_selected() {
    let mut app = app();
    press_key(&mut app, Key::Down);
    match press_key(&mut app, Key::Enter).task {
        Task::Quit(Some(Choice::Session(name))) => assert_eq!(name, "docs"),
        other => panic!("{other:?}"),
    }
    app.focus = Focus::Dirs;
    app.dir_idx = 2;
    app.new_session = "mine".into();
    match press_key(&mut app, Key::Enter).task {
        Task::Quit(Some(Choice::Dir(path, name))) => {
            assert_eq!(path.text(), "/h/b");
            assert_eq!(name, "mine");
        }
        other => panic!("{other:?}"),
    }
    app.dir_idx = 9;
    assert!(matches!(press_key(&mut app, Key::Enter).task, Task::Stay));
}

#[test]
fn escape_closes_the_popup() {
    let mut app = app();
    assert!(matches!(press_key(&mut app, Key::Esc).task, Task::Quit(None)));
}

#[test]
fn new_name_is_typed_and_sent() {
    let mut app = app();
    app.notice = "old".into();
    press_control(&mut app, 'r');
    assert_eq!(app.action, SessionAction::Rename { original: "api".into(), input: String::new() });
    assert_eq!(app.notice, "");
    assert!(matches!(press_key(&mut app, Key::Enter).task, Task::Stay));
    assert_eq!(app.notice, "enter a new session name");
    type_text(&mut app, "newx");
    press_control(&mut app, 'q');
    handle_input(&mut app, Input::Key(Key::Char('z'), Modifiers { control: false, more: true }));
    press_key(&mut app, Key::Backspace);
    press_key(&mut app, Key::Down);
    assert_eq!(app.action, SessionAction::Rename { original: "api".into(), input: "new".into() });
    assert_eq!(app.sess_idx, 0);
    match press_key(&mut app, Key::Enter).task {
        Task::Rename { original, input } => assert_eq!((original.as_str(), input.as_str()), ("api", "new")),
        other => panic!("{other:?}"),
    }
    assert_eq!(app.action, SessionAction::Idle);
}

#[test]
fn escape_cancels_a_new_name() {
    let mut app = app();
    press_control(&mut app, 'r');
    type_text(&mut app, "n");
    assert!(matches!(press_key(&mut app, Key::Esc).task, Task::Stay));
    assert_eq!(app.action, SessionAction::Idle);
    assert_eq!(app.notice, "rename cancelled");
}

#[test]
fn session_is_ended_only_when_confirmed() {
    let mut app = app();
    press_control(&mut app, 'd');
    assert_eq!(app.action, SessionAction::ConfirmKill { name: "api".into() });
    assert!(matches!(press_key(&mut app, Key::Enter).task, Task::Stay));
    assert_eq!(app.notice, "kill cancelled");
    assert_eq!(app.action, SessionAction::Idle);

    for answer in ['y', 'Y'] {
        press_control(&mut app, 'd');
        match press_key(&mut app, Key::Char(answer)).task {
            Task::Kill { name } => assert_eq!(name, "api"),
            other => panic!("{other:?}"),
        }
        assert_eq!(app.action, SessionAction::Idle);
    }
    press_control(&mut app, 'd');
    assert!(matches!(press_key(&mut app, Key::Esc).task, Task::Stay));
}

#[test]
fn current_session_is_not_ended() {
    let mut app = app();
    app.sess_idx = 2;
    press_control(&mut app, 'd');
    assert_eq!(app.action, SessionAction::Idle);
    assert_eq!(app.notice, "switch away before killing the current session");
}

#[test]
fn shortcuts_reach_the_name_and_the_index() {
    let mut app = app();
    press_control(&mut app, 'n');
    assert_eq!((app.focus, app.dir_input), (Focus::Dirs, DirInput::Name));
    app.cache_status = "cache: loaded".into();
    let step = press_control(&mut app, 'u');
    assert!(matches!(step.task, Task::Reindex));
    assert_eq!(app.cache_status, "cache: indexing");
    assert!(app.dir_children.children(&DirPath::from_text("/h")).is_none());
}

#[test]
fn rectangles_hold_their_cells() {
    let rect = Rect { x: 2, y: 3, width: 4, height: 1 };
    assert!(rect_contains(rect, 2, 3));
    assert!(rect_contains(rect, 5, 3));
    assert!(!rect_contains(rect, 6, 3));
    assert!(!rect_contains(rect, 1, 3));
    assert!(!rect_contains(rect, 2, 4));
    assert!(!rect_contains(rect, 2, 2));
    assert!(!rect_contains(Rect { x: 2, y: 3, width: 0, height: 1 }, 2, 3));
    assert!(rect_contains(Rect { x: 65_530, y: 0, width: 100, height: 1 }, 65_535, 0));
}

#[test]
fn mouse_selects_a_row() {
    let mut app = app();
    app.ui = UiAreas {
        sessions: Rect { x: 1, y: 3, width: 20, height: 5 },
        dirs: Rect { x: 1, y: 12, width: 20, height: 5 },
        session_start: 1,
        dir_start: 0,
    };
    handle_input(&mut app, Input::Press { column: 4, row: 4 });
    assert_eq!((app.focus, app.sess_idx), (Focus::Sessions, 2));
    handle_input(&mut app, Input::Press { column: 4, row: 14 });
    assert_eq!((app.focus, app.dir_idx), (Focus::Dirs, 2));
    handle_input(&mut app, Input::Press { column: 4, row: 16 });
    assert_eq!(app.dir_idx, 2);
    let step = handle_input(&mut app, Input::Press { column: 4, row: 3 });
    assert_eq!((app.focus, app.sess_idx), (Focus::Sessions, 1));
    assert!(step.preview.is_some());
    handle_input(&mut app, Input::Press { column: 30, row: 14 });
    assert_eq!((app.focus, app.sess_idx), (Focus::Sessions, 1));
    // A click does not answer what is being asked.
    press_control(&mut app, 'd');
    handle_input(&mut app, Input::Press { column: 4, row: 7 });
    assert_eq!(app.action, SessionAction::ConfirmKill { name: "docs".into() });
}
