//! What keys and clicks do to the popup.
use crate::popup;
use crate::popup::ActionView;
use crate::popup::App;
use crate::popup::AppView;
use crate::popup::Choice;
use crate::popup::ChoiceView;
use crate::popup::DirInput;
use crate::popup::Focus;
use crate::popup::SessionAction;
use crate::text;
use crate::tree;
use crate::tree::ChildCache;
use crate::tree::DirListing;
use crate::updates;
use crate::updates::RequestView;
use crate::updates::WorkerRequest;
use vstd::prelude::*;

verus! {

/// The lines that the preview moves by at once.
pub const PAGE: u16 = 5;

/// A key that the popup knows.
#[derive(Clone, Copy, Debug, PartialEq, Eq, Structural)]
pub enum Key {
    Esc,
    Enter,
    Backspace,
    Tab,
    Up,
    Down,
    Left,
    Right,
    PageUp,
    PageDown,
    Char(char),
    Unknown,
}

/// The keys that are held down beside a key.
#[derive(Clone, Copy, Debug, PartialEq, Eq, Structural)]
pub struct Modifiers {
    pub control: bool,
    /// Whether there is any besides Shift and Control.
    pub more: bool,
}

/// Something that the user does.
#[derive(Clone, Copy, Debug, PartialEq, Eq, Structural)]
pub enum Input {
    Key(Key, Modifiers),
    /// A mouse button goes down.
    Press { column: u16, row: u16 },
    Unknown,
}

/// What is left to do once the popup has taken an input.
#[derive(Debug)]
pub enum Task {
    Stay,
    Quit(Option<Choice>),
    /// Ask tmux to give a session another name.
    Rename { original: String, input: String },
    /// Ask tmux to end a session.
    Kill { name: String },
    /// Build the index of directories anew.
    Reindex,
}

/// The value of a [`Task`].
pub enum TaskView {
    Stay,
    Quit(Option<ChoiceView>),
    Rename { original: Seq<char>, input: Seq<char> },
    Kill { name: Seq<char> },
    Reindex,
}

impl View for Task {
    type V = TaskView;

    open spec fn view(&self) -> TaskView {
        match *self {
            Task::Stay => TaskView::Stay,
            Task::Quit(Some(choice)) => TaskView::Quit(Some(choice@)),
            Task::Quit(None) => TaskView::Quit(None),
            Task::Rename { original, input } => TaskView::Rename {
                original: original@,
                input: input@,
            },
            Task::Kill { name } => TaskView::Kill { name: name@ },
            Task::Reindex => TaskView::Reindex,
        }
    }
}

/// What comes out of an input.
#[derive(Debug)]
pub struct Step {
    pub task: Task,
    pub preview: Option<WorkerRequest>,
}

/// What comes out of an input: the state of the popup, what is left to do, and what is to be
/// captured.
pub struct Outcome {
    pub app: AppView,
    pub task: TaskView,
    pub preview: Option<RequestView>,
}

/// A text without its last character, if it has one.
pub open spec fn shortened(s: Seq<char>) -> Seq<char> {
    if s.len() == 0 {
        s
    } else {
        s.drop_last()
    }
}

/// Takes the last character of a text away, if it has one.
fn shorten(s: &mut String)
    ensures
        final(s)@ == shortened(old(s)@),
{
    let _ = s.pop();
}

/// What a key does while a new name for a session is being typed.
pub open spec fn after_rename_key(
    a: AppView,
    original: Seq<char>,
    input: Seq<char>,
    key: Key,
    held: Modifiers,
) -> Outcome {
    let closed = AppView { action: ActionView::Idle, ..a };
    match key {
        Key::Esc => Outcome {
            app: AppView { notice: "rename cancelled"@, ..closed },
            task: TaskView::Stay,
            preview: None,
        },
        Key::Enter => if text::trimmed(input).len() == 0 {
            Outcome {
                app: AppView { notice: "enter a new session name"@, ..a },
                task: TaskView::Stay,
                preview: None,
            }
        } else {
            Outcome { app: closed, task: TaskView::Rename { original, input }, preview: None }
        },
        Key::Backspace => Outcome {
            app: AppView {
                action: ActionView::Rename { original, input: shortened(input) },
                ..a
            },
            task: TaskView::Stay,
            preview: None,
        },
        Key::Char(c) => if held.control || held.more {
            Outcome { app: a, task: TaskView::Stay, preview: None }
        } else {
            Outcome {
                app: AppView { action: ActionView::Rename { original, input: input.push(c) }, ..a },
                task: TaskView::Stay,
                preview: None,
            }
        },
        _ => Outcome { app: a, task: TaskView::Stay, preview: None },
    }
}

/// What a key does while the popup asks whether to end a session.
pub open spec fn after_kill_key(a: AppView, name: Seq<char>, key: Key) -> Outcome {
    let closed = AppView { action: ActionView::Idle, ..a };
    if key == Key::Char('y') || key == Key::Char('Y') {
        Outcome { app: closed, task: TaskView::Kill { name }, preview: None }
    } else {
        Outcome {
            app: AppView { notice: "kill cancelled"@, ..closed },
            task: TaskView::Stay,
            preview: None,
        }
    }
}

/// The state once the selection has been looked at: where the sessions are in focus and another
/// one is selected, its preview is asked for and starts at the top.
pub open spec fn followed(a: AppView, task: TaskView) -> Outcome {
    match a.selected() {
        Some(s) => if a.focus == Focus::Sessions && a.preview_for != Some(s.name) {
            Outcome {
                app: AppView { preview_for: Some(s.name), preview_scroll: 0, ..a },
                task,
                preview: Some(RequestView::Preview { session: s.name, pane: s.active_pane }),
            }
        } else {
            Outcome { app: a, task, preview: None }
        },
        None => Outcome { app: a, task, preview: None },
    }
}

/// The choice that Enter makes, if something is selected.
pub open spec fn chosen(a: AppView) -> Option<ChoiceView> {
    match a.focus {
        Focus::Dirs => match a.selected_dir() {
            Some(d) => Some(ChoiceView::Dir(d.path, a.new_session)),
            None => None,
        },
        Focus::Sessions => match a.selected() {
            Some(s) => Some(ChoiceView::Session(s.name)),
            None => None,
        },
    }
}

/// The state once Enter has looked for what is selected.
pub open spec fn looked(a: AppView) -> AppView {
    match a.focus {
        Focus::Dirs => a.walked(),
        Focus::Sessions => a,
    }
}

/// The state once the name of the selected session is to be changed.
pub open spec fn renaming(a: AppView) -> AppView {
    match a.selected() {
        Some(s) => AppView {
            action: ActionView::Rename { original: s.name, input: Seq::empty() },
            notice: Seq::empty(),
            ..a
        },
        None => a,
    }
}

/// The state once the selected session is to be ended.
pub open spec fn killing(a: AppView) -> AppView {
    match a.selected() {
        Some(s) => if s.current {
            AppView { notice: "switch away before killing the current session"@, ..a }
        } else {
            AppView {
                action: ActionView::ConfirmKill { name: s.name },
                notice: Seq::empty(),
                ..a
            }
        },
        None => a,
    }
}

/// The state once another field of the directory box takes the keys.
pub open spec fn tabbed(a: AppView) -> AppView {
    if a.focus == Focus::Dirs {
        AppView {
            dir_input: match a.dir_input {
                DirInput::Filter => DirInput::Name,
                DirInput::Name => DirInput::Filter,
            },
            ..a
        }
    } else {
        a
    }
}

/// The state one row further up; from the first directory the way leads to the last session.
pub open spec fn moved_up(a: AppView) -> AppView {
    match a.focus {
        Focus::Dirs => if a.dir_idx == 0 {
            AppView {
                focus: Focus::Sessions,
                sess_idx: popup::last_place(a.listed().len()) as usize,
                ..a
            }
        } else {
            AppView { dir_idx: (a.dir_idx - 1) as usize, ..a }
        },
        Focus::Sessions => AppView {
            sess_idx: if a.sess_idx == 0 {
                0
            } else {
                (a.sess_idx - 1) as usize
            },
            ..a
        },
    }
}

/// The state one row further down; from the last session the way leads to the first directory.
pub open spec fn moved_down(a: AppView) -> AppView {
    match a.focus {
        Focus::Dirs => AppView {
            dir_idx: popup::within(a.dir_idx + 1, a.walk().rows.len()) as usize,
            ..a.walked()
        },
        Focus::Sessions => if a.sess_idx + 1 >= a.listed().len() {
            AppView { focus: Focus::Dirs, dir_idx: 0, ..a }
        } else {
            AppView { sess_idx: (a.sess_idx + 1) as usize, ..a }
        },
    }
}

/// The nodes once the one of `path` is opened or closed.
pub open spec fn unfolded(nodes: Seq<tree::NodeView>, path: Seq<u8>, open: bool) -> Seq<
    tree::NodeView,
> {
    match tree::node_place(nodes, path, 0) {
        Some(k) => nodes.update(k, tree::NodeView { expanded: open, ..nodes[k] }),
        None => nodes,
    }
}

/// The state once the selected directory is opened or closed.
pub open spec fn folded(a: AppView, open: bool) -> AppView {
    if a.focus == Focus::Dirs {
        match a.selected_dir() {
            Some(d) => AppView { dirs: unfolded(a.walked().dirs, d.path, open), ..a },
            None => a.walked(),
        }
    } else {
        a
    }
}

/// The state once a character has been added to the field that takes the keys.
pub open spec fn typed(a: AppView, c: char) -> AppView {
    match (a.focus, a.dir_input) {
        (Focus::Dirs, DirInput::Filter) => AppView {
            dir_query: a.dir_query.push(c),
            dir_idx: 0,
            ..a
        },
        (Focus::Dirs, DirInput::Name) => AppView { new_session: a.new_session.push(c), ..a },
        (Focus::Sessions, _) => AppView { query: a.query.push(c), sess_idx: 0, ..a },
    }
}

/// The state once the last character of the field that takes the keys is gone.
pub open spec fn erased(a: AppView) -> AppView {
    match (a.focus, a.dir_input) {
        (Focus::Dirs, DirInput::Filter) => AppView {
            dir_query: shortened(a.dir_query),
            dir_idx: 0,
            ..a
        },
        (Focus::Dirs, DirInput::Name) => AppView { new_session: shortened(a.new_session), ..a },
        (Focus::Sessions, _) => AppView { query: shortened(a.query), sess_idx: 0, ..a },
    }
}

/// The preview one page further up.
pub open spec fn scrolled_up(scroll: u16) -> u16 {
    if scroll < PAGE {
        0
    } else {
        (scroll - PAGE) as u16
    }
}

/// The preview one page further down.
pub open spec fn scrolled_down(scroll: u16) -> u16 {
    if scroll > u16::MAX - PAGE {
        u16::MAX
    } else {
        (scroll + PAGE) as u16
    }
}

/// What a key does while nothing is being asked.
pub open spec fn after_plain_key(a: AppView, key: Key, held: Modifiers) -> Outcome {
    match key {
        Key::Esc => Outcome { app: a, task: TaskView::Quit(None), preview: None },
        Key::Enter => match chosen(a) {
            Some(choice) => Outcome {
                app: looked(a),
                task: TaskView::Quit(Some(choice)),
                preview: None,
            },
            None => followed(looked(a), TaskView::Stay),
        },
        Key::PageUp => followed(
            AppView { preview_scroll: scrolled_up(a.preview_scroll), ..a },
            TaskView::Stay,
        ),
        Key::PageDown => followed(
            AppView { preview_scroll: scrolled_down(a.preview_scroll), ..a },
            TaskView::Stay,
        ),
        Key::Tab => followed(tabbed(a), TaskView::Stay),
        Key::Up => followed(moved_up(a), TaskView::Stay),
        Key::Down => followed(moved_down(a), TaskView::Stay),
        Key::Right => followed(folded(a, true), TaskView::Stay),
        Key::Left => followed(folded(a, false), TaskView::Stay),
        Key::Backspace => followed(erased(a), TaskView::Stay),
        Key::Char(c) => if c == 'r' && held.control && a.focus == Focus::Sessions {
            followed(renaming(a), TaskView::Stay)
        } else if c == 'd' && held.control && a.focus == Focus::Sessions {
            followed(killing(a), TaskView::Stay)
        } else if c == 'n' && held.control {
            followed(
                AppView { focus: Focus::Dirs, dir_input: DirInput::Name, ..a },
                TaskView::Stay,
            )
        } else if c == 'u' && held.control {
            followed(
                AppView {
                    cache_status: "cache: indexing"@,
                    dir_children: Seq::empty(),
                    ..a
                },
                TaskView::Reindex,
            )
        } else {
            followed(typed(a, c), TaskView::Stay)
        },
        Key::Unknown => followed(a, TaskView::Stay),
    }
}

/// The state once a mouse button went down in one of the lists: the row there is selected.
pub open spec fn pressed(a: AppView, column: u16, row: u16) -> AppView {
    if popup::is_inside(a.ui.sessions, column, row) {
        AppView {
            focus: Focus::Sessions,
            sess_idx: popup::within(
                a.ui.session_start + row - a.ui.sessions.y,
                a.listed().len(),
            ) as usize,
            ..a
        }
    } else if popup::is_inside(a.ui.dirs, column, row) {
        AppView {
            focus: Focus::Dirs,
            dir_idx: popup::within(
                a.ui.dir_start + row - a.ui.dirs.y,
                a.walk().rows.len(),
            ) as usize,
            ..a.walked()
        }
    } else {
        a
    }
}

/// What an input does.
pub open spec fn after_input(a: AppView, input: Input) -> Outcome {
    match input {
        Input::Key(key, held) => match a.action {
            ActionView::Rename { original, input } => after_rename_key(
                a,
                original,
                input,
                key,
                held,
            ),
            ActionView::ConfirmKill { name } => after_kill_key(a, name, key),
            ActionView::Idle => after_plain_key(a, key, held),
        },
        Input::Press { column, row } => followed(pressed(a, column, row), TaskView::Stay),
        Input::Unknown => followed(a, TaskView::Stay),
    }
}

/// The request for the preview of the selected session, where it is another one than before.
fn follow(app: &mut App) -> (r: Option<WorkerRequest>)
    ensures
        final(app)@ == followed(old(app)@, TaskView::Stay).app,
        updates::request_view(r) == followed(old(app)@, TaskView::Stay).preview,
{
    if app.focus == Focus::Sessions {
        if let Some(i) = app.selected_place() {
            let name: String = app.sessions[i].name.clone();
            let known = match &app.preview_for {
                Some(shown) => text::same(shown.as_str(), name.as_str()),
                None => false,
            };
            if !known {
                let request = WorkerRequest::Preview {
                    session: app.sessions[i].name.clone(),
                    pane: app.sessions[i].active_pane.clone(),
                };
                app.preview_for = Some(name);
                app.preview_scroll = 0;
                return Some(request);
            }
        }
    }
    None
}

/// What a key does while a new name for a session is being typed.
fn rename_key(app: &mut App, original: String, input: String, key: Key, held: Modifiers) -> (r: Task)
    ensures
        final(app)@ == after_rename_key(
            AppView {
                action: ActionView::Rename { original: original@, input: input@ },
                ..old(app)@
            },
            original@,
            input@,
            key,
            held,
        ).app,
        r@ == after_rename_key(
            AppView {
                action: ActionView::Rename { original: original@, input: input@ },
                ..old(app)@
            },
            original@,
            input@,
            key,
            held,
        ).task,
{
    let mut input: String = input;
    match key {
        Key::Esc => {
            app.action = SessionAction::Idle;
            app.notice = "rename cancelled".to_string();
        },
        Key::Enter => {
            if text::trim(input.as_str()).as_str().is_empty() {
                app.notice = "enter a new session name".to_string();
                app.action = SessionAction::Rename { original, input };
            } else {
                app.action = SessionAction::Idle;
                return Task::Rename { original, input };
            }
        },
        Key::Backspace => {
            shorten(&mut input);
            app.action = SessionAction::Rename { original, input };
        },
        Key::Char(c) => {
            if !held.control && !held.more {
                input.push(c);
            }
            app.action = SessionAction::Rename { original, input };
        },
        _ => {
            app.action = SessionAction::Rename { original, input };
        },
    }
    Task::Stay
}

/// What a key does while the popup asks whether to end a session.
fn kill_key(app: &mut App, name: String, key: Key) -> (r: Task)
    ensures
        final(app)@ == after_kill_key(old(app)@, name@, key).app,
        r@ == after_kill_key(old(app)@, name@, key).task,
{
    app.action = SessionAction::Idle;
    match key {
        Key::Char(c) => {
            if c == 'y' || c == 'Y' {
                return Task::Kill { name };
            }
        },
        _ => {},
    }
    app.notice = "kill cancelled".to_string();
    Task::Stay
}

/// The choice that Enter makes, if something is selected.
fn choose_selected(app: &mut App) -> (r: Option<Choice>)
    ensures
        final(app)@ == looked(old(app)@),
        r is Some <==> chosen(old(app)@) is Some,
        r matches Some(choice) ==> chosen(old(app)@) == Some(choice@),
{
    match app.focus {
        Focus::Dirs => {
            let listing: DirListing = app.list_dirs();
            assert(tree::node_views(listing.rows@).len() == listing.rows.len());
            if app.dir_idx < listing.rows.len() {
                let i: usize = app.dir_idx;
                assert(tree::node_views(listing.rows@)[i as int] == listing.rows[i as int]@);
                Some(Choice::Dir(listing.rows[i].path.clone(), app.new_session.clone()))
            } else {
                None
            }
        },
        Focus::Sessions => {
            match app.selected_session() {
                Some(name) => Some(Choice::Session(name)),
                None => None,
            }
        },
    }
}

/// Starts to ask for another name of the selected session.
fn begin_rename(app: &mut App)
    ensures
        final(app)@ == renaming(old(app)@),
{
    if let Some(original) = app.selected_session() {
        let input: String = String::new();
        assert(input@ =~= Seq::<char>::empty());
        app.action = SessionAction::Rename { original, input };
        app.notice = String::new();
        assert(app.notice@ =~= Seq::<char>::empty());
    }
}

/// Starts to ask whether to end the selected session.
fn begin_kill(app: &mut App)
    ensures
        final(app)@ == killing(old(app)@),
{
    if let Some(i) = app.selected_place() {
        if app.sessions[i].current {
            app.notice = "switch away before killing the current session".to_string();
        } else {
            app.action = SessionAction::ConfirmKill { name: app.sessions[i].name.clone() };
            app.notice = String::new();
            assert(app.notice@ =~= Seq::<char>::empty());
        }
    }
}

/// Moves one row up.
fn move_up(app: &mut App)
    ensures
        final(app)@ == moved_up(old(app)@),
{
    match app.focus {
        Focus::Dirs => {
            if app.dir_idx == 0 {
                let count: usize = app.listed_count();
                app.focus = Focus::Sessions;
                app.sess_idx = if count == 0 {
                    0
                } else {
                    count - 1
                };
            } else {
                app.dir_idx = app.dir_idx - 1;
            }
        },
        Focus::Sessions => {
            if app.sess_idx > 0 {
                app.sess_idx = app.sess_idx - 1;
            }
        },
    }
}

/// Moves one row down.
fn move_down(app: &mut App)
    ensures
        final(app)@ == moved_down(old(app)@),
{
    match app.focus {
        Focus::Dirs => {
            let listing: DirListing = app.list_dirs();
            assert(tree::node_views(listing.rows@).len() == listing.rows.len());
            app.dir_idx = popup::clip_sum(app.dir_idx, 1, listing.rows.len());
        },
        Focus::Sessions => {
            let count: usize = app.listed_count();
            if count == 0 || app.sess_idx >= count - 1 {
                app.focus = Focus::Dirs;
                app.dir_idx = 0;
            } else {
                app.sess_idx = app.sess_idx + 1;
            }
        },
    }
}

/// Opens or closes the selected directory.
fn fold(app: &mut App, open: bool)
    ensures
        final(app)@ == folded(old(app)@, open),
{
    if app.focus == Focus::Dirs {
        let listing: DirListing = app.list_dirs();
        assert(tree::node_views(listing.rows@).len() == listing.rows.len());
        if app.dir_idx < listing.rows.len() {
            let i: usize = app.dir_idx;
            assert(tree::node_views(listing.rows@)[i as int] == listing.rows[i as int]@);
            if let Some(k) = tree::find_node(&app.dirs, &listing.rows[i].path) {
                let ghost before = tree::node_views(app.dirs@);
                assert(before[k as int] == app.dirs[k as int]@);
                app.dirs[k].expanded = open;
                assert(tree::node_views(app.dirs@) =~= before.update(
                    k as int,
                    tree::NodeView { expanded: open, ..before[k as int] },
                ));
            }
        }
    }
}

/// Adds a character to the field that takes the keys.
fn type_char(app: &mut App, c: char)
    ensures
        final(app)@ == typed(old(app)@, c),
{
    match app.focus {
        Focus::Dirs => match app.dir_input {
            DirInput::Filter => {
                app.dir_query.push(c);
                app.dir_idx = 0;
            },
            DirInput::Name => {
                app.new_session.push(c);
            },
        },
        Focus::Sessions => {
            app.query.push(c);
            app.sess_idx = 0;
        },
    }
}

/// Takes the last character of the field that takes the keys away.
fn erase(app: &mut App)
    ensures
        final(app)@ == erased(old(app)@),
{
    match app.focus {
        Focus::Dirs => match app.dir_input {
            DirInput::Filter => {
                shorten(&mut app.dir_query);
                app.dir_idx = 0;
            },
            DirInput::Name => {
                shorten(&mut app.new_session);
            },
        },
        Focus::Sessions => {
            shorten(&mut app.query);
            app.sess_idx = 0;
        },
    }
}

/// What a key does while nothing is being asked.
fn plain_key(app: &mut App, key: Key, held: Modifiers) -> (r: Step)
    ensures
        final(app)@ == after_plain_key(old(app)@, key, held).app,
        r.task@ == after_plain_key(old(app)@, key, held).task,
        updates::request_view(r.preview) == after_plain_key(old(app)@, key, held).preview,
{
    let mut task: Task = Task::Stay;
    match key {
        Key::Esc => {
            return Step { task: Task::Quit(None), preview: None };
        },
        Key::Enter => {
            if let Some(choice) = choose_selected(app) {
                return Step { task: Task::Quit(Some(choice)), preview: None };
            }
        },
        Key::PageUp => {
            app.preview_scroll = if app.preview_scroll < PAGE {
                0
            } else {
                app.preview_scroll - PAGE
            };
        },
        Key::PageDown => {
            app.preview_scroll = if app.preview_scroll > u16::MAX - PAGE {
                u16::MAX
            } else {
                app.preview_scroll + PAGE
            };
        },
        Key::Tab => {
            if app.focus == Focus::Dirs {
                app.dir_input = match app.dir_input {
                    DirInput::Filter => DirInput::Name,
                    DirInput::Name => DirInput::Filter,
                };
            }
        },
        Key::Up => move_up(app),
        Key::Down => move_down(app),
        Key::Right => fold(app, true),
        Key::Left => fold(app, false),
        Key::Backspace => erase(app),
        Key::Char(c) => {
            if c == 'r' && held.control && app.focus == Focus::Sessions {
                begin_rename(app);
            } else if c == 'd' && held.control && app.focus == Focus::Sessions {
                begin_kill(app);
            } else if c == 'n' && held.control {
                app.focus = Focus::Dirs;
                app.dir_input = DirInput::Name;
            } else if c == 'u' && held.control {
                app.cache_status = "cache: indexing".to_string();
                app.dir_children = ChildCache::new();
                task = Task::Reindex;
            } else {
                type_char(app, c);
            }
        },
        Key::Unknown => {},
    }
    let preview: Option<WorkerRequest> = follow(app);
    Step { task, preview }
}

/// Selects the row of a list in which a mouse button went down.
fn press(app: &mut App, column: u16, row: u16)
    ensures
        final(app)@ == pressed(old(app)@, column, row),
{
    if popup::rect_contains(app.ui.sessions, column, row) {
        let count: usize = app.listed_count();
        app.focus = Focus::Sessions;
        app.sess_idx = popup::clip_sum(
            app.ui.session_start,
            (row - app.ui.sessions.y) as usize,
            count,
        );
    } else if popup::rect_contains(app.ui.dirs, column, row) {
        let listing: DirListing = app.list_dirs();
        assert(tree::node_views(listing.rows@).len() == listing.rows.len());
        app.focus = Focus::Dirs;
        app.dir_idx = popup::clip_sum(
            app.ui.dir_start,
            (row - app.ui.dirs.y) as usize,
            listing.rows.len(),
        );
    }
}

/// Takes an input. The directories that are open are to have been read before, as far as
/// [`App::list_dirs`] tells that they have not: one that has not shows nothing inside.
pub fn handle_input(app: &mut App, input: Input) -> (r: Step)
    ensures
        final(app)@ == after_input(old(app)@, input).app,
        r.task@ == after_input(old(app)@, input).task,
        updates::request_view(r.preview) == after_input(old(app)@, input).preview,
{
    match input {
        Input::Key(key, held) => {
            let mut action: SessionAction = SessionAction::Idle;
            std::mem::swap(&mut action, &mut app.action);
            match action {
                SessionAction::Rename { original, input } => {
                    let task: Task = rename_key(app, original, input, key, held);
                    Step { task, preview: None }
                },
                SessionAction::ConfirmKill { name } => {
                    let task: Task = kill_key(app, name, key);
                    Step { task, preview: None }
                },
                SessionAction::Idle => plain_key(app, key, held),
            }
        },
        Input::Press { column, row } => {
            press(app, column, row);
            let preview: Option<WorkerRequest> = follow(app);
            Step { task: Task::Stay, preview }
        },
        Input::Unknown => {
            let preview: Option<WorkerRequest> = follow(app);
            Step { task: Task::Stay, preview }
        },
    }
}

} // verus!
