//! The state of the popup and what keys, clicks and answers from tmux do to it.
use crate::order;
use crate::paths;
use crate::paths::DirPath;
use crate::search;
use crate::search::IndexedDir;
use crate::sessions;
use crate::sessions::Session;
use crate::text;
use crate::tree;
use crate::tree::ChildCache;
use crate::tree::DirListing;
use crate::tree::DirNode;
use vstd::prelude::*;

verus! {

/// The box that keys go to.
#[derive(Clone, Copy, Debug, PartialEq, Eq, Structural)]
pub enum Focus {
    Dirs,
    Sessions,
}

/// The field of the directory box that keys go to.
#[derive(Clone, Copy, Debug, PartialEq, Eq, Structural)]
pub enum DirInput {
    Filter,
    Name,
}

/// What the popup was opened for.
#[derive(Debug)]
pub enum Choice {
    Dir(DirPath, String),
    Session(String),
}

/// The value of a [`Choice`].
pub enum ChoiceView {
    Dir(Seq<u8>, Seq<char>),
    Session(Seq<char>),
}

impl View for Choice {
    type V = ChoiceView;

    open spec fn view(&self) -> ChoiceView {
        match *self {
            Choice::Dir(path, name) => ChoiceView::Dir(path@, name@),
            Choice::Session(name) => ChoiceView::Session(name@),
        }
    }
}

/// What the popup asks the user about a session.
#[derive(Clone, Debug, PartialEq, Eq)]
pub enum SessionAction {
    Idle,
    Rename { original: String, input: String },
    ConfirmKill { name: String },
}

/// The value of a [`SessionAction`].
pub enum ActionView {
    Idle,
    Rename { original: Seq<char>, input: Seq<char> },
    ConfirmKill { name: Seq<char> },
}

impl View for SessionAction {
    type V = ActionView;

    open spec fn view(&self) -> ActionView {
        match *self {
            SessionAction::Idle => ActionView::Idle,
            SessionAction::Rename { original, input } => ActionView::Rename {
                original: original@,
                input: input@,
            },
            SessionAction::ConfirmKill { name } => ActionView::ConfirmKill { name: name@ },
        }
    }
}

/// A part of the screen, in character cells.
#[derive(Clone, Copy, Debug, PartialEq, Eq, Structural)]
pub struct Rect {
    pub x: u16,
    pub y: u16,
    pub width: u16,
    pub height: u16,
}

/// Whether a cell lies in a part of the screen.
pub open spec fn is_inside(rect: Rect, column: u16, row: u16) -> bool {
    rect.x <= column < rect.x + rect.width && rect.y <= row < rect.y + rect.height
}

/// Whether a cell lies in a part of the screen.
pub fn rect_contains(rect: Rect, column: u16, row: u16) -> (r: bool)
    ensures
        r == is_inside(rect, column, row),
{
    column >= rect.x && column - rect.x < rect.width && row >= rect.y && row - rect.y < rect.height
}

/// Where the lists are on the screen, and which entry each of them starts with.
#[derive(Clone, Copy, Debug, PartialEq, Eq, Structural)]
pub struct UiAreas {
    pub sessions: Rect,
    pub dirs: Rect,
    pub session_start: usize,
    pub dir_start: usize,
}

/// The state of the popup.
pub struct App {
    pub focus: Focus,
    pub dir_idx: usize,
    pub sess_idx: usize,
    pub query: String,
    pub dir_query: String,
    pub dir_input: DirInput,
    pub new_session: String,
    pub dirs: Vec<DirNode>,
    pub dir_children: ChildCache,
    pub dir_cache: Vec<IndexedDir>,
    pub cache_status: String,
    pub sessions: Vec<Session>,
    pub preview_for: Option<String>,
    pub preview_scroll: u16,
    pub action: SessionAction,
    pub notice: String,
    pub ui: UiAreas,
    /// The session that the popup runs in.
    pub current_session: Option<String>,
    pub home: Option<DirPath>,
}

/// The value of an [`App`].
#[verifier::ext_equal]
pub struct AppView {
    pub focus: Focus,
    pub dir_idx: usize,
    pub sess_idx: usize,
    pub query: Seq<char>,
    pub dir_query: Seq<char>,
    pub dir_input: DirInput,
    pub new_session: Seq<char>,
    pub dirs: Seq<tree::NodeView>,
    pub dir_children: Seq<tree::ChildListView>,
    pub dir_cache: Seq<search::IndexedView>,
    pub cache_status: Seq<char>,
    pub sessions: Seq<sessions::SessionView>,
    pub preview_for: Option<Seq<char>>,
    pub preview_scroll: u16,
    pub action: ActionView,
    pub notice: Seq<char>,
    pub ui: UiAreas,
    pub current_session: Option<Seq<char>>,
    pub home: Option<Seq<u8>>,
}

impl View for App {
    type V = AppView;

    open spec fn view(&self) -> AppView {
        AppView {
            focus: self.focus,
            dir_idx: self.dir_idx,
            sess_idx: self.sess_idx,
            query: self.query@,
            dir_query: self.dir_query@,
            dir_input: self.dir_input,
            new_session: self.new_session@,
            dirs: tree::node_views(self.dirs@),
            dir_children: self.dir_children@,
            dir_cache: search::index_views(self.dir_cache@),
            cache_status: self.cache_status@,
            sessions: sessions::session_views(self.sessions@),
            preview_for: text::text_opt(self.preview_for),
            preview_scroll: self.preview_scroll,
            action: self.action@,
            notice: self.notice@,
            ui: self.ui,
            current_session: text::text_opt(self.current_session),
            home: home_view(self.home),
        }
    }
}

/// The value of a home directory that may be unknown.
pub open spec fn home_view(home: Option<DirPath>) -> Option<Seq<u8>> {
    match home {
        Some(home) => Some(home@),
        None => None,
    }
}

/// The root of the directory tree: the home directory, or the file system's root where there is
/// none.
pub open spec fn root_of(home: Option<Seq<u8>>) -> Seq<u8> {
    match home {
        Some(home) => home,
        None => seq![paths::SLASH],
    }
}

/// The root of the directory tree.
pub fn tree_root(home: &Option<DirPath>) -> (r: DirPath)
    ensures
        r@ == root_of(home_view(*home)),
{
    match home {
        Some(home) => home.clone(),
        None => {
            let mut bytes: Vec<u8> = Vec::new();
            bytes.push(paths::SLASH);
            assert(bytes@ =~= seq![paths::SLASH]);
            DirPath { bytes }
        },
    }
}

impl AppView {
    /// The places of the sessions that are listed.
    pub open spec fn listed(self) -> Seq<int> {
        sessions::listed_sessions(self.sessions, self.query)
    }

    /// The session that is selected, if one is.
    pub open spec fn selected(self) -> Option<sessions::SessionView> {
        if self.sess_idx < self.listed().len() {
            Some(self.sessions[self.listed()[self.sess_idx as int]])
        } else {
            None
        }
    }

    /// What the directory box shows.
    pub open spec fn walk(self) -> tree::Walk {
        search::listed_dirs(
            self.dirs,
            self.dir_children,
            self.dir_cache,
            self.dir_query,
            root_of(self.home),
        )
    }

    /// The state once the directories have been listed.
    pub open spec fn walked(self) -> AppView {
        AppView { dirs: self.walk().nodes, ..self }
    }

    /// The directory that is selected, if one is.
    pub open spec fn selected_dir(self) -> Option<tree::NodeView> {
        if self.dir_idx < self.walk().rows.len() {
            Some(self.walk().rows[self.dir_idx as int])
        } else {
            None
        }
    }
}

/// The last place of a list, or the first one of an empty list.
pub open spec fn last_place(len: nat) -> int {
    if len == 0 {
        0
    } else {
        len - 1
    }
}

/// A place, or the last one of the list where it lies behind that.
pub open spec fn within(place: int, len: nat) -> int {
    if place <= last_place(len) {
        place
    } else {
        last_place(len)
    }
}

/// A place in a list, or its last one.
pub(crate) fn clip(place: usize, len: usize) -> (r: usize)
    ensures
        r == within(place as int, len as nat),
{
    if len == 0 {
        0
    } else if place >= len {
        len - 1
    } else {
        place
    }
}

/// The place `start + offset` in a list, or its last one.
pub(crate) fn clip_sum(start: usize, offset: usize, len: usize) -> (r: usize)
    ensures
        r == within(start + offset, len as nat),
{
    let last: usize = if len == 0 {
        0
    } else {
        len - 1
    };
    if start >= last || offset >= last - start {
        last
    } else {
        start + offset
    }
}

impl App {
    /// The session that is selected: its place in the whole list.
    pub fn selected_place(&self) -> (r: Option<usize>)
        ensures
            r is Some <==> self@.selected() is Some,
            r matches Some(i) ==> i < self.sessions.len() && self@.selected() == Some(
                self.sessions[i as int]@,
            ) && self@.listed()[self@.sess_idx as int] == i,
    {
        let listed: Vec<usize> = sessions::filtered_session_indices(
            &self.sessions,
            self.query.as_str(),
        );
        assert(order::positions(listed@) == self@.listed());
        if self.sess_idx < listed.len() {
            let i: usize = listed[self.sess_idx];
            assert(self@.listed()[self@.sess_idx as int] == i as int);
            assert(self@.sessions[i as int] == self.sessions[i as int]@);
            Some(i)
        } else {
            None
        }
    }

    /// The name of the session that is selected, if one is.
    pub fn selected_session(&self) -> (r: Option<String>)
        ensures
            text::text_opt(r) == (match self@.selected() {
                Some(s) => Some(s.name),
                None => None,
            }),
    {
        match self.selected_place() {
            Some(i) => Some(self.sessions[i].name.clone()),
            None => None,
        }
    }

    /// The number of sessions that are listed.
    pub(crate) fn listed_count(&self) -> (r: usize)
        ensures
            r == self@.listed().len(),
    {
        let listed: Vec<usize> = sessions::filtered_session_indices(
            &self.sessions,
            self.query.as_str(),
        );
        assert(order::positions(listed@).len() == listed.len());
        listed.len()
    }

    /// Lists the directories that the directory box shows.
    pub fn list_dirs(&mut self) -> (r: DirListing)
        ensures
            final(self)@ == old(self)@.walked(),
            tree::node_views(r.rows@) == old(self)@.walk().rows,
            paths::path_views(r.unread@) == old(self)@.walk().unread,
    {
        let root: DirPath = tree_root(&self.home);
        let r: DirListing = search::filtered_visible_dirs(
            &mut self.dirs,
            &self.dir_children,
            &self.dir_cache,
            self.dir_query.as_str(),
            &root,
        );
        assert(self@ =~= old(self)@.walked());
        r
    }
}

} // verus!
