//! Laws of the popup: what its keys promise, whatever state it is in.
use crate::ansi;
use crate::input;
use crate::input::Input;
use crate::input::Key;
use crate::input::Modifiers;
use crate::input::TaskView;
use crate::layout::Areas;
use crate::paths;
use crate::popup;
use crate::popup::ActionView;
use crate::popup::AppView;
use crate::popup::ChoiceView;
use crate::popup::DirInput;
use crate::popup::Focus;
use crate::screen;
use crate::sessions;
use crate::text;
use crate::tree;
use crate::tree_laws;
use crate::updates;
use vstd::prelude::*;

verus! {

/// A session is ended only once that was confirmed: tmux is asked to only by `y` or `Y` where the
/// popup asks about that very session.
pub proof fn lemma_kill_is_confirmed(a: AppView, input: Input, name: Seq<char>)
    requires
        input::after_input(a, input).task == (TaskView::Kill { name }),
    ensures
        a.action == (ActionView::ConfirmKill { name }),
        input matches Input::Key(key, _) && (key == Key::Char('y') || key == Key::Char('Y')),
{
}

/// The popup comes to ask whether to end a session only for the one that is selected, and never for
/// the one that it runs in.
pub proof fn lemma_kill_is_never_for_current(a: AppView, input: Input, name: Seq<char>)
    requires
        !(a.action is ConfirmKill),
        input::after_input(a, input).app.action == (ActionView::ConfirmKill { name }),
    ensures
        a.focus == Focus::Sessions,
        a.selected() matches Some(s) && s.name == name && !s.current,
        input matches Input::Key(key, held) && key == Key::Char('d') && held.control,
{
}

/// tmux is asked for another name only by Enter, for the session that the popup asks about, and
/// with a name that is not blank.
pub proof fn lemma_rename_has_a_name(
    a: AppView,
    input: Input,
    original: Seq<char>,
    name: Seq<char>,
)
    requires
        input::after_input(a, input).task == (TaskView::Rename { original, input: name }),
    ensures
        a.action == (ActionView::Rename { original, input: name }),
        text::trimmed(name).len() > 0,
        input matches Input::Key(key, _) && key == Key::Enter,
{
}

/// The popup comes to ask for another name only for the session that is selected, and with an empty
/// field.
pub proof fn lemma_rename_is_of_selected(
    a: AppView,
    input: Input,
    original: Seq<char>,
    name: Seq<char>,
)
    requires
        !(a.action is Rename),
        input::after_input(a, input).app.action == (ActionView::Rename { original, input: name }),
    ensures
        a.focus == Focus::Sessions,
        a.selected() matches Some(s) && s.name == original,
        name.len() == 0,
        input matches Input::Key(key, held) && key == Key::Char('r') && held.control,
{
}

/// Escape cancels what is being asked, with nothing but a notice to show for it, and closes the
/// popup where nothing is.
pub proof fn lemma_escape_cancels_or_closes(a: AppView, held: Modifiers)
    ensures
        ({
            let after = input::after_input(a, Input::Key(Key::Esc, held));
            &&& after.preview is None
            &&& after.app == (AppView {
                action: ActionView::Idle,
                notice: after.app.notice,
                ..a
            })
            &&& a.action is Idle ==> after.task == TaskView::Quit(None) && after.app == a
            &&& !(a.action is Idle) ==> after.task == TaskView::Stay
        }),
{
}

/// The popup closes only by Escape, with nothing chosen, or by Enter, with what is selected.
pub proof fn lemma_what_is_chosen_is_selected(a: AppView, input: Input)
    ensures
        input::after_input(a, input).task matches TaskView::Quit(choice) ==> match choice {
            None => input matches Input::Key(key, _) && key == Key::Esc,
            Some(ChoiceView::Session(name)) => a.focus == Focus::Sessions && (a.selected() matches
                Some(s) && s.name == name),
            Some(ChoiceView::Dir(path, name)) => a.focus == Focus::Dirs && name == a.new_session
                && (a.selected_dir() matches Some(d) && d.path == path),
        },
{
}

/// Tab goes to the other field of the directory box, and twice to the same one; it changes nothing
/// else.
pub proof fn lemma_tab_twice(a: AppView, held: Modifiers)
    requires
        a.action is Idle,
        a.focus == Focus::Dirs,
    ensures
        ({
            let once = input::after_input(a, Input::Key(Key::Tab, held)).app;
            let twice = input::after_input(once, Input::Key(Key::Tab, held)).app;
            &&& once.dir_input != a.dir_input
            &&& twice == a
        }),
{
}

/// What was typed into a field is gone after Backspace: all three fields are as before.
pub proof fn lemma_backspace_undoes_typing(a: AppView, c: char, held: Modifiers)
    requires
        a.action is Idle,
        !held.control,
    ensures
        ({
            let once = input::after_input(a, Input::Key(Key::Char(c), held)).app;
            let twice = input::after_input(once, Input::Key(Key::Backspace, held)).app;
            &&& twice.query == a.query
            &&& twice.dir_query == a.dir_query
            &&& twice.new_session == a.new_session
            &&& twice.focus == a.focus
        }),
{
    assert(a.query.push(c).drop_last() =~= a.query);
    assert(a.dir_query.push(c).drop_last() =~= a.dir_query);
    assert(a.new_session.push(c).drop_last() =~= a.new_session);
}

/// What was typed into a new name is gone after Backspace, and nothing else changes.
pub proof fn lemma_backspace_undoes_typing_a_name(a: AppView, c: char, held: Modifiers)
    requires
        a.action is Rename,
        !held.control,
        !held.more,
    ensures
        input::after_input(
            input::after_input(a, Input::Key(Key::Char(c), held)).app,
            Input::Key(Key::Backspace, held),
        ).app == a,
{
    let name = a.action->Rename_input;
    assert(name.push(c).drop_last() =~= name);
}

/// Down and then Up come back to the session they started from, also where the way leads through
/// the directory box: from the last session Down goes to the first directory.
pub proof fn lemma_down_then_up(a: AppView, held: Modifiers)
    requires
        a.action is Idle,
        a.focus == Focus::Sessions,
        a.sess_idx < a.listed().len() <= usize::MAX,
    ensures
        ({
            let down = input::after_input(a, Input::Key(Key::Down, held)).app;
            let up = input::after_input(down, Input::Key(Key::Up, held)).app;
            &&& a.sess_idx + 1 < a.listed().len() ==> down.focus == Focus::Sessions
                && down.sess_idx == a.sess_idx + 1
            &&& a.sess_idx + 1 == a.listed().len() ==> down.focus == Focus::Dirs && down.dir_idx
                == 0
            &&& up.focus == Focus::Sessions
            &&& up.sess_idx == a.sess_idx
        }),
{
    let moved = input::moved_down(a);
    let down = input::after_input(a, Input::Key(Key::Down, held)).app;
    assert(moved.listed() == a.listed());
    assert(down.listed() == a.listed());
}

/// Up from the first directory goes to the last session, and Down from there back to the first
/// directory.
pub proof fn lemma_up_then_down(a: AppView, held: Modifiers)
    requires
        a.action is Idle,
        a.focus == Focus::Dirs,
        a.dir_idx == 0,
        a.listed().len() <= usize::MAX,
    ensures
        ({
            let up = input::after_input(a, Input::Key(Key::Up, held)).app;
            let down = input::after_input(up, Input::Key(Key::Down, held)).app;
            &&& up.focus == Focus::Sessions
            &&& up.sess_idx == popup::last_place(a.listed().len())
            &&& down.focus == Focus::Dirs
            &&& down.dir_idx == 0
        }),
{
    let moved = input::moved_up(a);
    let up = input::after_input(a, Input::Key(Key::Up, held)).app;
    assert(moved.listed() == a.listed());
    assert(up.listed() == a.listed());
}

/// The preview goes down and up by whole pages: PageDown and then PageUp show the same lines again,
/// unless the end of the count was reached.
pub proof fn lemma_page_down_then_up(scroll: u16)
    requires
        scroll <= u16::MAX - input::PAGE,
    ensures
        input::scrolled_up(input::scrolled_down(scroll)) == scroll,
{
}

/// The preview is always that of the selected session: after any input that is not a reply to what
/// is being asked and does not close the popup, and another session's preview is asked for exactly
/// then, from its top.
pub proof fn lemma_preview_follows_selection(a: AppView, input: Input)
    requires
        a.action is Idle || !(input is Key),
        !(input::after_input(a, input).task is Quit),
    ensures
        ({
            let after = input::after_input(a, input);
            &&& after.app.focus == Focus::Sessions && after.app.selected() is Some
                ==> after.app.preview_for == Some(after.app.selected()->0.name)
            &&& after.preview is Some <==> after.app.preview_for != a.preview_for
            &&& after.preview matches Some(request) ==> {
                &&& after.app.preview_scroll == 0
                &&& after.app.selected() matches Some(s) && request == (
                updates::RequestView::Preview { session: s.name, pane: s.active_pane })
            }
        }),
{
    assert forall|b: AppView, task: TaskView| true implies (#[trigger] input::followed(
        b,
        task,
    )).app.selected() == b.selected() by {
        let c = input::followed(b, task).app;
        assert(c.listed() == b.listed());
    }
}

/// Opening or closing a directory does that to it, and leaves every other directory as it was.
pub proof fn lemma_unfolded(nodes: Seq<tree::NodeView>, path: Seq<u8>, open: bool, other: Seq<u8>)
    requires
        tree::node_place(nodes, path, 0) is Some,
    ensures
        ({
            let now = input::unfolded(nodes, path, open);
            &&& tree_laws::is_open(now, path) == open
            &&& paths::components(other) != paths::components(path) ==> tree_laws::is_open(
                now,
                other,
            ) == tree_laws::is_open(nodes, other)
        }),
{
    let now = input::unfolded(nodes, path, open);
    tree_laws::lemma_node_place(nodes, path, 0);
    tree_laws::lemma_node_place(nodes, other, 0);
    let k = tree::node_place(nodes, path, 0)->0;
    assert forall|j: int| 0 <= j < nodes.len() implies (#[trigger] now[j]).path
        == nodes[j].path by {}
    tree_laws::lemma_node_place_is(now, path, 0, k);
    let m = match tree::node_place(nodes, other, 0) {
        Some(m) => m,
        None => nodes.len() as int,
    };
    tree_laws::lemma_node_place_is(now, other, 0, m);
}

/// In the tree Right opens the selected directory and Left closes it; every other directory stays
/// as it was.
pub proof fn lemma_right_opens_left_closes(a: AppView, held: Modifiers, other: Seq<u8>)
    requires
        a.action is Idle,
        a.focus == Focus::Dirs,
        text::trimmed(a.dir_query).len() == 0,
        a.selected_dir() is Some,
    ensures
        ({
            let path = a.selected_dir()->0.path;
            let right = input::after_input(a, Input::Key(Key::Right, held)).app;
            let left = input::after_input(a, Input::Key(Key::Left, held)).app;
            &&& tree_laws::is_open(right.dirs, path)
            &&& !tree_laws::is_open(left.dirs, path)
            &&& paths::components(other) != paths::components(path) ==> tree_laws::is_open(
                right.dirs,
                other,
            ) == tree_laws::is_open(a.walked().dirs, other) && tree_laws::is_open(left.dirs, other)
                == tree_laws::is_open(a.walked().dirs, other)
        }),
{
    let root = popup::root_of(a.home);
    let start = tree::rooted(a.dirs, root);
    let path = a.selected_dir()->0.path;
    tree_laws::lemma_rows_have_nodes(start, a.dir_children, root, 0, start.len());
    assert(a.walk() == tree::walk(start, a.dir_children, root, 0, start.len()));
    assert(tree_laws::has_node(a.walk().nodes, a.walk().rows[a.dir_idx as int]));
    lemma_unfolded(a.walked().dirs, path, true, other);
    lemma_unfolded(a.walked().dirs, path, false, other);
}

/// Control-N goes to the name of a new session, wherever the keys went before, and Control-U
/// forgets the directories that were read and asks for a new index.
pub proof fn lemma_shortcuts(a: AppView, held: Modifiers)
    requires
        a.action is Idle,
        held.control,
    ensures
        ({
            let named = input::after_input(a, Input::Key(Key::Char('n'), held));
            let indexed = input::after_input(a, Input::Key(Key::Char('u'), held));
            &&& named.app == (AppView { focus: Focus::Dirs, dir_input: DirInput::Name, ..a })
            &&& named.task == TaskView::Stay
            &&& indexed.task == TaskView::Reindex
            &&& indexed.app.dir_children.len() == 0
            &&& indexed.app.cache_status == "cache: indexing"@
        }),
{
}

/// The first listed place of a name is one at which it stands.
pub proof fn lemma_listed_place(
    listed: Seq<int>,
    list: Seq<sessions::SessionView>,
    name: Seq<char>,
    from: int,
)
    requires
        0 <= from,
    ensures
        updates::listed_place(listed, list, name, from) matches Some(k) ==> from <= k
            < listed.len() && list[listed[k]].name == name,
        updates::listed_place(listed, list, name, from) is None ==> forall|k: int|
            from <= k < listed.len() ==> list[#[trigger] listed[k]].name != name,
    decreases listed.len() - from,
{
    if from < listed.len() && list[listed[from]].name != name {
        lemma_listed_place(listed, list, name, from + 1);
    }
}

/// The first place of a name is one at which it stands.
pub proof fn lemma_place_of_session(list: Seq<sessions::SessionView>, name: Seq<char>, from: int)
    requires
        0 <= from,
    ensures
        sessions::place_of_session(list, name, from) matches Some(i) ==> from <= i < list.len()
            && list[i].name == name,
        sessions::place_of_session(list, name, from) is None ==> forall|i: int|
            from <= i < list.len() ==> (#[trigger] list[i]).name != name,
    decreases list.len() - from,
{
    if from < list.len() && list[from].name != name {
        lemma_place_of_session(list, name, from + 1);
    }
}

/// Reading the sessions again keeps the selection: the session of the same name stays selected as
/// long as it is listed.
pub proof fn lemma_refresh_keeps_selection(
    a: AppView,
    list: Seq<sessions::SessionView>,
    place: int,
)
    requires
        a.selected() is Some,
        ({
            let listed = sessions::listed_sessions(list, a.query);
            &&& listed.len() <= usize::MAX
            &&& 0 <= place < listed.len()
            &&& list[listed[place]].name == a.selected()->0.name
        }),
    ensures
        updates::refreshed(a, list).selected() matches Some(s) && s.name == a.selected()->0.name,
{
    let listed = sessions::listed_sessions(list, a.query);
    lemma_listed_place(listed, list, a.selected()->0.name, 0);
}

/// A preview that comes late changes nothing: only the session whose preview is asked for gets one.
pub proof fn lemma_late_preview_is_dropped(
    a: AppView,
    session: Seq<char>,
    lines: Seq<Seq<char>>,
    i: int,
)
    requires
        0 <= i < a.sessions.len(),
    ensures
        ({
            let after = updates::previewed(a, session, lines);
            &&& after == (AppView { sessions: after.sessions, ..a })
            &&& a.preview_for != Some(session) ==> after == a
            &&& a.sessions[i].name != session ==> after.sessions[i] == a.sessions[i]
        }),
{
    lemma_place_of_session(a.sessions, session, 0);
}

/// The popup opens with the session that was selected last, if there still is one of that name.
pub proof fn lemma_popup_opens_where_it_was_left(
    loaded: Seq<Seq<u8>>,
    list: Seq<sessions::SessionView>,
    last: Seq<char>,
    current: Option<Seq<char>>,
    home: Option<Seq<u8>>,
    i: int,
)
    requires
        list.len() <= usize::MAX,
        0 <= i < list.len(),
        list[i].name == last,
    ensures
        ({
            let a = updates::opened(loaded, list, Some(last), current, home);
            &&& a.selected() matches Some(s) && s.name == last
            &&& a.preview_for == Some(last)
            &&& a.focus == Focus::Sessions
        }),
{
    lemma_place_of_session(list, last, 0);
    let a = updates::opened(loaded, list, Some(last), current, home);
    assert(a.listed().len() == list.len());
    assert(a.listed()[a.sess_idx as int] == a.sess_idx);
}

/// A session that was renamed is selected under its new name, where nothing was typed into the
/// filter.
pub proof fn lemma_renamed_is_selected(
    a: AppView,
    list: Seq<sessions::SessionView>,
    name: Seq<char>,
    i: int,
)
    requires
        a.query.len() == 0,
        list.len() <= usize::MAX,
        0 <= i < list.len(),
        list[i].name == name,
    ensures
        updates::renamed(a, list, name).selected() matches Some(s) && s.name == name,
{
    lemma_place_of_session(list, name, 0);
    let now = updates::renamed(a, list, name);
    assert(now.listed().len() == list.len());
    assert(now.listed()[now.sess_idx as int] == now.sess_idx);
}

/// Once the popup is laid out, something is selected in each list that is not empty, and its row is
/// among those that are shown wherever a row fits.
pub proof fn lemma_selection_is_shown(a: AppView, areas: Areas)
    requires
        a.listed().len() <= usize::MAX,
        a.walk().rows.len() <= usize::MAX,
    ensures
        ({
            let now = screen::laid_out(a, areas);
            let shown_sessions = screen::rows_shown(
                a.listed().len() as int,
                now.ui.session_start as int,
                areas.session_list.height as int,
            );
            let shown_dirs = screen::rows_shown(
                a.walk().rows.len() as int,
                now.ui.dir_start as int,
                areas.dir_list.height as int,
            );
            &&& a.listed().len() > 0 ==> now.sess_idx < a.listed().len()
            &&& a.walk().rows.len() > 0 ==> now.dir_idx < a.walk().rows.len()
            &&& a.listed().len() > 0 && areas.session_list.height > 0 ==> now.ui.session_start
                <= now.sess_idx < now.ui.session_start + shown_sessions
            &&& a.walk().rows.len() > 0 && areas.dir_list.height > 0 ==> now.ui.dir_start
                <= now.dir_idx < now.ui.dir_start + shown_dirs
        }),
{
}

/// Once no directory is left to be read, the popup is complete: every directory that is open has
/// been read, and so has every one that is shown.
pub proof fn lemma_prepared_popup_is_complete(a: AppView, areas: Areas, k: int)
    requires
        screen::unread_dirs(a, areas).len() == 0,
        0 <= k < screen::shown(a, areas).dir_rows.len(),
    ensures
        a.walk().unread.len() == 0,
        tree::known_children(
            a.dir_children,
            a.walk().rows[screen::laid_out(a, areas).ui.dir_start + k].path,
        ) is Some,
{
    let counted = screen::counted_dirs(a, areas);
    let pick = |path: Seq<u8>| tree::known_children(a.dir_children, path) is None;
    let path = a.walk().rows[screen::laid_out(a, areas).ui.dir_start + k].path;
    assert(counted[k] == path);
    if pick(path) {
        counted.lemma_filter_contains(pick, k);
        assert(counted.filter(pick).contains(path));
    }
}

/// Whatever the user does, what is remembered of the directories still leads down.
pub proof fn lemma_popup_leads_down(a: AppView, input: Input)
    requires
        tree_laws::leads_down(a.dir_children),
    ensures
        tree_laws::leads_down(input::after_input(a, input).app.dir_children),
{
}

/// Listing the directories twice shows the same rows both times.
pub proof fn lemma_dirs_are_listed_again(a: AppView)
    requires
        tree_laws::leads_down(a.dir_children),
    ensures
        a.walked().walk().rows == a.walk().rows,
{
    tree_laws::lemma_tree_is_listed_again(a.dirs, a.dir_children, popup::root_of(a.home));
}

/// A mouse button that goes down on a session selects the session that is shown there.
pub proof fn lemma_press_selects_shown_session(
    a: AppView,
    areas: Areas,
    column: u16,
    row: u16,
    k: int,
)
    requires
        a.listed().len() <= usize::MAX,
        popup::is_inside(areas.session_list, column, row),
        k == row - areas.session_list.y,
        k < screen::shown(a, areas).session_rows.len(),
    ensures
        ({
            let now = screen::laid_out(a, areas);
            let after = input::pressed(now, column, row);
            &&& after.focus == Focus::Sessions
            &&& after.selected() == Some(a.sessions[a.listed()[now.ui.session_start + k]])
            &&& screen::shown(a, areas).session_rows[k] == screen::session_row(
                after.selected()->0,
                a.focus == Focus::Sessions && after.sess_idx == now.sess_idx,
            )
        }),
{
    let now = screen::laid_out(a, areas);
    assert(now.listed() == a.listed());
    let after = input::pressed(now, column, row);
    assert(after.listed() == a.listed());
}

/// A mouse button that goes down on a directory selects the directory that is shown there.
pub proof fn lemma_press_selects_shown_dir(
    a: AppView,
    areas: Areas,
    column: u16,
    row: u16,
    k: int,
)
    requires
        tree_laws::leads_down(a.dir_children),
        a.walk().rows.len() <= usize::MAX,
        popup::is_inside(areas.dir_list, column, row),
        !popup::is_inside(areas.session_list, column, row),
        k == row - areas.dir_list.y,
        k < screen::shown(a, areas).dir_rows.len(),
    ensures
        ({
            let now = screen::laid_out(a, areas);
            let after = input::pressed(now, column, row);
            &&& after.focus == Focus::Dirs
            &&& after.selected_dir() == Some(a.walk().rows[now.ui.dir_start + k])
        }),
{
    let now = screen::laid_out(a, areas);
    assert(now.walk() == a.walked().walk());
    lemma_dirs_are_listed_again(a);
    lemma_dirs_are_listed_again(now);
    let after = input::pressed(now, column, row);
    assert(after.walk() == now.walked().walk());
}

/// The lines of a session's preview are shown without any escape character.
pub proof fn lemma_preview_shows_no_escapes(lines: Seq<Seq<char>>, i: int)
    requires
        0 <= i < lines.len(),
    ensures
        screen::captured_lines(lines)[i].len() == 1,
        !screen::captured_lines(lines)[i][0].text.contains(ansi::ESC),
{
    ansi::lemma_stripped_has_no_escape(lines[i], 0);
}

} // verus!
