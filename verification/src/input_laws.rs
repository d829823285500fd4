//! Laws of the keys and the mouse: where each leads, and what it leaves alone.
use crate::input;
use crate::input::Input;
use crate::input::Key;
use crate::input::Modifiers;
use crate::input::TaskView;
use crate::paths;
use crate::popup;
use crate::popup::ActionView;
use crate::popup::AppView;
use crate::popup::ChoiceView;
use crate::popup::DirInput;
use crate::popup::Focus;
use crate::popup_laws;
use crate::search;
use crate::sessions;
use crate::text;
use crate::text_laws;
use crate::tree;
use crate::tree_laws;
use vstd::prelude::*;

verus! {

/// Whether the preview is that of the selected session, as it is after every input.
pub open spec fn preview_is_right(a: AppView) -> bool {
    a.focus == Focus::Sessions && a.selected() is Some ==> a.preview_for == Some(
        a.selected()->0.name,
    )
}

/// Whether two states differ in nothing but what is selected and previewed.
pub open spec fn only_selection_differs(a: AppView, b: AppView) -> bool {
    b == (AppView {
        focus: b.focus,
        dir_idx: b.dir_idx,
        sess_idx: b.sess_idx,
        dirs: b.dirs,
        preview_for: b.preview_for,
        preview_scroll: b.preview_scroll,
        ..a
    })
}

/// The arrows up and down change nothing but what is selected, and ask for nothing but a preview.
pub proof fn lemma_arrows_only_select(a: AppView, key: Key, held: Modifiers)
    requires
        a.action is Idle,
        key == Key::Up || key == Key::Down,
    ensures
        only_selection_differs(a, input::after_input(a, Input::Key(key, held)).app),
        input::after_input(a, Input::Key(key, held)).task == TaskView::Stay,
{
}

/// Down in the directory box goes to the next row, and stays on the last one. The list itself and
/// everything else stay as they are.
pub proof fn lemma_down_goes_to_the_next_dir(a: AppView, held: Modifiers)
    requires
        a.action is Idle,
        a.focus == Focus::Dirs,
        a.dir_idx < a.walk().rows.len() <= usize::MAX,
        tree_laws::leads_down(a.dir_children),
    ensures
        ({
            let n = a.walk().rows.len();
            let after = input::after_input(a, Input::Key(Key::Down, held)).app;
            &&& after.focus == Focus::Dirs
            &&& a.dir_idx + 1 < n ==> after.dir_idx == a.dir_idx + 1
            &&& a.dir_idx + 1 == n ==> after.dir_idx == a.dir_idx
            &&& after.sess_idx == a.sess_idx
            &&& after.walk().rows == a.walk().rows
            &&& a.dir_idx + 1 < n ==> after.selected_dir() == Some(
                a.walk().rows[a.dir_idx + 1],
            )
        }),
{
    let after = input::after_input(a, Input::Key(Key::Down, held)).app;
    assert(after.walk() == a.walked().walk());
    popup_laws::lemma_dirs_are_listed_again(a);
}

/// Down and then Up come back to the directory they started from, unless it is the last one.
pub proof fn lemma_down_then_up_in_dirs(a: AppView, held: Modifiers)
    requires
        a.action is Idle,
        a.focus == Focus::Dirs,
        a.dir_idx + 1 < a.walk().rows.len() <= usize::MAX,
    ensures
        ({
            let down = input::after_input(a, Input::Key(Key::Down, held)).app;
            let up = input::after_input(down, Input::Key(Key::Up, held)).app;
            &&& up.focus == Focus::Dirs
            &&& up.dir_idx == a.dir_idx
        }),
{
}

/// Up in the directory box goes to the row before, and from the first one to the sessions.
pub proof fn lemma_up_goes_to_the_dir_before(a: AppView, held: Modifiers)
    requires
        a.action is Idle,
        a.focus == Focus::Dirs,
    ensures
        ({
            let after = input::after_input(a, Input::Key(Key::Up, held)).app;
            &&& a.dir_idx > 0 ==> after == (AppView { dir_idx: after.dir_idx, ..a })
                && after.dir_idx + 1 == a.dir_idx
            &&& a.dir_idx == 0 ==> after.focus == Focus::Sessions && after.dir_idx == 0
        }),
{
}

/// Up among the sessions goes to the row before, and stays on the first one.
pub proof fn lemma_up_goes_to_the_session_before(a: AppView, held: Modifiers)
    requires
        a.action is Idle,
        a.focus == Focus::Sessions,
    ensures
        ({
            let after = input::after_input(a, Input::Key(Key::Up, held)).app;
            &&& after.focus == Focus::Sessions
            &&& after.dir_idx == a.dir_idx
            &&& a.sess_idx > 0 ==> after.sess_idx + 1 == a.sess_idx
            &&& a.sess_idx == 0 ==> after.sess_idx == 0
        }),
{
}

/// Down among the sessions goes to the next row while there is one, and else to the first directory;
/// the session that was selected stays so.
pub proof fn lemma_down_goes_to_the_next_session(a: AppView, held: Modifiers)
    requires
        a.action is Idle,
        a.focus == Focus::Sessions,
        a.listed().len() <= usize::MAX,
    ensures
        ({
            let after = input::after_input(a, Input::Key(Key::Down, held)).app;
            &&& a.sess_idx + 1 < a.listed().len() ==> after.focus == Focus::Sessions
                && after.sess_idx == a.sess_idx + 1 && after.dir_idx == a.dir_idx
            &&& a.sess_idx + 1 >= a.listed().len() ==> after == (AppView {
                focus: Focus::Dirs,
                dir_idx: 0,
                ..a
            })
        }),
{
}

/// A character goes to the end of one field: in the session box the filter, in the directory box the
/// search or the name. A changed filter or search starts at its first row. Nothing else changes but
/// the preview.
pub proof fn lemma_character_is_appended(a: AppView, c: char, held: Modifiers)
    requires
        a.action is Idle,
        !held.control || (c != 'n' && c != 'u' && (a.focus == Focus::Dirs || (c != 'r' && c
            != 'd'))),
    ensures
        ({
            let step = input::after_input(a, Input::Key(Key::Char(c), held));
            let after = step.app;
            &&& step.task == TaskView::Stay
            &&& a.focus == Focus::Sessions ==> after == (AppView {
                query: after.query,
                sess_idx: 0,
                preview_for: after.preview_for,
                preview_scroll: after.preview_scroll,
                ..a
            }) && after.query.len() == a.query.len() + 1 && after.query.last() == c
                && after.query.drop_last() == a.query
            &&& a.focus == Focus::Dirs && a.dir_input == DirInput::Filter ==> after == (AppView {
                dir_query: after.dir_query,
                dir_idx: 0,
                ..a
            }) && after.dir_query.len() == a.dir_query.len() + 1 && after.dir_query.last() == c
                && after.dir_query.drop_last() == a.dir_query
            &&& a.focus == Focus::Dirs && a.dir_input == DirInput::Name ==> after == (AppView {
                new_session: after.new_session,
                ..a
            }) && after.new_session.len() == a.new_session.len() + 1 && after.new_session.last()
                == c && after.new_session.drop_last() == a.new_session
        }),
{
    assert(a.query.push(c).drop_last() =~= a.query);
    assert(a.dir_query.push(c).drop_last() =~= a.dir_query);
    assert(a.new_session.push(c).drop_last() =~= a.new_session);
}

/// Whether a text is another without its last character, or both are empty.
pub open spec fn is_one_shorter(before: Seq<char>, after: Seq<char>) -> bool {
    (before.len() == 0 && after.len() == 0) || (before.len() > 0 && after == before.take(
        before.len() - 1,
    ))
}

/// Backspace takes the last character of one field away, if it has one: in the session box the
/// filter, in the directory box the search or the name. A changed filter or search starts at its
/// first row. Nothing else changes but the preview.
pub proof fn lemma_backspace_takes_one_away(a: AppView, held: Modifiers)
    requires
        a.action is Idle,
    ensures
        ({
            let step = input::after_input(a, Input::Key(Key::Backspace, held));
            let after = step.app;
            &&& step.task == TaskView::Stay
            &&& a.focus == Focus::Sessions ==> after == (AppView {
                query: after.query,
                sess_idx: 0,
                preview_for: after.preview_for,
                preview_scroll: after.preview_scroll,
                ..a
            }) && is_one_shorter(a.query, after.query)
            &&& a.focus == Focus::Dirs && a.dir_input == DirInput::Filter ==> after == (AppView {
                dir_query: after.dir_query,
                dir_idx: 0,
                ..a
            }) && is_one_shorter(a.dir_query, after.dir_query)
            &&& a.focus == Focus::Dirs && a.dir_input == DirInput::Name ==> after == (AppView {
                new_session: after.new_session,
                ..a
            }) && is_one_shorter(a.new_session, after.new_session)
        }),
{
    if a.query.len() > 0 {
        assert(a.query.drop_last() =~= a.query.take(a.query.len() - 1));
    }
    if a.dir_query.len() > 0 {
        assert(a.dir_query.drop_last() =~= a.dir_query.take(a.dir_query.len() - 1));
    }
    if a.new_session.len() > 0 {
        assert(a.new_session.drop_last() =~= a.new_session.take(a.new_session.len() - 1));
    }
}

/// Enter closes the popup with what is selected in the box that has the focus, and does nothing where
/// nothing is. It changes nothing that is shown.
pub proof fn lemma_enter_takes_what_is_selected(a: AppView, held: Modifiers)
    requires
        a.action is Idle,
    ensures
        ({
            let step = input::after_input(a, Input::Key(Key::Enter, held));
            &&& a.focus == Focus::Sessions && a.selected() is Some ==> step.task == TaskView::Quit(
                Some(ChoiceView::Session(a.selected()->0.name)),
            ) && step.app == a
            &&& a.focus == Focus::Dirs && a.selected_dir() is Some ==> step.task == TaskView::Quit(
                Some(ChoiceView::Dir(a.selected_dir()->0.path, a.new_session)),
            ) && step.app == (AppView { dirs: step.app.dirs, ..a })
            &&& a.focus == Focus::Sessions && a.selected() is None ==> step.task == TaskView::Stay
                && step.app == a
            &&& a.focus == Focus::Dirs && a.selected_dir() is None ==> step.task == TaskView::Stay
                && step.app == (AppView { dirs: step.app.dirs, ..a })
        }),
{
}

/// PageDown and PageUp move the preview by five lines, as far as the count goes, and change nothing
/// else.
pub proof fn lemma_pages_are_five_lines(a: AppView, held: Modifiers)
    requires
        a.action is Idle,
        preview_is_right(a),
    ensures
        ({
            let down = input::after_input(a, Input::Key(Key::PageDown, held));
            let up = input::after_input(a, Input::Key(Key::PageUp, held));
            &&& down.app == (AppView { preview_scroll: down.app.preview_scroll, ..a })
            &&& up.app == (AppView { preview_scroll: up.app.preview_scroll, ..a })
            &&& a.preview_scroll <= 65_530 ==> down.app.preview_scroll == a.preview_scroll + 5
            &&& a.preview_scroll > 65_530 ==> down.app.preview_scroll == 65_535
            &&& a.preview_scroll >= 5 ==> up.app.preview_scroll == a.preview_scroll - 5
            &&& a.preview_scroll < 5 ==> up.app.preview_scroll == 0
            &&& down.preview is None && up.preview is None
            &&& down.task == TaskView::Stay && up.task == TaskView::Stay
        }),
{
    let down = AppView { preview_scroll: input::scrolled_down(a.preview_scroll), ..a };
    let up = AppView { preview_scroll: input::scrolled_up(a.preview_scroll), ..a };
    assert(down.listed() == a.listed() && up.listed() == a.listed());
}

/// What the popup has no use for changes nothing: unknown keys and inputs, Tab and the arrows to the
/// sides among the sessions, and a mouse button outside the lists.
pub proof fn lemma_idle_inputs_change_nothing(
    a: AppView,
    held: Modifiers,
    column: u16,
    row: u16,
)
    requires
        preview_is_right(a),
    ensures
        input::after_input(a, Input::Unknown).app == a,
        a.action is Idle ==> input::after_input(a, Input::Key(Key::Unknown, held)).app == a,
        a.action is Idle && a.focus == Focus::Sessions ==> input::after_input(
            a,
            Input::Key(Key::Tab, held),
        ).app == a,
        a.action is Idle && a.focus == Focus::Sessions ==> input::after_input(
            a,
            Input::Key(Key::Left, held),
        ).app == a,
        a.action is Idle && a.focus == Focus::Sessions ==> input::after_input(
            a,
            Input::Key(Key::Right, held),
        ).app == a,
        !popup::is_inside(a.ui.sessions, column, row) && !popup::is_inside(a.ui.dirs, column, row)
            ==> input::after_input(a, Input::Press { column, row }).app == a,
{
}

/// Tab in the directory box changes nothing but the field that takes the keys.
pub proof fn lemma_tab_changes_the_field(a: AppView, held: Modifiers)
    requires
        a.action is Idle,
        a.focus == Focus::Dirs,
    ensures
        ({
            let after = input::after_input(a, Input::Key(Key::Tab, held)).app;
            &&& after == (AppView { dir_input: after.dir_input, ..a })
            &&& after.dir_input != a.dir_input
        }),
{
}

/// Left and Right in the directory box change nothing but which directories are open.
pub proof fn lemma_sideways_only_unfolds(a: AppView, key: Key, held: Modifiers)
    requires
        a.action is Idle,
        a.focus == Focus::Dirs,
        key == Key::Left || key == Key::Right,
    ensures
        ({
            let step = input::after_input(a, Input::Key(key, held));
            &&& step.app == (AppView { dirs: step.app.dirs, ..a })
            &&& step.task == TaskView::Stay
            &&& step.app.dirs.len() == a.walked().dirs.len()
            &&& forall|i: int|
                0 <= i < step.app.dirs.len() ==> (#[trigger] step.app.dirs[i]).path
                    == a.walked().dirs[i].path && step.app.dirs[i].depth
                    == a.walked().dirs[i].depth
        }),
{
    if let Some(d) = a.selected_dir() {
        tree_laws::lemma_node_place(a.walked().dirs, d.path, 0);
    }
}

/// Left and Right open and close the selected directory in a search too, where the tree knows it, and
/// leave every other directory as it was.
pub proof fn lemma_sideways_in_a_search(a: AppView, held: Modifiers, other: Seq<u8>)
    requires
        a.action is Idle,
        a.focus == Focus::Dirs,
        a.selected_dir() is Some,
        tree::node_place(a.walked().dirs, a.selected_dir()->0.path, 0) is Some,
    ensures
        ({
            let path = a.selected_dir()->0.path;
            let right = input::after_input(a, Input::Key(Key::Right, held)).app;
            let left = input::after_input(a, Input::Key(Key::Left, held)).app;
            &&& tree_laws::is_open(right.dirs, path)
            &&& !tree_laws::is_open(left.dirs, path)
            &&& paths::components(other) != paths::components(path) ==> tree_laws::is_open(
                right.dirs,
                other,
            ) == tree_laws::is_open(a.walked().dirs, other) && tree_laws::is_open(left.dirs, other)
                == tree_laws::is_open(a.walked().dirs, other)
        }),
{
    let path = a.selected_dir()->0.path;
    popup_laws::lemma_unfolded(a.walked().dirs, path, true, other);
    popup_laws::lemma_unfolded(a.walked().dirs, path, false, other);
}

/// Control-R asks for another name of the selected session, and Control-D whether to end it, unless
/// the popup runs in it. Nothing else changes but the notice, and nothing is done yet.
pub proof fn lemma_control_asks_first(a: AppView, held: Modifiers)
    requires
        a.action is Idle,
        a.focus == Focus::Sessions,
        preview_is_right(a),
        held.control,
    ensures
        ({
            let rename = input::after_input(a, Input::Key(Key::Char('r'), held));
            let kill = input::after_input(a, Input::Key(Key::Char('d'), held));
            &&& rename.task == TaskView::Stay && kill.task == TaskView::Stay
            &&& a.selected() is None ==> rename.app == a && kill.app == a
            &&& a.selected() is Some ==> rename.app == (AppView {
                action: ActionView::Rename {
                    original: a.selected()->0.name,
                    input: Seq::empty(),
                },
                notice: Seq::empty(),
                ..a
            })
            &&& a.selected() is Some && !a.selected()->0.current ==> kill.app == (AppView {
                action: ActionView::ConfirmKill { name: a.selected()->0.name },
                notice: Seq::empty(),
                ..a
            })
            &&& a.selected() is Some && a.selected()->0.current ==> kill.app == (AppView {
                notice: kill.app.notice,
                ..a
            }) && kill.app.notice.len() > 0
        }),
{
    reveal_strlit("switch away before killing the current session");
    let renamed = input::renaming(a);
    let killed = input::killing(a);
    assert(renamed.listed() == a.listed() && killed.listed() == a.listed());
}

/// Only `y` ends the session that is asked about; every other key lets it live. Either way nothing is
/// asked any more, and nothing but the notice changes besides.
pub proof fn lemma_only_yes_kills(a: AppView, name: Seq<char>, key: Key, held: Modifiers)
    requires
        a.action == (ActionView::ConfirmKill { name }),
    ensures
        ({
            let step = input::after_input(a, Input::Key(key, held));
            &&& step.app == (AppView {
                action: ActionView::Idle,
                notice: step.app.notice,
                ..a
            })
            &&& step.preview is None
            &&& key == Key::Char('y') || key == Key::Char('Y') ==> step.task == (TaskView::Kill {
                name,
            }) && step.app.notice == a.notice
            &&& !(key == Key::Char('y') || key == Key::Char('Y')) ==> step.task == TaskView::Stay
        }),
{
}

/// While a new name is typed, characters go to its end and Backspace takes the last one away; Enter
/// sends it unless it is blank; and every other key leaves it as it is.
pub proof fn lemma_new_name_is_typed(
    a: AppView,
    original: Seq<char>,
    name: Seq<char>,
    key: Key,
    held: Modifiers,
)
    requires
        a.action == (ActionView::Rename { original, input: name }),
    ensures
        ({
            let step = input::after_input(a, Input::Key(key, held));
            let plain = !held.control && !held.more;
            &&& step.preview is None
            &&& step.app == (AppView { action: step.app.action, notice: step.app.notice, ..a })
            &&& key matches Key::Char(c) ==> step.task == TaskView::Stay && step.app.notice
                == a.notice && step.app.action == (ActionView::Rename {
                original,
                input: if plain {
                    name + seq![c]
                } else {
                    name
                },
            })
            &&& key == Key::Backspace ==> step.task == TaskView::Stay && (step.app.action matches
                ActionView::Rename { original: o, input: i } && o == original && is_one_shorter(
                name,
                i,
            ))
            &&& key == Key::Enter && text::trimmed(name).len() > 0 ==> step.task == (
            TaskView::Rename { original, input: name }) && step.app == (AppView {
                action: ActionView::Idle,
                ..a
            })
            &&& key == Key::Enter && text::trimmed(name).len() == 0 ==> step.task == TaskView::Stay
                && step.app.action == a.action
            &&& key == Key::Esc ==> step.task == TaskView::Stay && step.app.action is Idle
            &&& !(key is Char) && key != Key::Backspace && key != Key::Enter && key != Key::Esc
                ==> step.task == TaskView::Stay && step.app == a
        }),
{
    if let Key::Char(c) = key {
        assert(name.push(c) =~= name + seq![c]);
    }
    if name.len() > 0 {
        assert(name.drop_last() =~= name.take(name.len() - 1));
    }
}

/// A mouse button in a list brings it into focus and selects the row it goes down on, or the last one
/// where there is none; the other list keeps its selection.
pub proof fn lemma_press_selects_a_row(a: AppView, column: u16, row: u16)
    requires
        a.listed().len() <= usize::MAX,
        a.walk().rows.len() <= usize::MAX,
    ensures
        ({
            let after = input::after_input(a, Input::Press { column, row }).app;
            let i = a.ui.session_start + row - a.ui.sessions.y;
            let j = a.ui.dir_start + row - a.ui.dirs.y;
            &&& only_selection_differs(a, after)
            &&& popup::is_inside(a.ui.sessions, column, row) ==> {
                &&& after.focus == Focus::Sessions
                &&& after.dir_idx == a.dir_idx
                &&& i < a.listed().len() ==> after.sess_idx == i
                &&& 0 < a.listed().len() <= i ==> after.sess_idx == a.listed().len() - 1
                &&& a.listed().len() == 0 ==> after.sess_idx == 0
            }
            &&& !popup::is_inside(a.ui.sessions, column, row) && popup::is_inside(
                a.ui.dirs,
                column,
                row,
            ) ==> {
                &&& after.focus == Focus::Dirs
                &&& after.sess_idx == a.sess_idx
                &&& j < a.walk().rows.len() ==> after.dir_idx == j
                &&& 0 < a.walk().rows.len() <= j ==> after.dir_idx == a.walk().rows.len() - 1
                &&& a.walk().rows.len() == 0 ==> after.dir_idx == 0
            }
        }),
{
}

/// Control-N and Control-U change nothing but what they are for: the field that takes the keys, and
/// what is known of the directories.
pub proof fn lemma_shortcuts_change_nothing_else(a: AppView, held: Modifiers)
    requires
        a.action is Idle,
        held.control,
        preview_is_right(a),
    ensures
        ({
            let named = input::after_input(a, Input::Key(Key::Char('n'), held));
            let indexed = input::after_input(a, Input::Key(Key::Char('u'), held));
            &&& named.app == (AppView { focus: named.app.focus, dir_input: named.app.dir_input, ..a })
            &&& indexed.app == (AppView {
                dir_children: indexed.app.dir_children,
                cache_status: indexed.app.cache_status,
                ..a
            })
            &&& named.preview is None && indexed.preview is None
        }),
{
    let now = AppView { cache_status: "cache: indexing"@, dir_children: Seq::empty(), ..a };
    assert(now.listed() == a.listed());
}

/// What is selected is what stands at the selected place of the list, and nothing where the list does
/// not reach that far.
pub proof fn lemma_selected_is_at_its_place(a: AppView)
    ensures
        a.sess_idx < a.listed().len() ==> a.selected() == Some(
            a.sessions[sessions::listed_sessions(a.sessions, a.query)[a.sess_idx as int]],
        ),
        a.sess_idx >= a.listed().len() ==> a.selected() is None,
        a.dir_idx < a.walk().rows.len() ==> a.selected_dir() == Some(
            a.walk().rows[a.dir_idx as int],
        ),
        a.dir_idx >= a.walk().rows.len() ==> a.selected_dir() is None,
        a.query.len() == 0 ==> a.listed().len() == a.sessions.len(),
        a.query.len() == 0 && a.sess_idx < a.sessions.len() ==> a.selected() == Some(
            a.sessions[a.sess_idx as int],
        ),
{
}

/// The tree starts at the home directory, or at the root of the file system where there is none.
pub proof fn lemma_tree_starts_at_home(home: Seq<u8>)
    ensures
        popup::root_of(Some(home)) == home,
        popup::root_of(None) == seq![47u8],
{
}

/// What an input asks for beside a change of the popup. A new index is asked for by the letter u with
/// Control, a name or the end of a session only by the keys that confirm it, and the popup closes on
/// Escape and where Enter finds something selected. All else asks for nothing.
pub proof fn lemma_what_is_asked_for(a: AppView, input: Input)
    ensures
        ({
            let step = input::after_input(a, input);
            let plain = a.action is Idle && input is Key;
            let key = input->Key_0;
            &&& step.task is Reindex <==> plain && key == Key::Char('u') && input->Key_1.control
            &&& step.task is Kill <==> a.action is ConfirmKill && input is Key && (key
                == Key::Char('y') || key == Key::Char('Y'))
            &&& step.task is Rename <==> a.action is Rename && input is Key && key == Key::Enter
                && text::trimmed(a.action->input).len() > 0
            &&& step.task is Quit <==> plain && (key == Key::Esc || (key == Key::Enter && (
            if a.focus == Focus::Dirs {
                a.selected_dir() is Some
            } else {
                a.selected() is Some
            })))
            &&& step.task is Quit || (input is Key && !plain) ==> step.preview is None
        }),
{
}

/// The directories that are listed are those of the tree while nothing is searched for, and else those
/// of the index that the search finds; to list them changes nothing but what the tree has met.
pub proof fn lemma_dirs_are_listed(a: AppView)
    ensures
        ({
            let root = popup::root_of(a.home);
            let typed = text::trimmed(a.dir_query);
            &&& text_laws::is_white(a.dir_query) ==> a.walk() == tree::visible(
                a.dirs,
                a.dir_children,
                root,
            )
            &&& !text_laws::is_white(a.dir_query) && text::lowercase(typed).len() > 0
                ==> a.walk().rows == search::matching_rows(
                a.dir_cache,
                text::lowercase(typed),
                paths::lossy_text(root),
            ) && a.walk().nodes == a.dirs
            &&& a.walked() == (AppView { dirs: a.walk().nodes, ..a })
        }),
{
    let parts = text_laws::lemma_trimming_takes_white_space(a.dir_query);
}

} // verus!
