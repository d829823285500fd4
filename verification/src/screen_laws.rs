//! Laws of what is on the screen, said of the text that can be read there.
use crate::ansi;
use crate::commands;
use crate::layout::Areas;
use crate::paths;
use crate::popup::{ActionView, AppView, DirInput, Focus};
use crate::screen;
use crate::screen::{SpanView, Tone};
use crate::sessions;
use crate::text;
use crate::tree;
use vstd::prelude::*;

verus! {

/// The text of a line, whatever it is drawn in.
pub open spec fn line_text(line: Seq<SpanView>) -> Seq<char>
    decreases line.len(),
{
    if line.len() == 0 {
        Seq::empty()
    } else {
        line_text(line.drop_last()) + line.last().text
    }
}

proof fn lemma_text_push(line: Seq<SpanView>, p: SpanView)
    ensures
        line_text(line.push(p)) == line_text(line) + p.text,
{
    assert(line.push(p).drop_last() =~= line);
}

proof fn lemma_text_of_two(a: SpanView, b: SpanView)
    ensures
        line_text(seq![a]) == a.text,
        line_text(seq![a, b]) == a.text + b.text,
{
    let none = Seq::<SpanView>::empty();
    lemma_text_push(none, a);
    lemma_text_push(seq![a], b);
    assert(seq![a] =~= none.push(a));
    assert(seq![a, b] =~= seq![a].push(b));
    assert(Seq::<char>::empty() + a.text =~= a.text);
}

proof fn lemma_text_of_four(a: SpanView, b: SpanView, c: SpanView, d: SpanView)
    ensures
        line_text(seq![a, b, c]) == a.text + b.text + c.text,
        line_text(seq![a, b, c, d]) == a.text + b.text + c.text + d.text,
{
    lemma_text_of_two(a, b);
    lemma_text_push(seq![a, b], c);
    lemma_text_push(seq![a, b, c], d);
    assert(seq![a, b, c] =~= seq![a, b].push(c));
    assert(seq![a, b, c, d] =~= seq![a, b, c].push(d));
}

/// Whether a line is drawn as the selected one, from start to end, or no part of it is.
pub open spec fn is_marked_whole(line: Seq<SpanView>, marked: bool) -> bool {
    line.len() > 0 && forall|k: int|
        0 <= k < line.len() ==> ((#[trigger] line[k]).tone == Tone::Marked <==> marked)
}

/// What stands in front of a row: a pointer before the selected one, blanks before the others.
pub open spec fn pointer(selected: bool) -> Seq<char> {
    if selected {
        seq![' ', '\u{f0b9f}', ' ']
    } else {
        seq![' ', ' ', ' ']
    }
}

/// The row of a session shows its name, whether it is attached and whether it is the current one;
/// selected or not, it reads the same but for the pointer in front.
pub proof fn lemma_session_row_shows(s: sessions::SessionView, selected: bool)
    ensures
        ({
            let row = screen::session_row(s, selected);
            let attached = if s.attached {
                seq![' ', '\u{f0208}']
            } else {
                Seq::empty()
            };
            let current = if s.current {
                seq![' ', ' ', '←', ' ', 'c', 'u', 'r', 'r', 'e', 'n', 't']
            } else {
                Seq::empty()
            };
            &&& line_text(row) == pointer(selected) + seq!['\u{ebc8}', ' '] + s.name + attached
                + current
            &&& is_marked_whole(row, selected)
        }),
{
    let row = screen::session_row(s, selected);
    reveal_strlit(" \u{f0208}");
    reveal_strlit("");
    reveal_strlit("  ← current");
    reveal_strlit(" \u{f0b9f} ");
    reveal_strlit("\u{ebc8} ");
    reveal_strlit("   \u{ebc8} ");
    let attached = if s.attached {
        seq![' ', '\u{f0208}']
    } else {
        Seq::empty()
    };
    let current = if s.current {
        seq![' ', ' ', '←', ' ', 'c', 'u', 'r', 'r', 'e', 'n', 't']
    } else {
        Seq::empty()
    };
    assert(""@ =~= Seq::empty());
    assert(" \u{f0208}"@ =~= seq![' ', '\u{f0208}']);
    assert("  ← current"@ =~= seq![' ', ' ', '←', ' ', 'c', 'u', 'r', 'r', 'e', 'n', 't']);
    let whole = pointer(selected) + seq!['\u{ebc8}', ' '] + s.name + attached + current;
    if selected {
        lemma_text_of_two(row[0], row[1]);
        assert(row =~= seq![row[0], row[1]]);
        assert(row[0].text + row[1].text =~= whole);
    } else {
        lemma_text_of_four(row[0], row[1], row[2], row[3]);
        assert(row =~= seq![row[0], row[1], row[2], row[3]]);
        assert(row[0].text + row[1].text + row[2].text + row[3].text =~= whole);
    }
}

/// How many directories are known below one.
pub open spec fn known_below(cache: Seq<tree::ChildListView>, path: Seq<u8>) -> nat {
    if tree::known_children(cache, path) is Some {
        tree::known_children(cache, path)->0.len()
    } else {
        0
    }
}

/// The row of a directory is indented by two blanks for each level, and shows whether it is open, its
/// name and how many directories are below it; selected or not, it reads the same but for the pointer
/// in front.
pub proof fn lemma_dir_row_shows(a: AppView, node: tree::NodeView, selected: bool)
    ensures
        ({
            let row = screen::dir_row(a, node, selected);
            let count = known_below(a.dir_children, node.path);
            let sign = if count == 0 {
                ' '
            } else if node.expanded {
                '▾'
            } else {
                '▸'
            };
            let badge = if count == 0 {
                Seq::empty()
            } else {
                seq![' ', ' '] + text::decimal_of(count)
            };
            &&& line_text(row) == pointer(selected) + Seq::new(2 * node.depth, |i: int| ' ') + seq![
                sign,
                ' ',
                '\u{f07b}',
                ' ',
            ] + screen::dir_name(a.home, node.path) + badge
            &&& is_marked_whole(row, selected)
        }),
{
    let row = screen::dir_row(a, node, selected);
    reveal_strlit(" ");
    reveal_strlit("▾");
    reveal_strlit("▸");
    reveal_strlit("");
    reveal_strlit("  ");
    reveal_strlit(" \u{f0b9f} ");
    reveal_strlit(" \u{f07b} ");
    reveal_strlit("   ");
    reveal_strlit("\u{f07b} ");
    let count = known_below(a.dir_children, node.path);
    let sign = if count == 0 {
        ' '
    } else if node.expanded {
        '▾'
    } else {
        '▸'
    };
    let badge = if count == 0 {
        Seq::empty()
    } else {
        seq![' ', ' '] + text::decimal_of(count)
    };
    let blanks = Seq::new(2 * node.depth, |i: int| ' ');
    let name = screen::dir_name(a.home, node.path);
    assert(screen::count_badge(count) =~= badge);
    assert(screen::fold_sign(count, node.expanded) =~= seq![sign]);
    assert(screen::indent(node.depth) =~= blanks);
    let whole = pointer(selected) + blanks + seq![sign, ' ', '\u{f07b}', ' '] + name + badge;
    if selected {
        lemma_text_of_two(row[0], row[1]);
        assert(row =~= seq![row[0], row[1]]);
        assert(row[0].text + row[1].text =~= whole);
    } else {
        lemma_text_of_four(row[0], row[1], row[2], row[3]);
        let four = seq![row[0], row[1], row[2], row[3]];
        lemma_text_push(four, row[4]);
        lemma_text_push(four.push(row[4]), row[5]);
        assert(row =~= four.push(row[4]).push(row[5]));
        assert(row[0].text + row[1].text + row[2].text + row[3].text + row[4].text + row[5].text
            =~= whole);
    }
}

/// The home directory is called by a tilde, every other by its last name.
pub proof fn lemma_dir_is_named(home: Option<Seq<u8>>, path: Seq<u8>)
    ensures
        home is Some && paths::components(path) == paths::components(home->0) ==> screen::dir_name(
            home,
            path,
        ) == seq!['~'],
        paths::components(path).len() > 0 && !(home is Some && paths::components(path)
            == paths::components(home->0)) && paths::file_name_of(path) is Some
            ==> screen::dir_name(home, path) == paths::lossy_text(paths::file_name_of(path)->0),
        paths::components(path).len() > 0 && !(home is Some && paths::components(path)
            == paths::components(home->0)) && paths::file_name_of(path) is None
            ==> screen::dir_name(home, path).len() == 0,
{
    reveal_strlit("~");
    assert("~"@ =~= seq!['~']);
    assert(paths::components(Seq::empty()).len() == 0);
}

/// Where the selection is once it is held to what there is.
pub open spec fn kept_place(idx: usize, len: nat) -> int {
    if len == 0 {
        0
    } else if idx < len {
        idx as int
    } else {
        len - 1
    }
}

/// Whether a list is scrolled right: it shows as many rows as there are and as fit, the selected one
/// among them, and is scrolled no further than needed for that.
pub open spec fn is_scrolled(first: int, rows: nat, selected: int, len: nat, height: int) -> bool {
    &&& rows == (if len <= height {
        len as int
    } else {
        height
    })
    &&& rows > 0 ==> first <= selected < first + rows && first + rows <= len
    &&& selected < height ==> first == 0
    &&& selected >= height ==> first + height == selected + 1
}

/// The list of sessions shows the listed ones in order, the selected one among them; the row that is
/// marked is that of the selected session, and only while the list has the focus.
pub proof fn lemma_session_list_shows(a: AppView, areas: Areas, k: int)
    requires
        a.listed().len() <= usize::MAX,
    ensures
        ({
            let s = screen::shown(a, areas);
            let now = screen::laid_out(a, areas);
            let first = now.ui.session_start as int;
            let selected = kept_place(a.sess_idx, a.listed().len());
            &&& now.sess_idx == selected
            &&& now.ui.sessions == areas.session_list
            &&& areas.session_list.height > 0 ==> is_scrolled(
                first,
                s.session_rows.len(),
                selected,
                a.listed().len(),
                areas.session_list.height as int,
            )
            &&& areas.session_list.height == 0 ==> s.session_rows.len() == 0
            &&& 0 <= k < s.session_rows.len() ==> s.session_rows[k] == screen::session_row(
                a.sessions[a.listed()[first + k]],
                a.focus == Focus::Sessions && first + k == selected,
            )
            &&& line_text(s.session_title).skip(11) == seq![' ', ' '] + text::decimal_of(
                a.listed().len(),
            ) + seq![' ', 't', 'o', 't', 'a', 'l']
        }),
{
    let s = screen::shown(a, areas);
    let t = s.session_title;
    reveal_strlit(" \u{ebc8} ");
    reveal_strlit("sessions");
    reveal_strlit("  ");
    reveal_strlit(" total");
    lemma_text_of_four(t[0], t[1], t[2], t[2]);
    assert(t =~= seq![t[0], t[1], t[2]]);
    assert(line_text(t).skip(11) =~= seq![' ', ' '] + text::decimal_of(a.listed().len()) + seq![
        ' ',
        't',
        'o',
        't',
        'a',
        'l',
    ]);
}

/// The list of directories shows those of the tree, or of the search, in order, the selected one among
/// them; the row that is marked is that of the selected directory, and only while the list has the
/// focus. There is an arrow above where rows are hidden above, and one below where some are below.
pub proof fn lemma_dir_list_shows(a: AppView, areas: Areas, k: int)
    requires
        a.walk().rows.len() <= usize::MAX,
    ensures
        ({
            let s = screen::shown(a, areas);
            let now = screen::laid_out(a, areas);
            let rows = a.walk().rows;
            let list = areas.dir_list;
            let first = now.ui.dir_start as int;
            let selected = kept_place(a.dir_idx, rows.len());
            &&& now.dir_idx == selected
            &&& now.ui.dirs == list
            &&& list.height > 0 ==> is_scrolled(
                first,
                s.dir_rows.len(),
                selected,
                rows.len(),
                list.height as int,
            )
            &&& list.height == 0 ==> s.dir_rows.len() == 0
            &&& 0 <= k < s.dir_rows.len() ==> s.dir_rows[k] == screen::dir_row(
                now,
                rows[first + k],
                a.focus == Focus::Dirs && first + k == selected,
            )
            &&& s.above is Some <==> first > 0
            &&& s.below is Some <==> first + list.height < rows.len()
            &&& s.above is Some && list.width >= 2 && list.x + list.width <= 0xffff
                ==> s.above->0.x == list.x + list.width - 2 && s.above->0.y == list.y
            &&& s.below is Some && list.width >= 2 && list.x + list.width <= 0xffff && list.height
                >= 1 && list.y + list.height <= 0xffff ==> s.below->0.x == list.x + list.width - 2
                && s.below->0.y == list.y + list.height - 1
        }),
{
}

/// Drawing changes nothing but where the selection and the lists stand, and what the tree has met.
pub proof fn lemma_drawing_changes_little(a: AppView, areas: Areas)
    ensures
        ({
            let now = screen::laid_out(a, areas);
            now == (AppView {
                dir_idx: now.dir_idx,
                sess_idx: now.sess_idx,
                ui: now.ui,
                dirs: a.walk().nodes,
                ..a
            })
        }),
{
}

/// The header says which list has the focus, how the index stands and what there is to notice.
pub proof fn lemma_header_says(a: AppView, areas: Areas)
    ensures
        ({
            let label = match a.focus {
                Focus::Dirs => "DIRECTORY"@,
                Focus::Sessions => "SESSION"@,
            };
            line_text(screen::shown(a, areas).header) == " active "@ + seq![' '] + label + seq![
                ' ',
                ' ',
                ' ',
            ] + a.cache_status + seq![' ', ' ', ' '] + a.notice
        }),
{
    let line = screen::shown(a, areas).header;
    let label = match a.focus {
        Focus::Dirs => "DIRECTORY"@,
        Focus::Sessions => "SESSION"@,
    };
    reveal_strlit(" ");
    reveal_strlit("  ");
    lemma_text_of_four(line[0], line[1], line[2], line[3]);
    assert(line =~= seq![line[0], line[1], line[2], line[3]]);
    assert(line_text(line) =~= " active "@ + seq![' '] + label + seq![' ', ' ', ' ']
        + a.cache_status + seq![' ', ' ', ' '] + a.notice);
}

/// The field below the sessions holds what is typed there: the search, or a new name for the session
/// that is renamed, or the question whether one is to be killed.
pub proof fn lemma_session_field_says(a: AppView, areas: Areas)
    ensures
        ({
            let field = screen::shown(a, areas).session_field;
            &&& field.len() == 3
            &&& field[0].tone == Tone::Marked <==> !(a.action is Idle) || a.focus == Focus::Sessions
            &&& a.action is Idle && a.query.len() > 0 ==> field[2].text == a.query
            &&& a.action is Idle && a.query.len() == 0 ==> field[2].text
                == "type to fuzzy-filter sessions"@
            &&& a.action matches ActionView::Rename { original, input } ==> field[2].text
                == original + seq![' ', '→', ' '] + input
            &&& a.action matches ActionView::ConfirmKill { name } ==> field[2].text == seq![
                'k',
                'i',
                'l',
                'l',
                ' ',
            ] + name + seq!['?', ' ', ' ', 'y', '/', 'N']
        }),
{
    reveal_strlit(" → ");
    reveal_strlit("kill ");
    reveal_strlit("?  y/N");
    assert(" → "@ =~= seq![' ', '→', ' ']);
    assert("kill "@ =~= seq!['k', 'i', 'l', 'l', ' ']);
    assert("?  y/N"@ =~= seq!['?', ' ', ' ', 'y', '/', 'N']);
}

/// The fields below the directories hold what is typed there; the one that takes the next character is
/// marked.
pub proof fn lemma_dir_fields_say(a: AppView, areas: Areas)
    ensures
        ({
            let field = screen::shown(a, areas).dir_field;
            &&& field.len() == 7
            &&& a.dir_query.len() > 0 ==> field[2].text == a.dir_query
            &&& a.dir_query.len() == 0 ==> field[2].text == "type to filter directories"@
            &&& a.new_session.len() > 0 ==> field[6].text == a.new_session
            &&& a.new_session.len() == 0 ==> field[6].text == "<directory name>"@
            &&& field[0].tone == Tone::Marked <==> a.focus == Focus::Dirs && a.dir_input
                == DirInput::Filter
            &&& field[4].tone == Tone::Marked <==> a.focus == Focus::Dirs && a.dir_input
                == DirInput::Name
        }),
{
}

/// While the sessions have the focus, the preview tells of the selected one: its name and how many
/// windows it has, whether it is attached, its pane and its times, and line by line what its pane
/// shows; where none is listed, it says so.
pub proof fn lemma_preview_tells_of_the_session(a: AppView, areas: Areas, k: int)
    requires
        a.focus == Focus::Sessions,
        a.listed().len() <= usize::MAX,
    ensures
        ({
            let shown = screen::shown(a, areas);
            let s = a.sessions[a.listed()[kept_place(a.sess_idx, a.listed().len())]];
            let head = shown.preview_head->0;
            &&& a.listed().len() == 0 ==> shown.preview_head is None && shown.preview_lines.len()
                == 1 && line_text(shown.preview_lines[0]) == "No match"@
            &&& a.listed().len() > 0 ==> {
                &&& shown.preview_head is Some
                &&& head.len() == 3
                &&& line_text(head[0]) == " SWITCH   \u{ebc8} "@ + s.name + seq![' ', ' ']
                    + s.windows + (if s.attached {
                    "w  attached"@
                } else {
                    "w  detached"@
                })
                &&& line_text(head[1]) == " pane    "@ + s.active_line
                &&& line_text(head[2]) == " active  "@ + s.activity + "   created "@ + s.created
                &&& shown.preview_lines.len() == s.preview.len()
                &&& 0 <= k < s.preview.len() ==> line_text(shown.preview_lines[k])
                    == ansi::plain_from(s.preview[k], 0)
            }
        }),
{
    let shown = screen::shown(a, areas);
    let listed = a.listed();
    let lines = shown.preview_lines;
    if listed.len() == 0 {
        lemma_text_of_two(lines[0][0], lines[0][0]);
        assert(lines[0] =~= seq![lines[0][0]]);
    } else {
        let s = a.sessions[listed[kept_place(a.sess_idx, listed.len())]];
        let head = shown.preview_head->0;
        assert(head == screen::session_head(s));
        reveal_strlit(" SWITCH ");
        reveal_strlit("  \u{ebc8} ");
        reveal_strlit(" SWITCH   \u{ebc8} ");
        reveal_strlit("  ");
        reveal_strlit("w");
        reveal_strlit("  attached");
        reveal_strlit("  detached");
        reveal_strlit("w  attached");
        reveal_strlit("w  detached");
        let x = head[0];
        lemma_text_of_four(x[0], x[1], x[2], x[3]);
        assert(x =~= seq![x[0], x[1], x[2], x[3]]);
        assert(line_text(x) =~= " SWITCH   \u{ebc8} "@ + s.name + seq![' ', ' '] + s.windows + (
        if s.attached {
            "w  attached"@
        } else {
            "w  detached"@
        }));
        let y = head[1];
        lemma_text_of_two(y[0], y[1]);
        assert(y =~= seq![y[0], y[1]]);
        let z = head[2];
        lemma_text_of_four(z[0], z[1], z[2], z[3]);
        assert(z =~= seq![z[0], z[1], z[2], z[3]]);
        if 0 <= k < s.preview.len() {
            lemma_text_of_two(lines[k][0], lines[k][0]);
            assert(lines[k] =~= seq![lines[k][0]]);
        }
    }
}

/// While the directories have the focus, the preview tells of the selected one: the name that a session
/// made there would get, the path, and by name each directory below it.
pub proof fn lemma_preview_tells_of_the_dir(a: AppView, areas: Areas, k: int)
    requires
        a.focus == Focus::Dirs,
        0 < a.walk().rows.len() <= usize::MAX,
    ensures
        ({
            let shown = screen::shown(a, areas);
            let path = a.walk().rows[kept_place(a.dir_idx, a.walk().rows.len())].path;
            let head = shown.preview_head->0;
            let below = known_below(a.dir_children, path);
            &&& shown.preview_head is Some
            &&& head.len() == 3
            &&& text::trimmed(a.new_session) == a.new_session ==> line_text(head[0])
                == " CREATE   \u{f489} "@ + commands::new_session_name(path, a.new_session)
            &&& line_text(head[1]) == " cwd     "@ + paths::lossy_text(path)
            &&& line_text(head[2]) == " folders "@ + text::decimal_of(below)
                + "   action Enter creates detached tmux session here"@
            &&& shown.preview_lines.len() == below + 1
            &&& 0 <= k < below ==> ({
                let child = tree::known_children(a.dir_children, path)->0[k];
                line_text(shown.preview_lines[k + 1]) == seq![' ', ' ', '\u{f07b}', ' ']
                    + match paths::file_name_of(child) {
                    Some(name) => paths::lossy_text(name),
                    None => Seq::empty(),
                }
            })
        }),
{
    let shown = screen::shown(a, areas);
    let path = a.walk().rows[kept_place(a.dir_idx, a.walk().rows.len())].path;
    let head = shown.preview_head->0;
    let below = known_below(a.dir_children, path);
    assert(head == screen::dir_head(path, a.new_session, below));
    reveal_strlit(" CREATE ");
    reveal_strlit("  \u{f489} ");
    reveal_strlit(" CREATE   \u{f489} ");
    reveal_strlit("   action ");
    reveal_strlit("Enter creates detached tmux session here");
    reveal_strlit("   action Enter creates detached tmux session here");
    reveal_strlit("  \u{f07b} ");
    let x = head[0];
    lemma_text_of_two(x[0], x[1]);
    assert(x =~= seq![x[0], x[1]]);
    if text::trimmed(a.new_session) == a.new_session {
        let target = commands::new_session_name(path, a.new_session);
        assert(x[1].text == "  \u{f489} "@ + target);
        assert(line_text(x) =~= " CREATE   \u{f489} "@ + target);
    }
    let y = head[1];
    lemma_text_of_two(y[0], y[1]);
    assert(y =~= seq![y[0], y[1]]);
    let z = head[2];
    lemma_text_of_four(z[0], z[1], z[2], z[3]);
    assert(z =~= seq![z[0], z[1], z[2], z[3]]);
    assert(line_text(z) =~= " folders "@ + text::decimal_of(below)
        + "   action Enter creates detached tmux session here"@);
    if 0 <= k < below {
        let child = tree::known_children(a.dir_children, path)->0[k];
        let line = shown.preview_lines[k + 1];
        assert(line == screen::folder_line(child));
        lemma_text_of_two(line[0], line[1]);
        assert(line =~= seq![line[0], line[1]]);
        assert("  \u{f07b} "@ =~= seq![' ', ' ', '\u{f07b}', ' ']);
    }
}

/// Whether a directory has a row on the screen.
pub open spec fn is_on_screen(a: AppView, areas: Areas, path: Seq<u8>) -> bool {
    exists|k: int|
        0 <= k < screen::shown(a, areas).dir_rows.len() && (#[trigger] a.walk().rows[screen::laid_out(
            a,
            areas,
        ).ui.dir_start + k]).path == path
}

/// The directory that the preview tells of while the directories have the focus.
pub open spec fn previewed_dir(a: AppView) -> Seq<u8> {
    if a.walk().rows.len() == 0 {
        Seq::empty()
    } else {
        a.walk().rows[kept_place(a.dir_idx, a.walk().rows.len())].path
    }
}

/// What has to be read before the popup can be drawn: all that the tree lacks; where it lacks nothing,
/// the directories on the screen, and the one that the preview tells of, that were not read yet, and
/// no others.
pub proof fn lemma_what_is_still_to_be_read(a: AppView, areas: Areas, path: Seq<u8>)
    requires
        a.walk().rows.len() <= usize::MAX,
    ensures
        a.walk().unread.len() > 0 ==> screen::unread_dirs(a, areas) == a.walk().unread,
        a.walk().unread.len() == 0 ==> (screen::unread_dirs(a, areas).contains(path)
            <==> tree::known_children(a.dir_children, path) is None && (is_on_screen(a, areas, path)
            || (a.focus == Focus::Dirs && path == previewed_dir(a)))),
{
    let counted = screen::counted_dirs(a, areas);
    let unknown = |p: Seq<u8>| tree::known_children(a.dir_children, p) is None;
    let rows = a.walk().rows;
    let start = screen::laid_out(a, areas).ui.dir_start as int;
    let n = screen::shown(a, areas).dir_rows.len() as int;
    assert(counted.contains(path) <==> is_on_screen(a, areas, path) || (a.focus == Focus::Dirs
        && path == previewed_dir(a))) by {
        if counted.contains(path) {
            let k = choose|k: int| 0 <= k < counted.len() && counted[k] == path;
            if k < n {
                assert(rows[start + k].path == path);
            }
        }
        if is_on_screen(a, areas, path) {
            let k = choose|k: int| 0 <= k < n && (#[trigger] rows[start + k]).path == path;
            assert(counted[k] == path);
        }
        if a.focus == Focus::Dirs && path == previewed_dir(a) {
            assert(counted[n] == path);
        }
    }
    if counted.filter(unknown).contains(path) {
        let k = choose|k: int|
            0 <= k < counted.filter(unknown).len() && counted.filter(unknown)[k] == path;
        counted.lemma_filter_contains_rev(unknown, path);
        counted.lemma_filter_pred(unknown, k);
    } else if counted.contains(path) && unknown(path) {
        let k = choose|k: int| 0 <= k < counted.len() && counted[k] == path;
        counted.lemma_filter_contains(unknown, k);
    }
}

} // verus!
