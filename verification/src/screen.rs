//! What the popup shows.
use crate::ansi;
use crate::commands;
use crate::layout;
use crate::layout::Areas;
use crate::names;
use crate::order;
use crate::paths;
use crate::paths::DirPath;
use crate::popup;
use crate::popup::ActionView;
use crate::popup::App;
use crate::popup::AppView;
use crate::popup::DirInput;
use crate::popup::Focus;
use crate::popup::Rect;
use crate::popup::SessionAction;
use crate::popup::UiAreas;
use crate::sessions;
use crate::sessions::Session;
use crate::text;
use crate::tree;
use crate::tree::ChildCache;
use crate::tree::DirListing;
use crate::tree::DirNode;
use vstd::prelude::*;

verus! {

/// How a text stands out.
#[derive(Clone, Copy, Debug, PartialEq, Eq, Structural)]
pub enum Tone {
    Plain,
    Bold,
    Dim,
    /// Bold and in reverse video.
    Marked,
}

/// A piece of a line.
#[derive(Debug)]
pub struct Span {
    pub text: String,
    pub tone: Tone,
}

/// The value of a [`Span`].
#[verifier::ext_equal]
pub struct SpanView {
    pub text: Seq<char>,
    pub tone: Tone,
}

impl View for Span {
    type V = SpanView;

    open spec fn view(&self) -> SpanView {
        SpanView { text: self.text@, tone: self.tone }
    }
}

/// The value of a line.
pub open spec fn line_view(line: Seq<Span>) -> Seq<SpanView> {
    line.map_values(|s: Span| s@)
}

/// The values of several lines.
pub open spec fn line_views(lines: Seq<Vec<Span>>) -> Seq<Seq<SpanView>> {
    lines.map_values(|l: Vec<Span>| line_view(l@))
}

/// A piece of a line.
pub open spec fn piece(text: Seq<char>, tone: Tone) -> SpanView {
    SpanView { text, tone }
}

/// A piece of a line.
fn span(text: &str, tone: Tone) -> (r: Span)
    ensures
        r@ == piece(text@, tone),
{
    Span { text: text.to_owned(), tone }
}

/// A piece of a line that has been put together.
fn span_of(text: String, tone: Tone) -> (r: Span)
    ensures
        r@ == piece(text@, tone),
{
    Span { text, tone }
}

/// Three texts, one behind the other.
fn joined3(a: &str, b: &str, c: &str) -> (r: String)
    ensures
        r@ == a@ + b@ + c@,
{
    text::joined(text::joined(a, b).as_str(), c)
}

/// A line of one piece.
fn line1(a: Span) -> (r: Vec<Span>)
    ensures
        line_view(r@) == seq![a@],
{
    let mut r: Vec<Span> = Vec::new();
    r.push(a);
    assert(line_view(r@) =~= seq![a@]);
    r
}

/// A line of two pieces.
fn line2(a: Span, b: Span) -> (r: Vec<Span>)
    ensures
        line_view(r@) == seq![a@, b@],
{
    let mut r: Vec<Span> = Vec::new();
    r.push(a);
    r.push(b);
    assert(line_view(r@) =~= seq![a@, b@]);
    r
}

/// A line of three pieces.
fn line3(a: Span, b: Span, c: Span) -> (r: Vec<Span>)
    ensures
        line_view(r@) == seq![a@, b@, c@],
{
    let mut r: Vec<Span> = line2(a, b);
    r.push(c);
    assert(line_view(r@) =~= seq![a@, b@].push(c@));
    assert(seq![a@, b@].push(c@) =~= seq![a@, b@, c@]);
    r
}

/// A line of four pieces.
fn line4(a: Span, b: Span, c: Span, d: Span) -> (r: Vec<Span>)
    ensures
        line_view(r@) == seq![a@, b@, c@, d@],
{
    let mut r: Vec<Span> = line3(a, b, c);
    r.push(d);
    assert(line_view(r@) =~= seq![a@, b@, c@].push(d@));
    assert(seq![a@, b@, c@].push(d@) =~= seq![a@, b@, c@, d@]);
    r
}

/// A line of six pieces.
fn line6(a: Span, b: Span, c: Span, d: Span, e: Span, f: Span) -> (r: Vec<Span>)
    ensures
        line_view(r@) == seq![a@, b@, c@, d@, e@, f@],
{
    let mut r: Vec<Span> = line4(a, b, c, d);
    r.push(e);
    r.push(f);
    assert(line_view(r@) =~= seq![a@, b@, c@, d@].push(e@).push(f@));
    assert(seq![a@, b@, c@, d@].push(e@).push(f@) =~= seq![a@, b@, c@, d@, e@, f@]);
    r
}

/// The line at the top: what has the focus, the state of the index, and the last notice.
pub open spec fn header_line(a: AppView) -> Seq<SpanView> {
    let label = match a.focus {
        Focus::Dirs => "DIRECTORY"@,
        Focus::Sessions => "SESSION"@,
    };
    seq![
        piece(" active "@, Tone::Marked),
        piece(" "@ + label + " "@, Tone::Bold),
        piece("  "@ + a.cache_status + " "@, Tone::Plain),
        piece("  "@ + a.notice, Tone::Bold),
    ]
}

/// The line at the top.
fn header(app: &App) -> (r: Vec<Span>)
    ensures
        line_view(r@) == header_line(app@),
{
    let label: &str = match app.focus {
        Focus::Dirs => "DIRECTORY",
        Focus::Sessions => "SESSION",
    };
    line4(
        span(" active ", Tone::Marked),
        span_of(joined3(" ", label, " "), Tone::Bold),
        span_of(joined3("  ", app.cache_status.as_str(), " "), Tone::Plain),
        span_of(text::joined("  ", app.notice.as_str()), Tone::Bold),
    )
}

/// The title of the session box.
pub open spec fn session_title_line(count: nat) -> Seq<SpanView> {
    seq![
        piece(" \u{ebc8} "@, Tone::Bold),
        piece("sessions"@, Tone::Bold),
        piece("  "@ + text::decimal_of(count) + " total"@, Tone::Plain),
    ]
}

/// The title of the session box.
fn session_title(count: usize) -> (r: Vec<Span>)
    ensures
        line_view(r@) == session_title_line(count as nat),
{
    let number: String = text::decimal(count as u64);
    line3(
        span(" \u{ebc8} ", Tone::Bold),
        span("sessions", Tone::Bold),
        span_of(joined3("  ", number.as_str(), " total"), Tone::Plain),
    )
}

/// The title of the directory box.
pub fn dir_title() -> (r: Vec<Span>)
    ensures
        line_view(r@) == seq![piece(" \u{f07b} "@, Tone::Bold), piece("project tree"@, Tone::Bold)],
{
    line2(span(" \u{f07b} ", Tone::Bold), span("project tree", Tone::Bold))
}

/// The title of the preview.
pub fn preview_title() -> (r: Vec<Span>)
    ensures
        line_view(r@) == seq![piece(" \u{f0219} "@, Tone::Bold), piece("preview"@, Tone::Bold)],
{
    line2(span(" \u{f0219} ", Tone::Bold), span("preview", Tone::Bold))
}

/// The line of help: the keys, each with what it does.
pub fn help() -> (r: Vec<Span>)
    ensures
        line_view(r@) == seq![
            piece("  ↑/↓ "@, Tone::Marked),
            piece(" switch boxes  "@, Tone::Plain),
            piece(" ←/→ "@, Tone::Marked),
            piece(" dirs  "@, Tone::Plain),
            piece(" Enter "@, Tone::Marked),
            piece(" open/switch  "@, Tone::Plain),
            piece(" ^R/^D "@, Tone::Marked),
            piece(" rename/kill  "@, Tone::Plain),
            piece(" PgUp/PgDn "@, Tone::Marked),
            piece(" preview"@, Tone::Plain),
        ],
{
    let mut r: Vec<Span> = line6(
        span("  ↑/↓ ", Tone::Marked),
        span(" switch boxes  ", Tone::Plain),
        span(" ←/→ ", Tone::Marked),
        span(" dirs  ", Tone::Plain),
        span(" Enter ", Tone::Marked),
        span(" open/switch  ", Tone::Plain),
    );
    let mut more: Vec<Span> = line4(
        span(" ^R/^D ", Tone::Marked),
        span(" rename/kill  ", Tone::Plain),
        span(" PgUp/PgDn ", Tone::Marked),
        span(" preview", Tone::Plain),
    );
    let ghost first = line_view(r@);
    let ghost last = line_view(more@);
    r.append(&mut more);
    assert(line_view(r@) =~= first + last);
    r
}

/// The row that a list starts with when the one at `idx` is selected and `height` rows fit.
pub open spec fn first_row(idx: int, height: int) -> int {
    if idx >= height {
        idx + 1 - height
    } else {
        0
    }
}

/// The number of rows that are shown of `len` rows from `start` on when `height` rows fit.
pub open spec fn rows_shown(len: int, start: int, height: int) -> int {
    if len <= start {
        0
    } else if len - start < height {
        len - start
    } else {
        height
    }
}

/// The number of directories that are known to be in a directory.
pub open spec fn child_count(cache: Seq<tree::ChildListView>, path: Seq<u8>) -> nat {
    match tree::known_children(cache, path) {
        Some(children) => children.len(),
        None => 0,
    }
}

/// The spaces before a directory at some depth.
pub open spec fn indent(depth: nat) -> Seq<char> {
    Seq::new(2 * depth, |i: int| ' ')
}

/// The name that a directory goes by in the tree.
pub open spec fn dir_name(home: Option<Seq<u8>>, path: Seq<u8>) -> Seq<char> {
    let home_path = match home {
        Some(home) => home,
        None => Seq::empty(),
    };
    if paths::components(path) == paths::components(home_path) {
        "~"@
    } else {
        last_name(path)
    }
}

/// The last name of a path, or nothing where it does not end with one.
pub open spec fn last_name(path: Seq<u8>) -> Seq<char> {
    match paths::file_name_of(path) {
        Some(name) => paths::lossy_text(name),
        None => Seq::empty(),
    }
}

/// The sign that tells whether a directory is open.
pub open spec fn fold_sign(count: nat, expanded: bool) -> Seq<char> {
    if count == 0 {
        " "@
    } else if expanded {
        "▾"@
    } else {
        "▸"@
    }
}

/// The number behind a directory, where it is not zero.
pub open spec fn count_badge(count: nat) -> Seq<char> {
    if count == 0 {
        ""@
    } else {
        "  "@ + text::decimal_of(count)
    }
}

/// The row of a directory.
pub open spec fn dir_row(a: AppView, node: tree::NodeView, selected: bool) -> Seq<SpanView> {
    let count = child_count(a.dir_children, node.path);
    let sign = fold_sign(count, node.expanded);
    let name = dir_name(a.home, node.path);
    if selected {
        seq![
            piece(" \u{f0b9f} "@, Tone::Marked),
            piece(
                indent(node.depth) + sign + " \u{f07b} "@ + name + count_badge(count),
                Tone::Marked,
            ),
        ]
    } else {
        seq![
            piece("   "@, Tone::Plain),
            piece(indent(node.depth), Tone::Plain),
            piece(sign + " "@, Tone::Plain),
            piece("\u{f07b} "@, Tone::Plain),
            piece(name, Tone::Plain),
            piece(count_badge(count), Tone::Plain),
        ]
    }
}

/// The number of directories that are known to be in a directory.
fn known_count(cache: &ChildCache, path: &DirPath) -> (r: usize)
    ensures
        r == child_count(cache@, path@),
{
    match cache.children(path) {
        Some(children) => {
            assert(paths::path_views(children@).len() == children.len());
            children.len()
        },
        None => 0,
    }
}

/// The spaces before a directory at some depth.
fn spaces(depth: usize) -> (r: String)
    ensures
        r@ == indent(depth as nat),
{
    let mut r: String = String::new();
    let mut i: usize = 0;
    assert(r@ =~= indent(0));
    while i < depth
        invariant
            i <= depth,
            r@ == indent(i as nat),
        decreases depth - i,
    {
        r.push(' ');
        r.push(' ');
        i = i + 1;
        assert(r@ =~= indent(i as nat));
    }
    r
}

/// The last name of a path, or nothing where it does not end with one.
fn last_name_text(path: &DirPath) -> (r: String)
    ensures
        r@ == last_name(path@),
{
    match path.file_name() {
        Some(name) => paths::utf8_lossy(&name),
        None => {
            let nothing: String = String::new();
            assert(nothing@ =~= Seq::<char>::empty());
            nothing
        },
    }
}

/// The name that a directory goes by in the tree.
fn dir_label(home: &Option<DirPath>, path: &DirPath) -> (r: String)
    ensures
        r@ == dir_name(popup::home_view(*home), path@),
{
    let home_path: DirPath = match home {
        Some(home) => home.clone(),
        None => empty_path(),
    };
    if path.same(&home_path) {
        "~".to_owned()
    } else {
        last_name_text(path)
    }
}

/// The empty path.
fn empty_path() -> (r: DirPath)
    ensures
        r@ == Seq::<u8>::empty(),
{
    let bytes: Vec<u8> = Vec::new();
    assert(bytes@ =~= Seq::<u8>::empty());
    DirPath { bytes }
}

/// The row of a directory.
fn dir_line(app: &App, node: &DirNode, selected: bool) -> (r: Vec<Span>)
    ensures
        line_view(r@) == dir_row(app@, node@, selected),
{
    let count: usize = known_count(&app.dir_children, &node.path);
    let sign: &str = if count == 0 {
        " "
    } else if node.expanded {
        "▾"
    } else {
        "▸"
    };
    let name: String = dir_label(&app.home, &node.path);
    let badge: String = if count == 0 {
        "".to_owned()
    } else {
        text::joined("  ", text::decimal(count as u64).as_str())
    };
    let before: String = spaces(node.depth);
    if selected {
        let label: String = text::joined(
            joined3(before.as_str(), sign, " \u{f07b} ").as_str(),
            name.as_str(),
        );
        line2(
            span(" \u{f0b9f} ", Tone::Marked),
            span_of(text::joined(label.as_str(), badge.as_str()), Tone::Marked),
        )
    } else {
        line6(
            span("   ", Tone::Plain),
            span_of(before, Tone::Plain),
            span_of(text::joined(sign, " "), Tone::Plain),
            span("\u{f07b} ", Tone::Plain),
            span_of(name, Tone::Plain),
            span_of(badge, Tone::Plain),
        )
    }
}

/// The row of a session.
pub open spec fn session_row(s: sessions::SessionView, selected: bool) -> Seq<SpanView> {
    let attached = if s.attached {
        " \u{f0208}"@
    } else {
        ""@
    };
    let current = if s.current {
        "  ← current"@
    } else {
        ""@
    };
    if selected {
        seq![
            piece(" \u{f0b9f} "@, Tone::Marked),
            piece("\u{ebc8} "@ + s.name + attached + current, Tone::Marked),
        ]
    } else {
        seq![
            piece("   \u{ebc8} "@, Tone::Plain),
            piece(s.name, Tone::Plain),
            piece(attached, Tone::Plain),
            piece(current, Tone::Dim),
        ]
    }
}

/// The row of a session.
fn session_line(s: &Session, selected: bool) -> (r: Vec<Span>)
    ensures
        line_view(r@) == session_row(s@, selected),
{
    let attached: &str = if s.attached {
        " \u{f0208}"
    } else {
        ""
    };
    let current: &str = if s.current {
        "  ← current"
    } else {
        ""
    };
    if selected {
        let label: String = text::joined("\u{ebc8} ", s.name.as_str());
        line2(
            span(" \u{f0b9f} ", Tone::Marked),
            span_of(joined3(label.as_str(), attached, current), Tone::Marked),
        )
    } else {
        line4(
            span("   \u{ebc8} ", Tone::Plain),
            span(s.name.as_str(), Tone::Plain),
            span(attached, Tone::Plain),
            span(current, Tone::Dim),
        )
    }
}

/// How the label of a field stands out.
pub open spec fn label_tone(active: bool) -> Tone {
    if active {
        Tone::Marked
    } else {
        Tone::Dim
    }
}

/// How the text of a field stands out.
pub open spec fn value_tone(active: bool) -> Tone {
    if active {
        Tone::Bold
    } else {
        Tone::Plain
    }
}

/// How the label of a field stands out.
fn tone_of_label(active: bool) -> (r: Tone)
    ensures
        r == label_tone(active),
{
    if active {
        Tone::Marked
    } else {
        Tone::Dim
    }
}

/// How the text of a field stands out.
fn tone_of_value(active: bool) -> (r: Tone)
    ensures
        r == value_tone(active),
{
    if active {
        Tone::Bold
    } else {
        Tone::Plain
    }
}

/// A text, or another one where it is empty.
pub open spec fn text_or(s: Seq<char>, other: Seq<char>) -> Seq<char> {
    if s.len() == 0 {
        other
    } else {
        s
    }
}

/// A text, or another one where it is empty.
fn value_or(s: &String, other: &str) -> (r: String)
    ensures
        r@ == text_or(s@, other@),
{
    if s.as_str().is_empty() {
        other.to_owned()
    } else {
        s.clone()
    }
}

/// The line below the directories: the search and the name of a new session.
pub open spec fn dir_field_line(a: AppView) -> Seq<SpanView> {
    let filtering = a.focus == Focus::Dirs && a.dir_input == DirInput::Filter;
    let naming = a.focus == Focus::Dirs && a.dir_input == DirInput::Name;
    seq![
        piece(" \u{f002} search "@, label_tone(filtering)),
        piece("\u{e0b0} "@, Tone::Plain),
        piece(text_or(a.dir_query, "type to filter directories"@), value_tone(filtering)),
        piece("  │  "@, Tone::Plain),
        piece(" \u{f457} name "@, label_tone(naming)),
        piece("\u{e0b0} "@, Tone::Plain),
        piece(text_or(a.new_session, "<directory name>"@), value_tone(naming)),
    ]
}

/// The line below the directories.
fn dir_field(app: &App) -> (r: Vec<Span>)
    ensures
        line_view(r@) == dir_field_line(app@),
{
    let filtering: bool = app.focus == Focus::Dirs && app.dir_input == DirInput::Filter;
    let naming: bool = app.focus == Focus::Dirs && app.dir_input == DirInput::Name;
    let mut r: Vec<Span> = line6(
        span(" \u{f002} search ", tone_of_label(filtering)),
        span("\u{e0b0} ", Tone::Plain),
        span_of(
            value_or(&app.dir_query, "type to filter directories"),
            tone_of_value(filtering),
        ),
        span("  │  ", Tone::Plain),
        span(" \u{f457} name ", tone_of_label(naming)),
        span("\u{e0b0} ", Tone::Plain),
    );
    let ghost before = line_view(r@);
    let last: Span = span_of(
        value_or(&app.new_session, "<directory name>"),
        tone_of_value(naming),
    );
    r.push(last);
    assert(line_view(r@) =~= before.push(last@));
    assert(before.push(last@) =~= dir_field_line(app@));
    r
}

/// The line below the sessions: the filter, or what is being asked.
pub open spec fn session_field_line(a: AppView) -> Seq<SpanView> {
    match a.action {
        ActionView::Rename { original, input } => seq![
            piece(" \u{f044} rename "@, label_tone(true)),
            piece("  "@, Tone::Plain),
            piece(original + " → "@ + input, value_tone(true)),
        ],
        ActionView::ConfirmKill { name } => seq![
            piece(" \u{f467} confirm "@, label_tone(true)),
            piece("  "@, Tone::Plain),
            piece("kill "@ + name + "?  y/N"@, value_tone(true)),
        ],
        ActionView::Idle => seq![
            piece(" \u{f002} filter "@, label_tone(a.focus == Focus::Sessions)),
            piece("  "@, Tone::Plain),
            piece(
                text_or(a.query, "type to fuzzy-filter sessions"@),
                value_tone(a.focus == Focus::Sessions),
            ),
        ],
    }
}

/// The line below the sessions.
fn session_field(app: &App) -> (r: Vec<Span>)
    ensures
        line_view(r@) == session_field_line(app@),
{
    match &app.action {
        SessionAction::Rename { original, input } => line3(
            span(" \u{f044} rename ", tone_of_label(true)),
            span("  ", Tone::Plain),
            span_of(joined3(original.as_str(), " → ", input.as_str()), tone_of_value(true)),
        ),
        SessionAction::ConfirmKill { name } => line3(
            span(" \u{f467} confirm ", tone_of_label(true)),
            span("  ", Tone::Plain),
            span_of(joined3("kill ", name.as_str(), "?  y/N"), tone_of_value(true)),
        ),
        SessionAction::Idle => {
            let active: bool = app.focus == Focus::Sessions;
            line3(
                span(" \u{f002} filter ", tone_of_label(active)),
                span("  ", Tone::Plain),
                span_of(
                    value_or(&app.query, "type to fuzzy-filter sessions"),
                    tone_of_value(active),
                ),
            )
        },
    }
}

/// What the preview says of a directory in which a session could be made.
pub open spec fn dir_head(path: Seq<u8>, new_session: Seq<char>, count: nat) -> Seq<Seq<SpanView>> {
    let target = names::sanitized(text_or(new_session, commands::suggested_name(path)));
    seq![
        seq![
            piece(" CREATE "@, Tone::Marked),
            piece("  \u{f489} "@ + target, Tone::Bold),
        ],
        seq![
            piece(" cwd     "@, Tone::Plain),
            piece(paths::lossy_text(path), Tone::Plain),
        ],
        seq![
            piece(" folders "@, Tone::Plain),
            piece(text::decimal_of(count), Tone::Bold),
            piece("   action "@, Tone::Plain),
            piece("Enter creates detached tmux session here"@, Tone::Plain),
        ],
    ]
}

/// What the preview says of a directory in which a session could be made.
fn dir_heading(path: &DirPath, new_session: &String, count: usize) -> (r: Vec<Vec<Span>>)
    ensures
        line_views(r@) == dir_head(path@, new_session@, count as nat),
{
    let wanted: String = value_or(new_session, commands::suggest_name(path).as_str());
    let target: String = names::sanitize_name(wanted.as_str());
    let mut r: Vec<Vec<Span>> = Vec::new();
    r.push(
        line2(
            span(" CREATE ", Tone::Marked),
            span_of(text::joined("  \u{f489} ", target.as_str()), Tone::Bold),
        ),
    );
    r.push(line2(span(" cwd     ", Tone::Plain), span_of(path.text(), Tone::Plain)));
    r.push(
        line4(
            span(" folders ", Tone::Plain),
            span_of(text::decimal(count as u64), Tone::Bold),
            span("   action ", Tone::Plain),
            span("Enter creates detached tmux session here", Tone::Plain),
        ),
    );
    assert(line_views(r@) =~= dir_head(path@, new_session@, count as nat));
    r
}

/// What the preview says of a session.
pub open spec fn session_head(s: sessions::SessionView) -> Seq<Seq<SpanView>> {
    seq![
        seq![
            piece(" SWITCH "@, Tone::Marked),
            piece("  \u{ebc8} "@ + s.name, Tone::Bold),
            piece("  "@ + s.windows + "w"@, Tone::Plain),
            piece(
                if s.attached {
                    "  attached"@
                } else {
                    "  detached"@
                },
                Tone::Plain,
            ),
        ],
        seq![piece(" pane    "@, Tone::Plain), piece(s.active_line, Tone::Plain)],
        seq![
            piece(" active  "@, Tone::Plain),
            piece(s.activity, Tone::Plain),
            piece("   created "@, Tone::Plain),
            piece(s.created, Tone::Plain),
        ],
    ]
}

/// What the preview says of a session.
fn session_heading(s: &Session) -> (r: Vec<Vec<Span>>)
    ensures
        line_views(r@) == session_head(s@),
{
    let attached: &str = if s.attached {
        "  attached"
    } else {
        "  detached"
    };
    let mut r: Vec<Vec<Span>> = Vec::new();
    r.push(
        line4(
            span(" SWITCH ", Tone::Marked),
            span_of(text::joined("  \u{ebc8} ", s.name.as_str()), Tone::Bold),
            span_of(joined3("  ", s.windows.as_str(), "w"), Tone::Plain),
            span(attached, Tone::Plain),
        ),
    );
    r.push(line2(span(" pane    ", Tone::Plain), span(s.active_line.as_str(), Tone::Plain)));
    r.push(
        line4(
            span(" active  ", Tone::Plain),
            span(s.activity.as_str(), Tone::Plain),
            span("   created ", Tone::Plain),
            span(s.created.as_str(), Tone::Plain),
        ),
    );
    assert(line_views(r@) =~= session_head(s@));
    r
}

/// The names of directories, one in each line, below a heading.
pub open spec fn folder_lines(children: Seq<Seq<u8>>) -> Seq<Seq<SpanView>> {
    seq![seq![piece("  \u{f07c} "@, Tone::Bold), piece("child folders"@, Tone::Bold)]]
        + children.map_values(|p: Seq<u8>| folder_line(p))
}

/// The line of a directory in the preview.
pub open spec fn folder_line(path: Seq<u8>) -> Seq<SpanView> {
    seq![piece("  \u{f07b} "@, Tone::Plain), piece(last_name(path), Tone::Plain)]
}

/// The names of directories, one in each line, below a heading.
fn list_folders(children: &Vec<DirPath>) -> (r: Vec<Vec<Span>>)
    ensures
        line_views(r@) == folder_lines(paths::path_views(children@)),
{
    let ghost list = paths::path_views(children@);
    let mut r: Vec<Vec<Span>> = Vec::new();
    r.push(line2(span("  \u{f07c} ", Tone::Bold), span("child folders", Tone::Bold)));
    let mut i: usize = 0;
    assert(line_views(r@) =~= folder_lines(list.take(0)));
    while i < children.len()
        invariant
            i <= children.len(),
            list == paths::path_views(children@),
            line_views(r@) == folder_lines(list.take(i as int)),
        decreases children.len() - i,
    {
        let ghost before = line_views(r@);
        let line: Vec<Span> = line2(
            span("  \u{f07b} ", Tone::Plain),
            span_of(last_name_text(&children[i]), Tone::Plain),
        );
        r.push(line);
        assert(list[i as int] == children[i as int]@);
        assert(list.take(i + 1) =~= list.take(i as int).push(list[i as int]));
        assert(line_views(r@) =~= before.push(folder_line(list[i as int])));
        assert(folder_lines(list.take(i + 1)) =~= before.push(folder_line(list[i as int])));
        i = i + 1;
    }
    assert(list.take(i as int) =~= list);
    r
}

/// Captured lines as the preview shows them: without escape sequences.
pub open spec fn captured_lines(lines: Seq<Seq<char>>) -> Seq<Seq<SpanView>> {
    lines.map_values(|l: Seq<char>| captured_line(l))
}

/// A captured line as the preview shows it.
pub open spec fn captured_line(line: Seq<char>) -> Seq<SpanView> {
    seq![piece(ansi::plain_from(line, 0), Tone::Plain)]
}

/// Captured lines as the preview shows them.
fn list_captured(lines: &Vec<String>) -> (r: Vec<Vec<Span>>)
    ensures
        line_views(r@) == captured_lines(text::texts(lines@)),
{
    let ghost list = text::texts(lines@);
    let mut r: Vec<Vec<Span>> = Vec::new();
    let mut i: usize = 0;
    assert(line_views(r@) =~= captured_lines(list.take(0)));
    while i < lines.len()
        invariant
            i <= lines.len(),
            list == text::texts(lines@),
            line_views(r@) == captured_lines(list.take(i as int)),
        decreases lines.len() - i,
    {
        let ghost before = line_views(r@);
        let line: Vec<Span> = line1(span_of(ansi::strip_ansi(lines[i].as_str()), Tone::Plain));
        r.push(line);
        assert(list[i as int] == lines[i as int]@);
        assert(list.take(i + 1) =~= list.take(i as int).push(list[i as int]));
        assert(line_views(r@) =~= before.push(captured_line(list[i as int])));
        assert(captured_lines(list.take(i + 1)) =~= before.push(captured_line(list[i as int])));
        i = i + 1;
    }
    assert(list.take(i as int) =~= list);
    r
}

/// The state once the popup has been laid out: what is selected exists wherever there is anything
/// to select, and the lists start so that it can be seen.
pub open spec fn laid_out(a: AppView, areas: Areas) -> AppView {
    let dir_idx = popup::within(a.dir_idx as int, a.walk().rows.len());
    let sess_idx = popup::within(a.sess_idx as int, a.listed().len());
    AppView {
        dir_idx: dir_idx as usize,
        sess_idx: sess_idx as usize,
        ui: UiAreas {
            sessions: areas.session_list,
            dirs: areas.dir_list,
            session_start: first_row(sess_idx, areas.session_list.height as int) as usize,
            dir_start: first_row(dir_idx, areas.dir_list.height as int) as usize,
        },
        ..a.walked()
    }
}

/// The row that a list starts with.
fn start_row(idx: usize, height: u16, len: usize) -> (r: usize)
    requires
        idx < len || idx == 0,
    ensures
        r == first_row(idx as int, height as int),
{
    if idx >= height as usize {
        if height == 0 {
            idx + 1
        } else {
            idx - (height as usize - 1)
        }
    } else {
        0
    }
}

/// Lays the popup out. The result is what the directory box lists, and the places of the sessions
/// that are listed.
fn lay_out(app: &mut App, areas: &Areas) -> (r: (Vec<DirNode>, Vec<usize>))
    ensures
        final(app)@ == laid_out(old(app)@, *areas),
        tree::node_views(r.0@) == old(app)@.walk().rows,
        order::positions(r.1@) == old(app)@.listed(),
        forall|i: int| 0 <= i < r.1.len() ==> (#[trigger] r.1[i]) < final(app).sessions.len(),
{
    let listing: DirListing = app.list_dirs();
    let listed: Vec<usize> = sessions::filtered_session_indices(
        &app.sessions,
        app.query.as_str(),
    );
    assert(order::positions(listed@).len() == listed.len());
    assert(tree::node_views(listing.rows@).len() == listing.rows.len());
    app.dir_idx = popup::clip(app.dir_idx, listing.rows.len());
    app.sess_idx = popup::clip(app.sess_idx, listed.len());
    app.ui = UiAreas {
        sessions: areas.session_list,
        dirs: areas.dir_list,
        session_start: start_row(app.sess_idx, areas.session_list.height, listed.len()),
        dir_start: start_row(app.dir_idx, areas.dir_list.height, listing.rows.len()),
    };
    (listing.rows, listed)
}

/// The number of rows that are shown.
fn shown_count(len: usize, start: usize, height: u16) -> (r: usize)
    ensures
        r == rows_shown(len as int, start as int, height as int),
{
    if len <= start {
        0
    } else if len - start < height as usize {
        len - start
    } else {
        height as usize
    }
}

/// The directories that are shown, and in the directory box the selected one, which the preview
/// tells about: those whose directories are counted.
pub open spec fn counted_dirs(a: AppView, areas: Areas) -> Seq<Seq<u8>> {
    let now = laid_out(a, areas);
    let rows = a.walk().rows;
    let start = now.ui.dir_start as int;
    let shown = Seq::new(
        rows_shown(rows.len() as int, start, areas.dir_list.height as int) as nat,
        |k: int| rows[start + k].path,
    );
    if a.focus == Focus::Dirs {
        shown.push(dir_at(rows, now.dir_idx as int))
    } else {
        shown
    }
}

/// The directory that the preview tells about when the one at `idx` is selected: that one, or the
/// empty path where there is none.
pub open spec fn dir_at(rows: Seq<tree::NodeView>, idx: int) -> Seq<u8> {
    if idx < rows.len() {
        rows[idx].path
    } else {
        Seq::empty()
    }
}

/// The directories that have to be read next before the popup can be drawn: those that are open, as
/// far as they have not been read, and then those whose directories are counted.
pub open spec fn unread_dirs(a: AppView, areas: Areas) -> Seq<Seq<u8>> {
    if a.walk().unread.len() > 0 {
        a.walk().unread
    } else {
        counted_dirs(a, areas).filter(
            |path: Seq<u8>| tree::known_children(a.dir_children, path) is None,
        )
    }
}

/// Adds a directory to a list unless it has been read.
fn note_unread(unread: &mut Vec<DirPath>, cache: &ChildCache, path: &DirPath)
    ensures
        paths::path_views(final(unread)@) == (if tree::known_children(cache@, path@) is None {
            paths::path_views(old(unread)@).push(path@)
        } else {
            paths::path_views(old(unread)@)
        }),
{
    if cache.children(path).is_none() {
        let ghost before = paths::path_views(unread@);
        unread.push(path.clone());
        assert(paths::path_views(unread@) =~= before.push(path@));
    }
}

/// The directory that the preview tells about when the one at `idx` is selected.
fn dir_to_preview(rows: &Vec<DirNode>, idx: usize) -> (r: DirPath)
    ensures
        r@ == dir_at(tree::node_views(rows@), idx as int),
{
    if idx < rows.len() {
        assert(tree::node_views(rows@)[idx as int] == rows[idx as int]@);
        rows[idx].path.clone()
    } else {
        empty_path()
    }
}

/// Tells which directories have to be read next before the popup can be drawn. Once they have been
/// read, more may have to be; there are none left when the result is empty.
pub fn prepare(app: &mut App, areas: &Areas) -> (r: Vec<DirPath>)
    ensures
        final(app)@ == old(app)@.walked(),
        paths::path_views(r@) == unread_dirs(old(app)@, *areas),
{
    let ghost a = app@;
    let listing: DirListing = app.list_dirs();
    assert(paths::path_views(listing.unread@).len() == listing.unread.len());
    if listing.unread.len() > 0 {
        return listing.unread;
    }
    let ghost rows = a.walk().rows;
    let ghost pick = |path: Seq<u8>| tree::known_children(a.dir_children, path) is None;
    assert(tree::node_views(listing.rows@).len() == listing.rows.len());
    let idx: usize = popup::clip(app.dir_idx, listing.rows.len());
    let start: usize = start_row(idx, areas.dir_list.height, listing.rows.len());
    let count: usize = shown_count(listing.rows.len(), start, areas.dir_list.height);
    let ghost shown = Seq::new(count as nat, |k: int| rows[start + k].path);
    let mut unread: Vec<DirPath> = Vec::new();
    let mut k: usize = 0;
    assert(paths::path_views(unread@) =~= shown.take(0).filter(pick));
    while k < count
        invariant
            k <= count,
            count > 0 ==> start + count <= listing.rows.len(),
            rows == tree::node_views(listing.rows@),
            shown == Seq::new(count as nat, |k: int| rows[start + k].path),
            app@.dir_children == a.dir_children,
            pick == (|path: Seq<u8>| tree::known_children(a.dir_children, path) is None),
            paths::path_views(unread@) == shown.take(k as int).filter(pick),
        decreases count - k,
    {
        proof {
            assert(shown.take(k + 1) =~= shown.take(k as int).push(shown[k as int]));
            shown.take(k as int).lemma_filter_push(shown[k as int], pick);
            assert(rows[start + k] == listing.rows[start + k]@);
        }
        note_unread(&mut unread, &app.dir_children, &listing.rows[start + k].path);
        k = k + 1;
    }
    assert(shown.take(k as int) =~= shown);
    if app.focus == Focus::Dirs {
        let path: DirPath = dir_to_preview(&listing.rows, idx);
        proof {
            shown.lemma_filter_push(path@, pick);
        }
        note_unread(&mut unread, &app.dir_children, &path);
        assert(counted_dirs(a, *areas) =~= shown.push(path@));
    } else {
        assert(counted_dirs(a, *areas) =~= shown);
    }
    unread
}

/// What the popup shows.
pub struct Screen {
    pub header: Vec<Span>,
    pub session_title: Vec<Span>,
    pub session_rows: Vec<Vec<Span>>,
    pub session_field: Vec<Span>,
    pub dir_rows: Vec<Vec<Span>>,
    /// Where to show that there are directories above those in the list.
    pub above: Option<Rect>,
    /// Where to show that there are directories below those in the list.
    pub below: Option<Rect>,
    pub dir_field: Vec<Span>,
    pub preview_head: Option<Vec<Vec<Span>>>,
    pub preview_lines: Vec<Vec<Span>>,
}

/// The value of a [`Screen`].
#[verifier::ext_equal]
pub struct ScreenView {
    pub header: Seq<SpanView>,
    pub session_title: Seq<SpanView>,
    pub session_rows: Seq<Seq<SpanView>>,
    pub session_field: Seq<SpanView>,
    pub dir_rows: Seq<Seq<SpanView>>,
    pub above: Option<Rect>,
    pub below: Option<Rect>,
    pub dir_field: Seq<SpanView>,
    pub preview_head: Option<Seq<Seq<SpanView>>>,
    pub preview_lines: Seq<Seq<SpanView>>,
}

/// The value of lines that may be missing.
pub open spec fn line_views_opt(lines: Option<Vec<Vec<Span>>>) -> Option<Seq<Seq<SpanView>>> {
    match lines {
        Some(lines) => Some(line_views(lines@)),
        None => None,
    }
}

impl View for Screen {
    type V = ScreenView;

    open spec fn view(&self) -> ScreenView {
        ScreenView {
            header: line_view(self.header@),
            session_title: line_view(self.session_title@),
            session_rows: line_views(self.session_rows@),
            session_field: line_view(self.session_field@),
            dir_rows: line_views(self.dir_rows@),
            above: self.above,
            below: self.below,
            dir_field: line_view(self.dir_field@),
            preview_head: line_views_opt(self.preview_head),
            preview_lines: line_views(self.preview_lines@),
        }
    }
}

/// The rows of sessions that are shown.
pub open spec fn session_rows(now: AppView, listed: Seq<int>, height: int) -> Seq<Seq<SpanView>> {
    let start = now.ui.session_start as int;
    Seq::new(
        rows_shown(listed.len() as int, start, height) as nat,
        |k: int|
            session_row(
                now.sessions[listed[start + k]],
                now.focus == Focus::Sessions && start + k == now.sess_idx,
            ),
    )
}

/// The rows of directories that are shown.
pub open spec fn dir_rows(now: AppView, rows: Seq<tree::NodeView>, height: int) -> Seq<
    Seq<SpanView>,
> {
    let start = now.ui.dir_start as int;
    Seq::new(
        rows_shown(rows.len() as int, start, height) as nat,
        |k: int|
            dir_row(now, rows[start + k], now.focus == Focus::Dirs && start + k == now.dir_idx),
    )
}

/// The cell in the last column but one of a list, in its first row or its last one.
pub open spec fn arrow_cell(list: Rect, at_end: bool) -> Rect {
    Rect {
        x: ((list.x + layout::capped_difference(list.width as int, 2)) % 0x1_0000) as u16,
        y: if at_end {
            ((list.y + layout::capped_difference(list.height as int, 1)) % 0x1_0000) as u16
        } else {
            list.y
        },
        width: 1,
        height: 1,
    }
}

/// What the preview says above its lines, if it says anything.
pub open spec fn preview_head(
    now: AppView,
    rows: Seq<tree::NodeView>,
    listed: Seq<int>,
) -> Option<Seq<Seq<SpanView>>> {
    match now.focus {
        Focus::Dirs => {
            let path = dir_at(rows, now.dir_idx as int);
            Some(dir_head(path, now.new_session, child_count(now.dir_children, path)))
        },
        Focus::Sessions => if now.sess_idx < listed.len() {
            Some(session_head(now.sessions[listed[now.sess_idx as int]]))
        } else {
            None
        },
    }
}

/// The lines of the preview.
pub open spec fn preview_lines(
    now: AppView,
    rows: Seq<tree::NodeView>,
    listed: Seq<int>,
) -> Seq<Seq<SpanView>> {
    match now.focus {
        Focus::Dirs => folder_lines(
            match tree::known_children(now.dir_children, dir_at(rows, now.dir_idx as int)) {
                Some(children) => children,
                None => Seq::empty(),
            },
        ),
        Focus::Sessions => if now.sess_idx < listed.len() {
            captured_lines(now.sessions[listed[now.sess_idx as int]].preview)
        } else {
            seq![seq![piece("No match"@, Tone::Bold)]]
        },
    }
}

/// What the popup shows.
pub open spec fn shown(a: AppView, areas: Areas) -> ScreenView {
    let now = laid_out(a, areas);
    let rows = a.walk().rows;
    let listed = a.listed();
    ScreenView {
        header: header_line(now),
        session_title: session_title_line(listed.len()),
        session_rows: session_rows(now, listed, areas.session_list.height as int),
        session_field: session_field_line(now),
        dir_rows: dir_rows(now, rows, areas.dir_list.height as int),
        above: if now.ui.dir_start > 0 {
            Some(arrow_cell(areas.dir_list, false))
        } else {
            None
        },
        below: if now.ui.dir_start + areas.dir_list.height < rows.len() {
            Some(arrow_cell(areas.dir_list, true))
        } else {
            None
        },
        dir_field: dir_field_line(now),
        preview_head: preview_head(now, rows, listed),
        preview_lines: preview_lines(now, rows, listed),
    }
}

/// The cell in the last column but one of a list, in its first row or its last one.
fn arrow(list: Rect, at_end: bool) -> (r: Rect)
    ensures
        r == arrow_cell(list, at_end),
{
    let right: u16 = if list.width < 2 {
        0
    } else {
        list.width - 2
    };
    let down: u16 = if !at_end || list.height < 1 {
        0
    } else {
        list.height - 1
    };
    Rect { x: list.x.wrapping_add(right), y: list.y.wrapping_add(down), width: 1, height: 1 }
}

/// The rows of sessions that are shown.
fn list_sessions(app: &App, listed: &Vec<usize>, height: u16) -> (r: Vec<Vec<Span>>)
    requires
        forall|i: int| 0 <= i < listed.len() ==> (#[trigger] listed[i]) < app.sessions.len(),
    ensures
        line_views(r@) == session_rows(app@, order::positions(listed@), height as int),
{
    let ghost places = order::positions(listed@);
    let ghost all = session_rows(app@, places, height as int);
    let start: usize = app.ui.session_start;
    let count: usize = shown_count(listed.len(), start, height);
    let mut r: Vec<Vec<Span>> = Vec::new();
    let mut k: usize = 0;
    assert(line_views(r@) =~= all.take(0));
    while k < count
        invariant
            k <= count,
            count > 0 ==> start + count <= listed.len(),
            start == app.ui.session_start,
            places == order::positions(listed@),
            forall|i: int| 0 <= i < listed.len() ==> (#[trigger] listed[i]) < app.sessions.len(),
            all == session_rows(app@, places, height as int),
            all.len() == count,
            line_views(r@) == all.take(k as int),
        decreases count - k,
    {
        let i: usize = listed[start + k];
        let selected: bool = app.focus == Focus::Sessions && start + k == app.sess_idx;
        let line: Vec<Span> = session_line(&app.sessions[i], selected);
        assert(places[start + k] == i as int);
        assert(app@.sessions[i as int] == app.sessions[i as int]@);
        assert(all[k as int] == line_view(line@));
        let ghost before = line_views(r@);
        r.push(line);
        assert(line_views(r@) =~= before.push(line_view(line@)));
        assert(all.take(k + 1) =~= all.take(k as int).push(all[k as int]));
        k = k + 1;
    }
    assert(all.take(k as int) =~= all);
    r
}

/// The rows of directories that are shown.
fn list_dirs(app: &App, rows: &Vec<DirNode>, height: u16) -> (r: Vec<Vec<Span>>)
    ensures
        line_views(r@) == dir_rows(app@, tree::node_views(rows@), height as int),
{
    let ghost nodes = tree::node_views(rows@);
    let ghost all = dir_rows(app@, nodes, height as int);
    let start: usize = app.ui.dir_start;
    let count: usize = shown_count(rows.len(), start, height);
    let mut r: Vec<Vec<Span>> = Vec::new();
    let mut k: usize = 0;
    assert(line_views(r@) =~= all.take(0));
    while k < count
        invariant
            k <= count,
            count > 0 ==> start + count <= rows.len(),
            start == app.ui.dir_start,
            nodes == tree::node_views(rows@),
            all == dir_rows(app@, nodes, height as int),
            all.len() == count,
            line_views(r@) == all.take(k as int),
        decreases count - k,
    {
        let selected: bool = app.focus == Focus::Dirs && start + k == app.dir_idx;
        let line: Vec<Span> = dir_line(app, &rows[start + k], selected);
        assert(nodes[start + k] == rows[start + k]@);
        assert(all[k as int] == line_view(line@));
        let ghost before = line_views(r@);
        r.push(line);
        assert(line_views(r@) =~= before.push(line_view(line@)));
        assert(all.take(k + 1) =~= all.take(k as int).push(all[k as int]));
        k = k + 1;
    }
    assert(all.take(k as int) =~= all);
    r
}

/// Lays the popup out and tells what it shows. The directories that [`prepare`] names are to have been
/// read before: one that has not been shows nothing inside.
pub fn draw(app: &mut App, areas: &Areas) -> (r: Screen)
    ensures
        final(app)@ == laid_out(old(app)@, *areas),
        r@ == shown(old(app)@, *areas),
{
    let (rows, listed) = lay_out(app, areas);
    let ghost places = order::positions(listed@);
    assert(places.len() == listed.len());
    assert(tree::node_views(rows@).len() == rows.len());
    let mut preview_head: Option<Vec<Vec<Span>>> = None;
    let preview_lines: Vec<Vec<Span>>;
    match app.focus {
        Focus::Dirs => {
            let path: DirPath = dir_to_preview(&rows, app.dir_idx);
            let children: Vec<DirPath> = match app.dir_children.children(&path) {
                Some(children) => children,
                None => Vec::new(),
            };
            assert(paths::path_views(children@).len() == children.len());
            assert(tree::known_children(app@.dir_children, path@) is None ==> paths::path_views(
                children@,
            ) =~= Seq::empty());
            preview_head = Some(dir_heading(&path, &app.new_session, children.len()));
            preview_lines = list_folders(&children);
        },
        Focus::Sessions => {
            if app.sess_idx < listed.len() {
                let i: usize = listed[app.sess_idx];
                assert(places[app.sess_idx as int] == i as int);
                assert(app@.sessions[i as int] == app.sessions[i as int]@);
                preview_head = Some(session_heading(&app.sessions[i]));
                preview_lines = list_captured(&app.sessions[i].preview);
            } else {
                let mut lines: Vec<Vec<Span>> = Vec::new();
                lines.push(line1(span("No match", Tone::Bold)));
                assert(line_views(lines@) =~= seq![seq![piece("No match"@, Tone::Bold)]]);
                preview_lines = lines;
            }
        },
    }
    let height: usize = areas.dir_list.height as usize;
    let above: Option<Rect> = if app.ui.dir_start > 0 {
        Some(arrow(areas.dir_list, false))
    } else {
        None
    };
    let below: Option<Rect> = if rows.len() > height && app.ui.dir_start < rows.len() - height {
        Some(arrow(areas.dir_list, true))
    } else {
        None
    };
    Screen {
        header: header(app),
        session_title: session_title(listed.len()),
        session_rows: list_sessions(app, &listed, areas.session_list.height),
        session_field: session_field(app),
        dir_rows: list_dirs(app, &rows, areas.dir_list.height),
        above,
        below,
        dir_field: dir_field(app),
        preview_head,
        preview_lines,
    }
}

} // verus!
