use ratatui::layout::{Constraint, Layout};
use tmux_jump::input::{handle_input, Input};
use tmux_jump::layout::{arrange, preview_area, Areas};
use tmux_jump::paths::DirPath;
use tmux_jump::popup::{App, Focus, Rect, SessionAction};
use tmux_jump::screen::{dir_title, draw, help, prepare, preview_title, Screen, Span, Tone};
use tmux_jump::sessions::Session;
use tmux_jump::tree::{cached_child_dirs, DirEntry};
use tmux_jump::updates::open;

fn session(name: &str) -> Session {
    Session {
        name: name.into(),
        windows: "2".into(),
        attached: false,
        created: "1d ago".into(),
        activity: "5m ago".into(),
        active_line: "main · vim · /w".into(),
        active_pane: None,
        activity_epoch: 0,
        current: false,
        preview: vec!["\x1b[1mhello\x1b[0m".into(), String::new()],
    }
}

fn entry(name: &str) -> DirEntry {
    DirEntry { name: name.as_bytes().to_vec(), is_dir: true, is_symlink: false }
}

fn rect(x: u16, y: u16, width: u16, height: u16) -> Rect {
    Rect { x, y, width, height }
}

fn app(count: usize) -> App {
    let sessions: Vec<Session> = (0..count).map(|n| session(&format!("s{n}"))).collect();
    open(Vec::new(), sessions, None, None, Some(DirPath::from_text("/h")))
}

fn read_all(app: &mut App, areas: &Areas) {
    loop {
        let unread = prepare(app, areas);
        if unread.is_empty() {
            break;
        }
        for path in unread {
            let entries = match path.text().as_str() {
                "/h" => vec![entry("a"), entry("b")],
                "/h/a" => vec![entry("x")],
                _ => Vec::new(),
            };
            cached_child_dirs(&mut app.dir_children, &path, entries);
        }
    }
}

fn text(line: &[Span]) -> String {
    line.iter().map(|span| span.text.as_str()).collect()
}

fn texts(lines: &[Vec<Span>]) -> Vec<String> {
    lines.iter().map(|line| text(line)).collect()
}

fn tones(line: &[Span]) -> Vec<Tone> {
    line.iter().map(|span| span.tone).collect()
}

fn small_areas() -> Areas {
    let mut areas = arrange(rect(0, 0, 100, 40));
    areas.session_list = rect(1, 3, 40, 3);
    areas.dir_list = rect(1, 20, 40, 2);
    areas
}

fn drawn(app: &mut App) -> Screen {
    let areas = small_areas();
    read_all(app, &areas);
    draw(app, &areas)
}

#[test]
fn screen_is_shared_out() {
    let areas = arrange(rect(0, 0, 100, 43));
    assert_eq!(areas.header, rect(0, 0, 100, 2));
    assert_eq!(areas.body, rect(0, 2, 100, 40));
    assert_eq!(areas.help, rect(0, 42, 100, 1));
    assert_eq!(areas.column, rect(0, 2, 42, 40));
    assert_eq!(areas.preview_box, rect(42, 2, 58, 40));
    assert_eq!(areas.session_box, rect(0, 2, 42, 20));
    assert_eq!(areas.dir_box, rect(0, 22, 42, 20));
    assert_eq!(areas.session_list, rect(1, 3, 40, 16));
    assert_eq!(areas.session_field, rect(1, 19, 40, 2));
    assert_eq!(areas.dir_list, rect(1, 23, 40, 17));
    assert_eq!(areas.dir_field, rect(1, 40, 40, 1));
    assert_eq!(areas.preview_head, rect(44, 3, 54, 5));
    assert_eq!(areas.preview_body, rect(44, 8, 54, 33));
}

fn is_inside(outer: Rect, inner: Rect) -> bool {
    inner.x >= outer.x
        && inner.y >= outer.y
        && inner.x as u32 + inner.width as u32 <= outer.x as u32 + outer.width as u32
        && inner.y as u32 + inner.height as u32 <= outer.y as u32 + outer.height as u32
}

#[test]
fn every_screen_holds_its_parts() {
    for width in (0..150u16).step_by(3) {
        for height in (0..26u16).chain((26..60).step_by(7)) {
            let screen = rect(3, 5, width, height);
            let areas = arrange(screen);
            for part in [areas.header, areas.body, areas.help, areas.column, areas.preview_box] {
                assert!(is_inside(screen, part), "{screen:?} {part:?}");
            }
            for part in [areas.session_box, areas.dir_box] {
                assert!(is_inside(areas.column, part), "{screen:?} {part:?}");
            }
            for part in [areas.session_list, areas.session_field] {
                assert!(is_inside(areas.session_box, part), "{screen:?} {part:?}");
            }
            for part in [areas.dir_list, areas.dir_field] {
                assert!(is_inside(areas.dir_box, part), "{screen:?} {part:?}");
            }
            assert!(areas.session_box.y + areas.session_box.height <= areas.dir_box.y);
            assert!(areas.column.x + areas.column.width <= areas.preview_box.x);
            let room = |rows: u16, others: u16, all: u16| {
                if rows + others <= all { all - others } else { rows.min(all) }
            };
            assert_eq!(areas.body.height, room(8, 3, height), "{screen:?}");
            assert_eq!(areas.header.height + areas.body.height + areas.help.height, height);
            assert!(areas.header.height <= 2 && areas.help.height <= 1);
            assert_eq!(areas.column.width, (42 * width + 50) / 100, "{screen:?}");
            assert_eq!(areas.column.width + areas.preview_box.width, width);
            let column = areas.column.height;
            let sessions = if column >= 16 { (column + 1) / 2 } else { column - column.min(8) };
            assert_eq!(areas.session_box.height, sessions, "{screen:?}");
            assert_eq!(areas.session_box.height + areas.dir_box.height, column);
            let inside = areas.session_box.height.saturating_sub(2);
            assert_eq!(areas.session_list.height, room(1, 2, inside), "{screen:?}");
            assert_eq!(areas.session_list.height + areas.session_field.height, inside);
            let inside = areas.dir_box.height.saturating_sub(2);
            assert_eq!(areas.dir_list.height, room(1, 1, inside), "{screen:?}");
            assert_eq!(areas.dir_list.height + areas.dir_field.height, inside);
            let inside = areas.preview_box.height.saturating_sub(2);
            assert_eq!(areas.preview_body.height, room(1, 5, inside), "{screen:?}");
            assert_eq!(areas.preview_head.height + areas.preview_body.height, inside);
        }
    }
}

#[test]
fn low_screen_keeps_the_directories() {
    let areas = arrange(rect(0, 0, 80, 18));
    assert_eq!(areas.body, rect(0, 2, 80, 15));
    assert_eq!(areas.session_box, rect(0, 2, 34, 7));
    assert_eq!(areas.dir_box, rect(0, 9, 34, 8));
    let areas = arrange(rect(0, 0, 80, 6));
    assert_eq!(areas.body, rect(0, 0, 80, 6));
    assert_eq!((areas.session_box.height, areas.dir_box.height), (0, 6));
}

#[test]
fn parts_are_those_of_the_layout_library() {
    let whole = ratatui::layout::Rect { x: 1, y: 2, width: 77, height: 31 };
    let parts = Layout::vertical([Constraint::Length(2), Constraint::Min(8), Constraint::Length(1)]).split(whole);
    let areas = arrange(rect(1, 2, 77, 31));
    for (ours, theirs) in [areas.header, areas.body, areas.help].iter().zip(parts.iter()) {
        assert_eq!((ours.x, ours.y, ours.width, ours.height), (theirs.x, theirs.y, theirs.width, theirs.height));
    }
    let border = ratatui::widgets::Block::default().borders(ratatui::widgets::Borders::ALL).title("x");
    let inner = border.inner(ratatui::layout::Rect {
        x: areas.dir_box.x,
        y: areas.dir_box.y,
        width: areas.dir_box.width,
        height: areas.dir_box.height,
    });
    assert_eq!((areas.dir_list.x, areas.dir_list.y, areas.dir_list.width), (inner.x, inner.y, inner.width));
}

#[test]
fn preview_keeps_off_its_border() {
    assert_eq!(preview_area(rect(10, 5, 30, 20)), rect(12, 6, 26, 18));
    assert_eq!(preview_area(rect(10, 5, 3, 1)), rect(12, 6, 0, 0));
}

#[test]
fn rows_tell_what_is_selected() {
    let mut app = app(2);
    app.sessions[1].attached = true;
    app.sessions[1].current = true;
    let screen = drawn(&mut app);
    assert_eq!(text(&screen.session_title), " \u{ebc8} sessions  2 total");
    assert_eq!(
        texts(&screen.session_rows),
        vec![" \u{f0b9f} \u{ebc8} s0", "   \u{ebc8} s1 \u{f0208}  ← current"],
    );
    assert_eq!(tones(&screen.session_rows[0]), vec![Tone::Marked, Tone::Marked]);
    assert_eq!(tones(&screen.session_rows[1]), vec![Tone::Plain, Tone::Plain, Tone::Plain, Tone::Dim]);
    assert_eq!(texts(&screen.dir_rows), vec!["   ▾ \u{f07b} ~  2", "     ▸ \u{f07b} a  1"]);

    app.focus = Focus::Dirs;
    app.dir_idx = 1;
    let screen = drawn(&mut app);
    assert_eq!(texts(&screen.session_rows)[0], "   \u{ebc8} s0");
    assert_eq!(texts(&screen.dir_rows)[1], " \u{f0b9f}   ▸ \u{f07b} a  1");
    assert_eq!(tones(&screen.dir_rows[1]), vec![Tone::Marked, Tone::Marked]);
}

#[test]
fn lists_start_so_that_the_selection_shows() {
    let mut app = app(5);
    app.sess_idx = 4;
    let screen = drawn(&mut app);
    assert_eq!(app.ui.session_start, 2);
    assert_eq!(screen.session_rows.len(), 3);
    assert_eq!(texts(&screen.session_rows)[2], " \u{f0b9f} \u{ebc8} s4");
    assert_eq!(app.ui.sessions, rect(1, 3, 40, 3));
    // A selection behind the end becomes the last.
    app.sess_idx = 99;
    drawn(&mut app);
    assert_eq!(app.sess_idx, 4);
    assert_eq!((screen.above, screen.below), (None, Some(rect(39, 21, 1, 1))));
    app.dir_idx = 99;
    let screen = drawn(&mut app);
    assert_eq!((app.dir_idx, app.ui.dir_start), (2, 1));
    assert_eq!((screen.above, screen.below), (Some(rect(39, 20, 1, 1)), None));
    assert_eq!(texts(&screen.dir_rows), vec!["     ▸ \u{f07b} a  1", "       \u{f07b} b"]);
}

#[test]
fn list_without_rows_shows_none() {
    let mut app = app(2);
    let mut areas = small_areas();
    areas.session_list.height = 0;
    areas.dir_list.height = 0;
    read_all(&mut app, &areas);
    let screen = draw(&mut app, &areas);
    assert!(screen.session_rows.is_empty());
    assert!(screen.dir_rows.is_empty());
    assert_eq!((app.ui.session_start, app.ui.dir_start), (1, 1));
}

#[test]
fn unread_directories_are_asked_for() {
    let mut app = app(1);
    let areas = small_areas();
    let asked: Vec<String> = prepare(&mut app, &areas).iter().map(|p| p.text()).collect();
    assert_eq!(asked, vec!["/h"]);
    cached_child_dirs(&mut app.dir_children, &DirPath::from_text("/h"), vec![entry("a"), entry("b")]);
    // What is selected stays so while directories are being read.
    app.dir_idx = 2;
    let asked: Vec<String> = prepare(&mut app, &areas).iter().map(|p| p.text()).collect();
    assert_eq!(asked, vec!["/h/a", "/h/b"]);
    assert_eq!(app.dir_idx, 2);
    app.focus = Focus::Dirs;
    app.dir_query = "nothing like it".into();
    let asked: Vec<String> = prepare(&mut app, &areas).iter().map(|p| p.text()).collect();
    assert_eq!(asked, vec![""]);
}

#[test]
fn header_tells_focus_index_and_notice() {
    let mut app = app(1);
    app.notice = "hello".into();
    assert_eq!(text(&drawn(&mut app).header), " active  SESSION   cache: indexing   hello");
    app.focus = Focus::Dirs;
    let header = drawn(&mut app).header;
    assert_eq!(text(&header), " active  DIRECTORY   cache: indexing   hello");
    assert_eq!(tones(&header), vec![Tone::Marked, Tone::Bold, Tone::Plain, Tone::Bold]);
}

#[test]
fn fields_show_what_was_typed() {
    let mut app = app(1);
    let screen = drawn(&mut app);
    assert_eq!(text(&screen.session_field), " \u{f002} filter   type to fuzzy-filter sessions");
    assert_eq!(tones(&screen.session_field), vec![Tone::Marked, Tone::Plain, Tone::Bold]);
    assert_eq!(
        text(&screen.dir_field),
        " \u{f002} search \u{e0b0} type to filter directories  │   \u{f457} name \u{e0b0} <directory name>",
    );
    app.query = "s".into();
    app.focus = Focus::Dirs;
    app.dir_query = " ".into();
    app.new_session = "mine".into();
    let screen = drawn(&mut app);
    assert_eq!(text(&screen.session_field), " \u{f002} filter   s");
    assert_eq!(tones(&screen.session_field), vec![Tone::Dim, Tone::Plain, Tone::Plain]);
    assert_eq!(text(&screen.dir_field), " \u{f002} search \u{e0b0}    │   \u{f457} name \u{e0b0} mine");
    assert_eq!(
        tones(&screen.dir_field),
        vec![Tone::Marked, Tone::Plain, Tone::Bold, Tone::Plain, Tone::Dim, Tone::Plain, Tone::Plain],
    );
    app.action = SessionAction::Rename { original: "old".into(), input: "new".into() };
    assert_eq!(text(&drawn(&mut app).session_field), " \u{f044} rename   old → new");
    app.action = SessionAction::ConfirmKill { name: "old".into() };
    assert_eq!(text(&drawn(&mut app).session_field), " \u{f467} confirm   kill old?  y/N");
}

#[test]
fn preview_tells_about_the_session() {
    let mut app = app(1);
    let screen = drawn(&mut app);
    assert_eq!(
        texts(&screen.preview_head.unwrap()),
        vec![
            " SWITCH   \u{ebc8} s0  2w  detached",
            " pane    main · vim · /w",
            " active  5m ago   created 1d ago",
        ],
    );
    assert_eq!(texts(&screen.preview_lines), vec!["hello", ""]);
    app.sessions[0].attached = true;
    assert_eq!(texts(&drawn(&mut app).preview_head.unwrap())[0], " SWITCH   \u{ebc8} s0  2w  attached");
    app.query = "zzz".into();
    let screen = drawn(&mut app);
    assert!(screen.preview_head.is_none());
    assert_eq!(texts(&screen.preview_lines), vec!["No match"]);
}

#[test]
fn preview_tells_about_the_directory() {
    let mut app = app(1);
    app.focus = Focus::Dirs;
    let screen = drawn(&mut app);
    assert_eq!(
        texts(&screen.preview_head.unwrap()),
        vec![
            " CREATE   \u{f489} h",
            " cwd     /h",
            " folders 2   action Enter creates detached tmux session here",
        ],
    );
    assert_eq!(texts(&screen.preview_lines), vec!["  \u{f07c} child folders", "  \u{f07b} a", "  \u{f07b} b"]);
    app.new_session = "my api".into();
    assert_eq!(texts(&drawn(&mut app).preview_head.unwrap())[0], " CREATE   \u{f489} my_api");
    app.new_session = String::new();
    app.dir_query = "zzz".into();
    let screen = drawn(&mut app);
    assert_eq!(texts(&screen.preview_head.unwrap())[0], " CREATE   \u{f489} home");
    assert_eq!(texts(&screen.preview_lines), vec!["  \u{f07c} child folders"]);
}

#[test]
fn fixed_texts() {
    assert_eq!(text(&dir_title()), " \u{f07b} project tree");
    assert_eq!(text(&preview_title()), " \u{f0219} preview");
    assert_eq!(
        text(&help()),
        "  ↑/↓  switch boxes   ←/→  dirs   Enter  open/switch   ^R/^D  rename/kill   PgUp/PgDn  preview",
    );
}

fn extents(constraints: &[Constraint], x: u16, width: u16) -> Vec<(u16, u16)> {
    let whole = ratatui::layout::Rect { x, y: 7, width, height: 3 };
    let parts = Layout::horizontal(constraints.to_vec()).split(whole);
    let mut end = x;
    for part in parts.iter() {
        assert_eq!((part.y, part.height), (7, 3));
        assert!(part.x >= end, "{constraints:?} {width} {parts:?}");
        end = part.x + part.width;
    }
    assert!(end <= x.saturating_add(width), "{constraints:?} {width} {parts:?}");
    parts.iter().map(|part| (part.x, part.width)).collect()
}

#[test]
fn layout_library_gives_lengths_their_cells_and_a_least_size_the_rest() {
    let lists: [&[u16]; 7] = [&[], &[1], &[0], &[5], &[2, 1], &[0, 3, 9], &[4, 4, 4, 4]];
    for lengths in lists {
        for place in 0..=lengths.len() {
            for least in [0u16, 1, 8, 20] {
                let mut constraints: Vec<Constraint> =
                    lengths.iter().map(|n| Constraint::Length(*n)).collect();
                constraints.insert(place, Constraint::Min(least));
                let asked: u16 = lengths.iter().sum::<u16>() + least;
                for x in [0u16, 3, 65_400] {
                    for more in [0u16, 1, 2, 13, 60] {
                        let parts = extents(&constraints, x, asked + more);
                        for (k, (_, width)) in parts.iter().enumerate() {
                            let expected = if k < place {
                                lengths[k]
                            } else if k == place {
                                least + more
                            } else {
                                lengths[k - 1]
                            };
                            assert_eq!(*width, expected, "{constraints:?} {x} {more}");
                        }
                    }
                    for all in 0..asked {
                        let parts = extents(&constraints, x, all);
                        assert_eq!(parts[place].1, least.min(all), "{constraints:?} {x} {all}");
                        assert_eq!(parts.iter().map(|part| part.1).sum::<u16>(), all);
                        for (k, length) in lengths.iter().enumerate() {
                            let width = parts[if k < place { k } else { k + 1 }].1;
                            assert!(width <= *length, "{constraints:?} {x} {all}");
                        }
                    }
                }
            }
        }
    }
}

#[test]
fn layout_library_rounds_percentages_to_the_nearest_cell() {
    for percentage in (0..=100u16).step_by(7).chain([42, 50, 58]) {
        for width in (0..130u16).chain([999, 4_321]) {
            let asked = ((percentage as u32 * width as u32 + 50) / 100) as u16;
            let rest = Constraint::Percentage(100 - percentage);
            let parts = extents(&[Constraint::Percentage(percentage), rest], 2, width);
            assert_eq!((parts[0].1, parts[1].1), (asked, width - asked), "{percentage} {width}");
            let most = ((100 - percentage) as u32 * width as u32 / 100) as u16;
            for least in [0, most, most + 1, most + 9, width, width + 5] {
                let constraints = [Constraint::Percentage(percentage), Constraint::Min(least)];
                let parts = extents(&constraints, 2, width);
                let first = if least <= most { asked } else { width - least.min(width) };
                assert_eq!((parts[0].1, parts[1].1), (first, width - first), "{constraints:?} {width}");
            }
        }
    }
}

#[test]
fn press_selects_the_row_that_is_shown() {
    let mut app = app(5);
    app.sess_idx = 4;
    app.dir_idx = 2;
    drawn(&mut app);
    let list = app.ui.sessions;
    handle_input(&mut app, Input::Press { column: list.x, row: list.y + 1 });
    assert_eq!(app.selected_session().as_deref(), Some("s3"));
    let list = app.ui.dirs;
    handle_input(&mut app, Input::Press { column: list.x + 5, row: list.y });
    assert_eq!(app.focus, Focus::Dirs);
    let screen = drawn(&mut app);
    assert_eq!(app.list_dirs().rows[app.dir_idx].path.text(), "/h/a");
    assert!(texts(&screen.dir_rows).contains(&" \u{f0b9f}   ▸ \u{f07b} a  1".to_string()));
}
