use tmux_jump::indexing::{build_dir_cache, DirWalk};
use tmux_jump::paths::DirPath;
use tmux_jump::store::{
    cache_draft_path, cache_is_stale, cache_path, cached_paths, current_session_name,
    dir_cache_text, load_last_session, save_last_session, state_path, store_dir, Age,
    MAX_CACHE_DIRS,
};
use tmux_jump::tree::DirEntry;

fn path(text: &str) -> DirPath {
    DirPath::from_text(text)
}

fn texts(paths: &[DirPath]) -> Vec<String> {
    paths.iter().map(|p| p.text()).collect()
}

#[test]
fn files_are_kept_in_the_cache_directory() {
    let home = path("/home/me");
    let cache = path("/var/cache");
    assert_eq!(store_dir(None, Some(&home)).text(), "/home/me/.cache/tmux-jump");
    assert_eq!(cache_path(None, Some(&home)).text(), "/home/me/.cache/tmux-jump/dirs.txt");
    assert_eq!(cache_path(Some(&cache), Some(&home)).text(), "/var/cache/tmux-jump/dirs.txt");
    assert_eq!(cache_path(None, None).text(), "/.cache/tmux-jump/dirs.txt");
    assert_eq!(cache_draft_path(Some(&cache), None).text(), "/var/cache/tmux-jump/dirs.tmp");
    assert_eq!(state_path(Some(&cache), None).text(), "/var/cache/tmux-jump/state");
    assert_eq!(state_path(Some(&path("")), None).text(), "tmux-jump/state");
}

#[test]
fn stored_index_is_read_back() {
    let index = vec![path("/a"), path("/b c"), path("/ä")];
    let text = dir_cache_text(&index);
    assert_eq!(text, "/a\n/b c\n/ä\n");
    assert_eq!(texts(&cached_paths(&text)), texts(&index));
    assert!(cached_paths("").is_empty());
    assert_eq!(dir_cache_text(&Vec::new()), "");
}

#[test]
fn stored_index_is_bounded() {
    let index: Vec<DirPath> = (0..MAX_CACHE_DIRS + 5).map(|n| path(&format!("/{n}"))).collect();
    let text = dir_cache_text(&index);
    assert_eq!(text.lines().count(), MAX_CACHE_DIRS);
    let longer = format!("{text}/one\n/two\n");
    assert_eq!(cached_paths(&longer).len(), MAX_CACHE_DIRS);
}

#[test]
fn index_is_stale_after_a_day() {
    let day = 60 * 60 * 24;
    assert!(cache_is_stale(None));
    assert!(!cache_is_stale(Some(Age { secs: 0, nanos: 0 })));
    assert!(!cache_is_stale(Some(Age { secs: day, nanos: 0 })));
    assert!(cache_is_stale(Some(Age { secs: day, nanos: 1 })));
    assert!(cache_is_stale(Some(Age { secs: day + 1, nanos: 0 })));
}

#[test]
fn last_session_is_read_back() {
    assert_eq!(save_last_session(Some("api")).as_deref(), Some("api\n"));
    assert_eq!(save_last_session(None), None);
    assert_eq!(load_last_session("api\n").as_deref(), Some("api"));
    assert_eq!(load_last_session("  \n"), None);
    assert_eq!(load_last_session(&save_last_session(Some("my-api")).unwrap()).as_deref(), Some("my-api"));
    assert_eq!(current_session_name(" main\n").as_deref(), Some("main"));
    assert_eq!(current_session_name("\n"), None);
}

#[test]
fn walk_visits_children_in_order_before_what_was_pending() {
    let entry = |name: &str| DirEntry { name: name.as_bytes().to_vec(), is_dir: true, is_symlink: false };
    let mut walk = DirWalk::start(path("/h"));
    let mut visited = Vec::new();
    while let Some(next) = walk.visit() {
        let text = next.text();
        let entries = match text.as_str() {
            "/h" => vec![entry("b"), entry("a"), entry("target")],
            "/h/a" => vec![entry("y"), entry("x")],
            _ => Vec::new(),
        };
        visited.push(text);
        walk.note(&next, entries);
    }
    assert_eq!(visited, vec!["/h", "/h/a", "/h/a/x", "/h/a/y", "/h/b"]);
    assert_eq!(texts(&walk.found), visited);
}

#[test]
fn walk_ends_when_the_index_is_full() {
    let mut walk = DirWalk::start(path("/h"));
    walk.found = (0..MAX_CACHE_DIRS).map(|_| path("/x")).collect();
    assert!(walk.visit().is_none());
    assert_eq!(walk.found.len(), MAX_CACHE_DIRS);
}

#[test]
fn built_index_is_sorted_without_repeats() {
    let built = build_dir_cache(vec![path("/b"), path("/A"), path("/b"), path("/b/"), path("/a")]);
    assert_eq!(texts(&built), vec!["/A", "/a", "/b"]);
}

#[test]
fn index_holds_the_root_and_all_that_is_below() {
    let entry = |name: &str| DirEntry { name: name.as_bytes().to_vec(), is_dir: true, is_symlink: false };
    let mut walk = DirWalk::start(path("/h"));
    while let Some(next) = walk.visit() {
        let entries = match next.text().as_str() {
            "/h" => vec![entry("b"), entry("a")],
            "/h/b" => vec![entry("a")],
            _ => Vec::new(),
        };
        walk.note(&next, entries);
    }
    assert!(walk.pending.is_empty());
    assert_eq!(texts(&build_dir_cache(walk.found)), vec!["/h", "/h/a", "/h/b", "/h/b/a"]);

    let mut walk = DirWalk::start(path("/locked"));
    while let Some(next) = walk.visit() {
        walk.note(&next, Vec::new());
    }
    assert_eq!(texts(&build_dir_cache(walk.found)), vec!["/locked"]);
}
