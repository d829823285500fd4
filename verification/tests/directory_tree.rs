use tmux_jump::paths::DirPath;
use tmux_jump::search::{filtered_visible_dirs, index_dirs, matching_dirs, MAX_MATCHES};
use tmux_jump::tree::{
    cache_excluded, cached_child_dirs, child_dirs_for_cache, read_child_dirs, visible_dirs,
    ChildCache, DirEntry, DirNode, MAX_CHILDREN,
};

fn path(text: &str) -> DirPath {
    DirPath::from_text(text)
}

fn dir(name: &str) -> DirEntry {
    DirEntry { name: name.as_bytes().to_vec(), is_dir: true, is_symlink: false }
}

fn texts(paths: &[DirPath]) -> Vec<String> {
    paths.iter().map(|p| p.text()).collect()
}

fn rows(nodes: &[DirNode]) -> Vec<(String, usize, bool)> {
    nodes.iter().map(|n| (n.path.text(), n.depth, n.expanded)).collect()
}

fn row(text: &str, depth: usize, expanded: bool) -> (String, usize, bool) {
    (text.to_string(), depth, expanded)
}

#[test]
fn children_are_shown_by_lowercase_name() {
    let mut file = dir("notes.txt");
    file.is_dir = false;
    let mut link = dir("link");
    link.is_symlink = true;
    let entries = vec![
        dir("zeta"),
        dir("Beta"),
        file,
        dir(".hidden"),
        dir("alpha"),
        link,
        DirEntry { name: vec![0xff], is_dir: true, is_symlink: false },
        dir("node_modules"),
    ];
    assert_eq!(
        texts(&read_child_dirs(&path("/h"), entries)),
        vec!["/h/alpha", "/h/Beta", "/h/link", "/h/node_modules", "/h/zeta"],
    );
}

#[test]
fn index_leaves_links_and_excluded_names_out() {
    let mut link = dir("link");
    link.is_symlink = true;
    let entries = vec![dir("src"), link, dir("target"), dir("Docs"), dir(".git"), dir("Library")];
    assert_eq!(
        texts(&child_dirs_for_cache(&path("/h/"), entries)),
        vec!["/h/Docs", "/h/src"],
    );
}

#[test]
fn excluded_names_are_exact() {
    for name in [
        ".git", "node_modules", "target", "dist", "build", ".cache", "Caches", "DerivedData",
        "Library", "Movies", "Music", "Pictures",
    ] {
        assert!(cache_excluded(&path("/h").join(&name.as_bytes().to_vec())), "{name}");
    }
    for name in ["/h/Target", "/h/library", "/h/targets", "/", "/h/target/.."] {
        assert!(!cache_excluded(&path(name)), "{name}");
    }
    assert!(cache_excluded(&path("/h/target/")));
}

#[test]
fn no_more_children_are_listed_than_fit() {
    let entries: Vec<DirEntry> = (0..250).map(|n| dir(&format!("d{n:03}"))).collect();
    let shown = read_child_dirs(&path("/"), entries);
    assert_eq!(shown.len(), MAX_CHILDREN);
    assert_eq!(shown[0].text(), "/d000");
    assert_eq!(shown[199].text(), "/d199");
}

#[test]
fn directory_that_was_read_keeps_its_list() {
    let mut cache = ChildCache::new();
    assert!(cache.children(&path("/h")).is_none());
    assert_eq!(texts(&cached_child_dirs(&mut cache, &path("/h"), vec![dir("a")])), vec!["/h/a"]);
    assert_eq!(texts(&cached_child_dirs(&mut cache, &path("/h/"), vec![dir("b")])), vec!["/h/a"]);
    assert_eq!(texts(&cache.children(&path("/h")).unwrap()), vec!["/h/a"]);
}

#[test]
fn tree_shows_what_is_open() {
    let root = path("/h");
    let mut cache = ChildCache::new();
    let mut nodes: Vec<DirNode> = Vec::new();

    let first = visible_dirs(&mut nodes, &cache, &root);
    assert_eq!(rows(&first.rows), vec![row("/h", 0, true)]);
    assert_eq!(texts(&first.unread), vec!["/h"]);

    cached_child_dirs(&mut cache, &root, vec![dir("a"), dir("b")]);
    cached_child_dirs(&mut cache, &path("/h/a"), vec![dir("x")]);
    let second = visible_dirs(&mut nodes, &cache, &root);
    assert_eq!(rows(&second.rows), vec![row("/h", 0, true), row("/h/a", 1, false), row("/h/b", 1, false)]);
    assert!(second.unread.is_empty());
    assert_eq!(nodes.len(), 3);

    nodes[1].expanded = true;
    nodes[2].expanded = true;
    let third = visible_dirs(&mut nodes, &cache, &root);
    assert_eq!(
        rows(&third.rows),
        vec![row("/h", 0, true), row("/h/a", 1, true), row("/h/a/x", 2, false), row("/h/b", 1, true)],
    );
    assert_eq!(texts(&third.unread), vec!["/h/b"]);
    assert_eq!(rows(&visible_dirs(&mut nodes, &cache, &root).rows), rows(&third.rows));

    nodes[0].expanded = false;
    assert_eq!(rows(&visible_dirs(&mut nodes, &cache, &root).rows), vec![row("/h", 0, false)]);
}

#[test]
fn index_holds_lowercase_texts() {
    let index = index_dirs(vec![path("/H/Ärger"), path("/")]);
    assert_eq!(index[0].full_lower, "/h/ärger");
    assert_eq!(index[0].name_lower, "ärger");
    assert_eq!(index[0].path.text(), "/H/Ärger");
    assert_eq!(index[1].full_lower, "/");
    assert_eq!(index[1].name_lower, "~");
}

#[test]
fn search_finds_names_before_paths() {
    let index = index_dirs(vec![
        path("/h/work/web"),
        path("/h/api"),
        path("/h/api/web-ui"),
        path("/h/webs/x"),
    ]);
    let found = matching_dirs(&index, "web", "/h");
    assert_eq!(
        rows(&found),
        vec![row("/h/work/web", 0, false), row("/h/api/web-ui", 0, false), row("/h/webs/x", 0, false)],
    );
    // Of matches with the same score the path that is first in alphabetical order comes first.
    let twins = index_dirs(vec![path("/h/b/same"), path("/h/a/same")]);
    assert_eq!(rows(&matching_dirs(&twins, "same", "/h")), vec![row("/h/a/same", 0, false), row("/h/b/same", 0, false)]);
}

#[test]
fn search_with_a_slash_or_a_tilde_goes_by_whole_paths() {
    let index = index_dirs(vec![path("/h/api"), path("/h/work/api"), path("/x/h/api")]);
    let mut nodes: Vec<DirNode> = Vec::new();
    let cache = ChildCache::new();
    let listing = filtered_visible_dirs(&mut nodes, &cache, &index, " ~/API ", &path("/h"));
    assert_eq!(
        rows(&listing.rows),
        vec![row("/h/api", 0, false), row("/x/h/api", 0, false), row("/h/work/api", 0, false)],
    );
    assert!(listing.unread.is_empty());
    assert!(nodes.is_empty());
    assert!(matching_dirs(&index, "y/", "/h").is_empty());
}

#[test]
fn search_of_white_space_shows_the_tree() {
    let index = index_dirs(vec![path("/h/api")]);
    let mut nodes: Vec<DirNode> = Vec::new();
    let cache = ChildCache::new();
    let listing = filtered_visible_dirs(&mut nodes, &cache, &index, "  ", &path("/h"));
    assert_eq!(rows(&listing.rows), vec![row("/h", 0, true)]);
}

#[test]
fn search_lists_no_more_than_fit() {
    let index = index_dirs((0..1_200).map(|n| path(&format!("/d{n:04}"))).collect());
    let found = matching_dirs(&index, "d", "/");
    assert_eq!(found.len(), MAX_MATCHES);
    assert_eq!(found[0].path.text(), "/d0000");
    assert_eq!(found[999].path.text(), "/d0999");
}
