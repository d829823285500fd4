//! The directory tree: which directories are shown, and what is known of their entries.
use crate::order;
use crate::paths;
use crate::paths::DirPath;
use crate::text;
use vstd::prelude::*;

verus! {

/// The most entries that are shown of one directory.
pub const MAX_CHILDREN: usize = 200;

/// An entry that the file system lists in a directory.
pub struct DirEntry {
    pub name: Vec<u8>,
    /// Whether it is a directory, or a link that leads to one.
    pub is_dir: bool,
    pub is_symlink: bool,
}

/// The value of a [`DirEntry`].
#[verifier::ext_equal]
pub struct EntryView {
    pub name: Seq<u8>,
    pub is_dir: bool,
    pub is_symlink: bool,
}

impl View for DirEntry {
    type V = EntryView;

    open spec fn view(&self) -> EntryView {
        EntryView { name: self.name@, is_dir: self.is_dir, is_symlink: self.is_symlink }
    }
}

/// The values of several entries.
pub open spec fn entry_views(entries: Seq<DirEntry>) -> Seq<EntryView> {
    entries.map_values(|e: DirEntry| e@)
}

/// Whether an entry is shown in the tree: a directory whose name is text and not hidden.
pub open spec fn is_shown(e: EntryView) -> bool {
    &&& paths::is_entry_name(e.name)
    &&& e.is_dir
    &&& paths::utf8_text(e.name) is Some
    &&& e.name[0] != paths::DOT
}

/// Whether a directory of that name is left out of the index.
pub open spec fn is_excluded_name(name: Seq<char>) -> bool {
    ||| name == ".git"@
    ||| name == "node_modules"@
    ||| name == "target"@
    ||| name == "dist"@
    ||| name == "build"@
    ||| name == ".cache"@
    ||| name == "Caches"@
    ||| name == "DerivedData"@
    ||| name == "Library"@
    ||| name == "Movies"@
    ||| name == "Music"@
    ||| name == "Pictures"@
}

/// Whether a directory is left out of the index.
pub open spec fn is_excluded(path: Seq<u8>) -> bool {
    match paths::name_text_of(path) {
        Some(name) => is_excluded_name(name),
        None => false,
    }
}

/// Whether a directory is left out of the index: those that hold builds, caches and media.
pub fn cache_excluded(path: &DirPath) -> (r: bool)
    ensures
        r == is_excluded(path@),
{
    match path.name_text() {
        Some(name) => {
            let n: &str = name.as_str();
            text::same(n, ".git") || text::same(n, "node_modules") || text::same(n, "target")
                || text::same(n, "dist") || text::same(n, "build") || text::same(n, ".cache")
                || text::same(n, "Caches") || text::same(n, "DerivedData") || text::same(
                n,
                "Library",
            ) || text::same(n, "Movies") || text::same(n, "Music") || text::same(n, "Pictures")
        },
        None => false,
    }
}

/// Whether an entry of `path` is followed when the index is built: what is shown, but no link and
/// nothing that is left out of the index.
pub open spec fn is_indexed(path: Seq<u8>, e: EntryView) -> bool {
    is_shown(e) && !e.is_symlink && !is_excluded(paths::joined_path(path, e.name))
}

/// What an entry is ranked by: its name in lowercase.
pub open spec fn entry_rank(e: EntryView) -> order::RankView {
    order::RankView {
        major: 0,
        minor: 0,
        text: text::lowercase(vstd::utf8::decode_utf8(e.name)),
    }
}

/// The first entries of `path` in alphabetical order, as paths.
pub open spec fn child_paths(path: Seq<u8>, kept: Seq<EntryView>) -> Seq<Seq<u8>> {
    let ranks = kept.map_values(|e: EntryView| entry_rank(e));
    let sorted = order::arranged_by(kept, order::ranking(ranks));
    let first = if sorted.len() <= MAX_CHILDREN {
        sorted
    } else {
        sorted.take(MAX_CHILDREN as int)
    };
    first.map_values(|e: EntryView| paths::joined_path(path, e.name))
}

/// The directories that the tree shows in `path`.
pub open spec fn shown_children(path: Seq<u8>, entries: Seq<EntryView>) -> Seq<Seq<u8>> {
    child_paths(path, entries.filter(|e: EntryView| is_shown(e)))
}

/// The directories that the index follows in `path`.
pub open spec fn indexed_children(path: Seq<u8>, entries: Seq<EntryView>) -> Seq<Seq<u8>> {
    child_paths(path, entries.filter(|e: EntryView| is_indexed(path, e)))
}

/// The text of the name of an entry that is shown.
fn shown_name(e: &DirEntry) -> (r: Option<String>)
    ensures
        r is Some <==> is_shown(e@),
        r matches Some(name) ==> name@ == vstd::utf8::decode_utf8(e@.name),
{
    if !e.is_dir || e.name.len() == 0 || e.name[0] == paths::DOT {
        return None;
    }
    let mut i: usize = 0;
    while i < e.name.len()
        invariant
            i <= e.name.len(),
            forall|k: int| 0 <= k < i ==> e.name[k] != paths::SLASH,
        decreases e.name.len() - i,
    {
        if e.name[i] == paths::SLASH {
            assert(e@.name.contains(e@.name[i as int]));
            return None;
        }
        i = i + 1;
    }
    assert(paths::is_entry_name(e@.name)) by {
        if e@.name == seq![paths::DOT] {
            assert(e@.name[0] == paths::DOT);
        }
        if e@.name == seq![paths::DOT, paths::DOT] {
            assert(e@.name[0] == paths::DOT);
        }
    }
    let name: Vec<u8> = paths::bytes_between(&e.name, 0, e.name.len());
    assert(name@ =~= e@.name);
    paths::utf8(name)
}

/// The first of the entries in alphabetical order, as paths. `names` holds their names as text.
fn ordered_children(path: &DirPath, kept: Vec<DirEntry>, names: Vec<String>) -> (r: Vec<DirPath>)
    requires
        names.len() == kept.len(),
        forall|k: int|
            0 <= k < kept.len() ==> (#[trigger] names[k])@ == vstd::utf8::decode_utf8(
                kept[k]@.name,
            ),
    ensures
        paths::path_views(r@) == child_paths(path@, entry_views(kept@)),
{
    let ghost kv = entry_views(kept@);
    let mut ranks: Vec<order::Rank> = Vec::new();
    let mut i: usize = 0;
    while i < names.len()
        invariant
            i <= names.len(),
            names.len() == kept.len(),
            ranks.len() == i,
            forall|k: int|
                0 <= k < kept.len() ==> (#[trigger] names[k])@ == vstd::utf8::decode_utf8(
                    kept[k]@.name,
                ),
            forall|k: int| 0 <= k < i ==> #[trigger] ranks[k]@ == entry_rank(kept[k]@),
        decreases names.len() - i,
    {
        let lower: String = names[i].as_str().to_lowercase();
        let rank = order::Rank { major: 0, minor: 0, text: text::chars_of(lower.as_str()) };
        assert(names[i as int]@ == vstd::utf8::decode_utf8(kept[i as int]@.name));
        ranks.push(rank);
        i = i + 1;
    }
    assert(order::rank_views(ranks@) =~= kv.map_values(|e: EntryView| entry_rank(e)));
    let order: Vec<usize> = order::ranked(&ranks);
    let mut sorted: Vec<DirEntry> = order::arranged(kept, &order);
    let ghost all = order::arranged_by(kv, order::positions(order@));
    assert(entry_views(sorted@) =~= all);
    sorted.truncate(MAX_CHILDREN);
    let ghost first = if all.len() <= MAX_CHILDREN {
        all
    } else {
        all.take(MAX_CHILDREN as int)
    };
    assert(entry_views(sorted@) =~= first);
    let mut r: Vec<DirPath> = Vec::new();
    let mut j: usize = 0;
    while j < sorted.len()
        invariant
            j <= sorted.len(),
            r.len() == j,
            forall|k: int|
                0 <= k < j ==> (#[trigger] r[k])@ == paths::joined_path(path@, sorted[k]@.name),
        decreases sorted.len() - j,
    {
        r.push(path.join(&sorted[j].name));
        j = j + 1;
    }
    proof {
        assert forall|k: int| 0 <= k < r.len() implies #[trigger] paths::path_views(r@)[k]
            == child_paths(path@, kv)[k] by {
            assert(first[k] == sorted[k]@);
        }
        assert(paths::path_views(r@) =~= child_paths(path@, kv));
    }
    r
}

/// The directories that the tree shows in `path`, given what the file system lists there.
pub fn read_child_dirs(path: &DirPath, entries: Vec<DirEntry>) -> (r: Vec<DirPath>)
    ensures
        paths::path_views(r@) == shown_children(path@, entry_views(entries@)),
{
    let ghost ev = entry_views(entries@);
    let ghost source = entries@;
    let ghost pick = |e: EntryView| is_shown(e);
    let mut kept: Vec<DirEntry> = Vec::new();
    let mut names: Vec<String> = Vec::new();
    assert(ev.take(0).filter(pick) =~= entry_views(kept@));
    for e in it: entries
        invariant
            it.seq() == source,
            ev == entry_views(source),
            pick == (|e: EntryView| is_shown(e)),
            entry_views(kept@) == ev.take(it.index() as int).filter(pick),
            names.len() == kept.len(),
            forall|k: int|
                0 <= k < kept.len() ==> (#[trigger] names[k])@ == vstd::utf8::decode_utf8(
                    kept[k]@.name,
                ),
    {
        let ghost before = kept@;
        proof {
            let i = it.index() as int;
            assert(ev[i] == e@);
            assert(ev.take(i + 1) =~= ev.take(i).push(e@));
            ev.take(i).lemma_filter_push(e@, pick);
        }
        if let Some(name) = shown_name(&e) {
            kept.push(e);
            names.push(name);
            assert(entry_views(kept@) =~= entry_views(before).push(e@));
        }
    }
    assert(ev.take(ev.len() as int) =~= ev);
    ordered_children(path, kept, names)
}

/// The directories that the index follows in `path`, given what the file system lists there.
pub fn child_dirs_for_cache(path: &DirPath, entries: Vec<DirEntry>) -> (r: Vec<DirPath>)
    ensures
        paths::path_views(r@) == indexed_children(path@, entry_views(entries@)),
{
    let ghost ev = entry_views(entries@);
    let ghost source = entries@;
    let ghost pick = |e: EntryView| is_indexed(path@, e);
    let mut kept: Vec<DirEntry> = Vec::new();
    let mut names: Vec<String> = Vec::new();
    assert(ev.take(0).filter(pick) =~= entry_views(kept@));
    for e in it: entries
        invariant
            it.seq() == source,
            ev == entry_views(source),
            pick == (|e: EntryView| is_indexed(path@, e)),
            entry_views(kept@) == ev.take(it.index() as int).filter(pick),
            names.len() == kept.len(),
            forall|k: int|
                0 <= k < kept.len() ==> (#[trigger] names[k])@ == vstd::utf8::decode_utf8(
                    kept[k]@.name,
                ),
    {
        let ghost before = kept@;
        proof {
            let i = it.index() as int;
            assert(ev[i] == e@);
            assert(ev.take(i + 1) =~= ev.take(i).push(e@));
            ev.take(i).lemma_filter_push(e@, pick);
        }
        if let Some(name) = shown_name(&e) {
            if !e.is_symlink && !cache_excluded(&path.join(&e.name)) {
                kept.push(e);
                names.push(name);
                assert(entry_views(kept@) =~= entry_views(before).push(e@));
            }
        }
    }
    assert(ev.take(ev.len() as int) =~= ev);
    ordered_children(path, kept, names)
}

/// What is remembered of one directory: the directories that it shows.
pub struct ChildList {
    pub path: DirPath,
    pub children: Vec<DirPath>,
}

/// The value of a [`ChildList`].
#[verifier::ext_equal]
pub struct ChildListView {
    pub path: Seq<u8>,
    pub children: Seq<Seq<u8>>,
}

impl View for ChildList {
    type V = ChildListView;

    open spec fn view(&self) -> ChildListView {
        ChildListView { path: self.path@, children: paths::path_views(self.children@) }
    }
}

/// What is remembered of the directories that were read.
pub struct ChildCache {
    pub lists: Vec<ChildList>,
}

impl View for ChildCache {
    type V = Seq<ChildListView>;

    open spec fn view(&self) -> Seq<ChildListView> {
        self.lists@.map_values(|l: ChildList| l@)
    }
}

/// The place at which a directory is remembered, from `from` on.
pub open spec fn list_place(cache: Seq<ChildListView>, path: Seq<u8>, from: int) -> Option<int>
    decreases cache.len() - from,
{
    if from < 0 || from >= cache.len() {
        None
    } else if paths::components(cache[from].path) == paths::components(path) {
        Some(from)
    } else {
        list_place(cache, path, from + 1)
    }
}

/// The directories that are remembered of `path`, if it was read.
pub open spec fn known_children(cache: Seq<ChildListView>, path: Seq<u8>) -> Option<Seq<Seq<u8>>> {
    match list_place(cache, path, 0) {
        Some(k) => Some(cache[k].children),
        None => None,
    }
}

/// What is remembered once `path` has been read: a directory that was read before stays as it was.
pub open spec fn remembered(
    cache: Seq<ChildListView>,
    path: Seq<u8>,
    entries: Seq<EntryView>,
) -> Seq<ChildListView> {
    if known_children(cache, path) is Some {
        cache
    } else {
        cache.push(ChildListView { path, children: shown_children(path, entries) })
    }
}

/// Copies of several paths.
pub(crate) fn copied_paths(source: &Vec<DirPath>) -> (r: Vec<DirPath>)
    ensures
        paths::path_views(r@) == paths::path_views(source@),
{
    let mut r: Vec<DirPath> = Vec::new();
    let mut i: usize = 0;
    while i < source.len()
        invariant
            i <= source.len(),
            r.len() == i,
            forall|k: int| 0 <= k < i ==> (#[trigger] r[k])@ == source[k]@,
        decreases source.len() - i,
    {
        r.push(source[i].clone());
        i = i + 1;
    }
    assert(paths::path_views(r@) =~= paths::path_views(source@));
    r
}

impl ChildCache {
    /// Remembers nothing.
    pub fn new() -> (r: ChildCache)
        ensures
            r@ == Seq::<ChildListView>::empty(),
    {
        let r = ChildCache { lists: Vec::new() };
        assert(r@ =~= Seq::<ChildListView>::empty());
        r
    }

    /// The place at which a directory is remembered.
    fn find(&self, path: &DirPath) -> (r: Option<usize>)
        ensures
            r is Some <==> list_place(self@, path@, 0) is Some,
            r matches Some(k) ==> k < self.lists.len() && list_place(self@, path@, 0) == Some(
                k as int,
            ),
    {
        let mut i: usize = 0;
        while i < self.lists.len()
            invariant
                i <= self.lists.len(),
                list_place(self@, path@, 0) == list_place(self@, path@, i as int),
            decreases self.lists.len() - i,
        {
            assert(self@[i as int] == self.lists[i as int]@);
            if self.lists[i].path.same(path) {
                return Some(i);
            }
            i = i + 1;
        }
        None
    }

    /// The directories that are remembered of `path`, if it was read.
    pub fn children(&self, path: &DirPath) -> (r: Option<Vec<DirPath>>)
        ensures
            r is Some <==> known_children(self@, path@) is Some,
            r matches Some(c) ==> known_children(self@, path@) == Some(paths::path_views(c@)),
    {
        match self.find(path) {
            Some(k) => {
                assert(self@[k as int] == self.lists[k as int]@);
                Some(copied_paths(&self.lists[k].children))
            },
            None => None,
        }
    }
}

/// The directories that the tree shows in `path`. `entries` is what the file system lists there;
/// it is remembered, unless the directory was read before.
pub fn cached_child_dirs(
    cache: &mut ChildCache,
    path: &DirPath,
    entries: Vec<DirEntry>,
) -> (r: Vec<DirPath>)
    ensures
        final(cache)@ == remembered(old(cache)@, path@, entry_views(entries@)),
        known_children(final(cache)@, path@) == Some(paths::path_views(r@)),
{
    if let Some(children) = cache.children(path) {
        return children;
    }
    let children: Vec<DirPath> = read_child_dirs(path, entries);
    let r: Vec<DirPath> = copied_paths(&children);
    let list = ChildList { path: path.clone(), children };
    let ghost before = cache@;
    cache.lists.push(list);
    assert(cache@ =~= before.push(list@));
    proof {
        lemma_list_place_push(before, list@, path@, 0);
    }
    r
}

/// A directory that was not remembered is found at the end once it is added.
pub proof fn lemma_list_place_push(
    cache: Seq<ChildListView>,
    list: ChildListView,
    path: Seq<u8>,
    from: int,
)
    requires
        0 <= from <= cache.len(),
        list_place(cache, path, from) is None,
        paths::components(list.path) == paths::components(path),
    ensures
        list_place(cache.push(list), path, from) == Some(cache.len() as int),
    decreases cache.len() - from,
{
    if from < cache.len() {
        lemma_list_place_push(cache, list, path, from + 1);
    }
}

/// A directory that the tree knows.
#[derive(Debug)]
pub struct DirNode {
    pub path: DirPath,
    pub depth: usize,
    pub expanded: bool,
}

/// The value of a [`DirNode`].
#[verifier::ext_equal]
pub struct NodeView {
    pub path: Seq<u8>,
    pub depth: nat,
    pub expanded: bool,
}

impl View for DirNode {
    type V = NodeView;

    open spec fn view(&self) -> NodeView {
        NodeView { path: self.path@, depth: self.depth as nat, expanded: self.expanded }
    }
}

impl Clone for DirNode {
    fn clone(&self) -> (r: DirNode)
        ensures
            r@ == self@,
    {
        DirNode { path: self.path.clone(), depth: self.depth, expanded: self.expanded }
    }
}

/// The values of several nodes.
pub open spec fn node_views(nodes: Seq<DirNode>) -> Seq<NodeView> {
    nodes.map_values(|n: DirNode| n@)
}

/// The place of the node of a path, from `from` on.
pub open spec fn node_place(nodes: Seq<NodeView>, path: Seq<u8>, from: int) -> Option<int>
    decreases nodes.len() - from,
{
    if from < 0 || from >= nodes.len() {
        None
    } else if paths::components(nodes[from].path) == paths::components(path) {
        Some(from)
    } else {
        node_place(nodes, path, from + 1)
    }
}

/// The node of a path when it is met at `depth`; one that is met first is collapsed.
pub open spec fn met_node(nodes: Seq<NodeView>, path: Seq<u8>, depth: nat) -> NodeView {
    match node_place(nodes, path, 0) {
        Some(k) => NodeView { depth, ..nodes[k] },
        None => NodeView { path, depth, expanded: false },
    }
}

/// The nodes once `path` has been met at `depth`.
pub open spec fn met(nodes: Seq<NodeView>, path: Seq<u8>, depth: nat) -> Seq<NodeView> {
    let node = met_node(nodes, path, depth);
    match node_place(nodes, path, 0) {
        Some(k) => nodes.update(k, node),
        None => nodes.push(node),
    }
}

/// What a walk through the tree yields: the nodes as they are then, the rows to show, and the
/// expanded directories that have not been read.
#[verifier::ext_equal]
pub struct Walk {
    pub nodes: Seq<NodeView>,
    pub rows: Seq<NodeView>,
    pub unread: Seq<Seq<u8>>,
}

/// The walk through `path` and, where it is expanded, what is known to be in it; at most `limit`
/// levels further down.
pub open spec fn walk(
    nodes: Seq<NodeView>,
    cache: Seq<ChildListView>,
    path: Seq<u8>,
    depth: nat,
    limit: nat,
) -> Walk
    decreases limit, 0nat,
{
    let node = met_node(nodes, path, depth);
    let now = met(nodes, path, depth);
    if !node.expanded || limit == 0 {
        Walk { nodes: now, rows: seq![node], unread: Seq::empty() }
    } else {
        match known_children(cache, node.path) {
            Some(children) => {
                let inner = walk_all(now, cache, children, depth + 1, (limit - 1) as nat);
                Walk { rows: seq![node] + inner.rows, ..inner }
            },
            None => Walk { nodes: now, rows: seq![node], unread: seq![node.path] },
        }
    }
}

/// The walk through several paths, one after the other.
pub open spec fn walk_all(
    nodes: Seq<NodeView>,
    cache: Seq<ChildListView>,
    list: Seq<Seq<u8>>,
    depth: nat,
    limit: nat,
) -> Walk
    decreases limit, list.len() + 1,
{
    if list.len() == 0 {
        Walk { nodes, rows: Seq::empty(), unread: Seq::empty() }
    } else {
        let first = walk_all(nodes, cache, list.drop_last(), depth, limit);
        let last = walk(first.nodes, cache, list.last(), depth, limit);
        Walk {
            nodes: last.nodes,
            rows: first.rows + last.rows,
            unread: first.unread + last.unread,
        }
    }
}

/// The nodes to start from: before anything is known, the root alone, expanded.
pub open spec fn rooted(nodes: Seq<NodeView>, root: Seq<u8>) -> Seq<NodeView> {
    if nodes.len() == 0 {
        seq![NodeView { path: root, depth: 0, expanded: true }]
    } else {
        nodes
    }
}

/// The walk through the whole tree.
pub open spec fn visible(nodes: Seq<NodeView>, cache: Seq<ChildListView>, root: Seq<u8>) -> Walk {
    let start = rooted(nodes, root);
    walk(start, cache, root, 0, start.len())
}

/// The directories to show, and those that have to be read before the list is complete.
pub struct DirListing {
    pub rows: Vec<DirNode>,
    pub unread: Vec<DirPath>,
}

/// The place of the node of a path.
pub(crate) fn find_node(nodes: &Vec<DirNode>, path: &DirPath) -> (r: Option<usize>)
    ensures
        r is Some <==> node_place(node_views(nodes@), path@, 0) is Some,
        r matches Some(k) ==> k < nodes.len() && node_place(node_views(nodes@), path@, 0) == Some(
            k as int,
        ),
{
    let ghost nv = node_views(nodes@);
    let mut i: usize = 0;
    while i < nodes.len()
        invariant
            i <= nodes.len(),
            nv == node_views(nodes@),
            node_place(nv, path@, 0) == node_place(nv, path@, i as int),
        decreases nodes.len() - i,
    {
        assert(nv[i as int] == nodes[i as int]@);
        if nodes[i].path.same(path) {
            return Some(i);
        }
        i = i + 1;
    }
    None
}

/// Meets `path` at `depth` and returns its node.
fn meet(nodes: &mut Vec<DirNode>, path: DirPath, depth: usize) -> (r: DirNode)
    ensures
        node_views(final(nodes)@) == met(node_views(old(nodes)@), path@, depth as nat),
        r@ == met_node(node_views(old(nodes)@), path@, depth as nat),
{
    let ghost before = node_views(nodes@);
    match find_node(nodes, &path) {
        Some(k) => {
            assert(before[k as int] == nodes[k as int]@);
            nodes[k].depth = depth;
            assert(node_views(nodes@) =~= met(before, path@, depth as nat));
            nodes[k].clone()
        },
        None => {
            let node = DirNode { path, depth, expanded: false };
            let r: DirNode = node.clone();
            nodes.push(node);
            assert(node_views(nodes@) =~= met(before, path@, depth as nat));
            r
        },
    }
}

/// Walks through `path`, adding to the listing.
fn walk_into(
    path: DirPath,
    depth: usize,
    limit: usize,
    nodes: &mut Vec<DirNode>,
    cache: &ChildCache,
    listing: &mut DirListing,
)
    requires
        depth + limit <= usize::MAX,
    ensures
        ({
            let w = walk(node_views(old(nodes)@), cache@, path@, depth as nat, limit as nat);
            &&& node_views(final(nodes)@) == w.nodes
            &&& node_views(final(listing).rows@) == node_views(old(listing).rows@) + w.rows
            &&& paths::path_views(final(listing).unread@) == paths::path_views(
                old(listing).unread@,
            ) + w.unread
        }),
    decreases limit,
{
    let ghost rows = node_views(listing.rows@);
    let ghost unread = paths::path_views(listing.unread@);
    let node: DirNode = meet(nodes, path, depth);
    let row: DirNode = node.clone();
    listing.rows.push(row);
    assert(node_views(listing.rows@) =~= rows + seq![node@]);
    assert(unread + Seq::<Seq<u8>>::empty() =~= unread);
    if !node.expanded || limit == 0 {
        return ;
    }
    match cache.children(&node.path) {
        Some(children) => {
            let ghost cv = paths::path_views(children@);
            let ghost now = node_views(nodes@);
            let mut i: usize = 0;
            assert(cv.take(0) =~= Seq::<Seq<u8>>::empty());
            assert(node_views(listing.rows@) + Seq::<NodeView>::empty() =~= node_views(
                listing.rows@,
            ));
            while i < children.len()
                invariant
                    i <= children.len(),
                    depth + limit <= usize::MAX,
                    limit >= 1,
                    cv == paths::path_views(children@),
                    ({
                        let inner = walk_all(
                            now,
                            cache@,
                            cv.take(i as int),
                            (depth + 1) as nat,
                            (limit - 1) as nat,
                        );
                        &&& node_views(nodes@) == inner.nodes
                        &&& node_views(listing.rows@) == (rows + seq![node@]) + inner.rows
                        &&& paths::path_views(listing.unread@) == unread + inner.unread
                    }),
                decreases children.len() - i,
            {
                let ghost inner = walk_all(
                    now,
                    cache@,
                    cv.take(i as int),
                    (depth + 1) as nat,
                    (limit - 1) as nat,
                );
                let child: DirPath = children[i].clone();
                proof {
                    assert(cv.take(i + 1).drop_last() =~= cv.take(i as int));
                    assert(cv.take(i + 1).last() == child@);
                }
                walk_into(child, depth + 1, limit - 1, nodes, cache, listing);
                proof {
                    let last = walk(
                        inner.nodes,
                        cache@,
                        child@,
                        (depth + 1) as nat,
                        (limit - 1) as nat,
                    );
                    assert(((rows + seq![node@]) + inner.rows) + last.rows =~= (rows + seq![node@])
                        + (inner.rows + last.rows));
                    assert((unread + inner.unread) + last.unread =~= unread + (inner.unread
                        + last.unread));
                }
                i = i + 1;
            }
            proof {
                assert(cv.take(i as int) =~= cv);
                let inner = walk_all(now, cache@, cv, (depth + 1) as nat, (limit - 1) as nat);
                assert((rows + seq![node@]) + inner.rows =~= rows + (seq![node@] + inner.rows));
            }
        },
        None => {
            let path: DirPath = node.path.clone();
            listing.unread.push(path);
            assert(paths::path_views(listing.unread@) =~= unread + seq![path@]);
        },
    }
}

/// The rows of the directory tree below `root`: a directory stands before what is in it, and what
/// is in it is shown where it is expanded. A directory that is expanded but was not read shows
/// nothing yet and is reported as unread.
pub fn visible_dirs(nodes: &mut Vec<DirNode>, children: &ChildCache, root: &DirPath) -> (r:
    DirListing)
    ensures
        ({
            let w = visible(node_views(old(nodes)@), children@, root@);
            &&& node_views(final(nodes)@) == w.nodes
            &&& node_views(r.rows@) == w.rows
            &&& paths::path_views(r.unread@) == w.unread
        }),
{
    let ghost before = node_views(nodes@);
    if nodes.len() == 0 {
        nodes.push(DirNode { path: root.clone(), depth: 0, expanded: true });
    }
    assert(node_views(nodes@) =~= rooted(before, root@));
    let limit: usize = nodes.len();
    let mut listing = DirListing { rows: Vec::new(), unread: Vec::new() };
    assert(node_views(listing.rows@) =~= Seq::<NodeView>::empty());
    assert(paths::path_views(listing.unread@) =~= Seq::<Seq<u8>>::empty());
    walk_into(root.clone(), 0, limit, nodes, children, &mut listing);
    proof {
        let w = visible(before, children@, root@);
        assert(Seq::<NodeView>::empty() + w.rows =~= w.rows);
        assert(Seq::<Seq<u8>>::empty() + w.unread =~= w.unread);
    }
    listing
}

} // verus!
