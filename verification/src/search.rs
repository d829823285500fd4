//! Searching the index of directories.
use crate::fuzzy;
use crate::order;
use crate::paths;
use crate::paths::DirPath;
use crate::text;
use crate::tree;
use crate::tree::ChildCache;
use crate::tree::DirListing;
use crate::tree::DirNode;
use vstd::prelude::*;

verus! {

/// The most directories that a search lists.
pub const MAX_MATCHES: usize = 1_000;

/// A directory of the index, with the texts that it is searched by.
pub struct IndexedDir {
    pub path: DirPath,
    pub full_lower: String,
    pub name_lower: String,
}

/// The value of an [`IndexedDir`].
#[verifier::ext_equal]
pub struct IndexedView {
    pub path: Seq<u8>,
    pub full_lower: Seq<char>,
    pub name_lower: Seq<char>,
}

impl View for IndexedDir {
    type V = IndexedView;

    open spec fn view(&self) -> IndexedView {
        IndexedView {
            path: self.path@,
            full_lower: self.full_lower@,
            name_lower: self.name_lower@,
        }
    }
}

/// The values of several entries of the index.
pub open spec fn index_views(index: Seq<IndexedDir>) -> Seq<IndexedView> {
    index.map_values(|d: IndexedDir| d@)
}

/// The entry of the index for a path: its text and its name in lowercase. A path without a name
/// that is text goes by a tilde.
pub open spec fn indexed(path: Seq<u8>) -> IndexedView {
    IndexedView {
        path,
        full_lower: text::lowercase(paths::lossy_text(path)),
        name_lower: text::lowercase(
            match paths::name_text_of(path) {
                Some(name) => name,
                None => "~"@,
            },
        ),
    }
}

/// The index of several paths.
pub open spec fn index_of(list: Seq<Seq<u8>>) -> Seq<IndexedView> {
    list.map_values(|p: Seq<u8>| indexed(p))
}

/// The index of several paths.
pub fn index_dirs(paths: Vec<DirPath>) -> (r: Vec<IndexedDir>)
    ensures
        index_views(r@) == index_of(paths::path_views(paths@)),
{
    let ghost source = paths@;
    let mut r: Vec<IndexedDir> = Vec::new();
    for path in it: paths
        invariant
            it.seq() == source,
            r.len() == it.index(),
            forall|k: int| 0 <= k < r.len() ==> (#[trigger] r[k])@ == indexed(source[k]@),
    {
        let full: String = path.text();
        let name: String = match path.name_text() {
            Some(name) => name,
            None => "~".to_owned(),
        };
        let full_lower: String = full.as_str().to_lowercase();
        let name_lower: String = name.as_str().to_lowercase();
        r.push(IndexedDir { path, full_lower, name_lower });
    }
    assert(index_views(r@) =~= index_of(paths::path_views(source)));
    r
}

/// Whether what was typed is about whole paths: it holds a slash or starts with a tilde.
pub open spec fn is_about_paths(q: Seq<char>) -> bool {
    q.contains('/') || (q.len() > 0 && q[0] == '~')
}

/// What was typed, with the home directory's text for a tilde at the start.
pub open spec fn with_home(q: Seq<char>, home: Seq<char>) -> Seq<char> {
    if q.len() > 0 && q[0] == '~' {
        home + q.drop_first()
    } else {
        q
    }
}

/// How well a directory matches: by its whole path where that is asked for, else by its name or,
/// worth less, by its path.
pub open spec fn dir_score(d: IndexedView, q: Seq<char>, home: Seq<char>) -> Option<i64> {
    if is_about_paths(q) {
        fuzzy::score_of(d.full_lower, with_home(q, home))
    } else {
        match fuzzy::score_of(d.name_lower, q) {
            Some(score) => Some(score),
            None => fuzzy::lessened(fuzzy::score_of(d.full_lower, q), 1_000),
        }
    }
}

/// The rank of the directory at `i` among the matches, if it matches: a higher score first, then
/// the path that is first in alphabetical order.
pub open spec fn dir_hit(
    index: Seq<IndexedView>,
    q: Seq<char>,
    home: Seq<char>,
    i: int,
) -> Option<order::Hit> {
    match dir_score(index[i], q, home) {
        Some(score) => Some(
            order::Hit {
                index: i,
                rank: order::RankView {
                    major: score as int,
                    minor: 0,
                    text: index[i].full_lower,
                },
            },
        ),
        None => None,
    }
}

/// The directories that match, in the order of the index.
pub open spec fn dir_hits(index: Seq<IndexedView>, q: Seq<char>, home: Seq<char>) -> Seq<
    order::Hit,
> {
    Seq::new(index.len(), |i: int| i).filter_map(|i: int| dir_hit(index, q, home, i))
}

/// The rows for the directories that match, the best match first.
pub open spec fn matching_rows(index: Seq<IndexedView>, q: Seq<char>, home: Seq<char>) -> Seq<
    tree::NodeView,
> {
    let all = order::best_first(dir_hits(index, q, home));
    let first = if all.len() <= MAX_MATCHES {
        all
    } else {
        all.take(MAX_MATCHES as int)
    };
    first.map_values(
        |i: int| tree::NodeView { path: index[i].path, depth: 0, expanded: false },
    )
}

/// What the directory box shows: the tree where nothing but white space was typed, else the
/// directories of the index that match.
pub open spec fn listed_dirs(
    nodes: Seq<tree::NodeView>,
    children: Seq<tree::ChildListView>,
    index: Seq<IndexedView>,
    query: Seq<char>,
    root: Seq<u8>,
) -> tree::Walk {
    let typed = text::trimmed(query);
    let q = text::lowercase(typed);
    if typed.len() == 0 || q.len() == 0 {
        tree::visible(nodes, children, root)
    } else {
        tree::Walk {
            nodes,
            rows: matching_rows(index, q, paths::lossy_text(root)),
            unread: Seq::empty(),
        }
    }
}

/// How well a directory matches.
fn score_dir(d: &IndexedDir, about_paths: bool, q: &str, whole: &str) -> (r: Option<i64>)
    ensures
        r == (if about_paths {
            fuzzy::score_of(d@.full_lower, whole@)
        } else {
            match fuzzy::score_of(d@.name_lower, q@) {
                Some(score) => Some(score),
                None => fuzzy::lessened(fuzzy::score_of(d@.full_lower, q@), 1_000),
            }
        }),
{
    if about_paths {
        return fuzzy::fuzzy_score(d.full_lower.as_str(), whole);
    }
    match fuzzy::fuzzy_score(d.name_lower.as_str(), q) {
        Some(score) => Some(score),
        None => match fuzzy::fuzzy_score(d.full_lower.as_str(), q) {
            Some(score) => Some(fuzzy::lessened_score(score, 1_000)),
            None => None,
        },
    }
}

/// The rows for the directories that match `q`, the best match first. `home` is the text that a
/// tilde at the start of `q` stands for.
pub fn matching_dirs(index: &Vec<IndexedDir>, q: &str, home: &str) -> (r: Vec<DirNode>)
    ensures
        tree::node_views(r@) == matching_rows(index_views(index@), q@, home@),
{
    let typed: Vec<char> = text::chars_of(q);
    let tilde: bool = typed.len() > 0 && typed[0] == '~';
    let mut slash: bool = false;
    let mut i: usize = 0;
    while i < typed.len()
        invariant
            i <= typed.len(),
            slash <==> typed@.take(i as int).contains('/'),
        decreases typed.len() - i,
    {
        let c: char = typed[i];
        proof {
            let now = typed@.take(i + 1);
            assert(now =~= typed@.take(i as int).push(c));
            assert(now[i as int] == c);
            if now.contains('/') && c != '/' {
                let k = choose|k: int| 0 <= k < now.len() && now[k] == '/';
                assert(typed@.take(i as int)[k] == '/');
            }
            if typed@.take(i as int).contains('/') {
                let k = choose|k: int|
                    0 <= k < typed@.take(i as int).len() && typed@.take(i as int)[k] == '/';
                assert(now[k] == '/');
            }
        }
        if c == '/' {
            slash = true;
        }
        i = i + 1;
    }
    assert(typed@.take(i as int) =~= typed@);
    let about_paths: bool = slash || tilde;
    let whole: String = if tilde {
        let rest: String = text::text_of(&typed, 1, typed.len());
        assert(rest@ =~= q@.drop_first());
        text::joined(home, rest.as_str())
    } else {
        q.to_owned()
    };
    assert(whole@ == with_home(q@, home@));
    assert(about_paths == is_about_paths(q@));
    let ghost iv = index_views(index@);
    let ghost all = Seq::new(iv.len(), |i: int| i);
    let ghost pick = |i: int| dir_hit(iv, q@, home@, i);
    let ghost mut hits: Seq<order::Hit> = Seq::empty();
    let mut indices: Vec<usize> = Vec::new();
    let mut ranks: Vec<order::Rank> = Vec::new();
    let mut j: usize = 0;
    assert(all.take(0).filter_map(pick) =~= hits);
    assert(order::hit_indices(hits) =~= order::positions(indices@));
    assert(order::hit_ranks(hits) =~= order::rank_views(ranks@));
    while j < index.len()
        invariant
            j <= index.len(),
            whole@ == with_home(q@, home@),
            about_paths == is_about_paths(q@),
            iv == index_views(index@),
            all == Seq::new(iv.len(), |i: int| i),
            pick == (|i: int| dir_hit(iv, q@, home@, i)),
            hits == all.take(j as int).filter_map(pick),
            order::hit_indices(hits) == order::positions(indices@),
            order::hit_ranks(hits) == order::rank_views(ranks@),
            indices.len() == ranks.len(),
            forall|k: int| 0 <= k < indices.len() ==> #[trigger] indices[k] < index.len(),
        decreases index.len() - j,
    {
        proof {
            all.lemma_filter_map_take_succ(pick, j as int);
            assert(iv[j as int] == index[j as int]@);
        }
        if let Some(score) = score_dir(&index[j], about_paths, q, whole.as_str()) {
            let ghost before = (indices@, ranks@, hits);
            let text: Vec<char> = text::chars_of(index[j].full_lower.as_str());
            let rank = order::Rank { major: score, minor: 0, text };
            indices.push(j);
            ranks.push(rank);
            proof {
                let hit = dir_hit(iv, q@, home@, j as int)->0;
                hits = hits + seq![hit];
                assert(rank@ =~= hit.rank);
                assert(order::hit_indices(hits) =~= order::hit_indices(before.2).push(hit.index));
                assert(order::hit_ranks(hits) =~= order::hit_ranks(before.2).push(hit.rank));
                assert(order::positions(indices@) =~= order::positions(before.0).push(j as int));
                assert(order::rank_views(ranks@) =~= order::rank_views(before.1).push(rank@));
            }
        }
        j = j + 1;
    }
    assert(all.take(j as int) =~= all);
    let order: Vec<usize> = order::ranked(&ranks);
    let ghost places = indices@;
    let mut best: Vec<usize> = order::arranged(indices, &order);
    let ghost sorted = order::best_first(hits);
    assert(order::positions(best@) =~= sorted);
    assert forall|k: int| 0 <= k < best.len() implies #[trigger] best[k] < index.len() by {
        assert(best[k] == places[order[k] as int]);
    }
    best.truncate(MAX_MATCHES);
    let ghost first = if sorted.len() <= MAX_MATCHES {
        sorted
    } else {
        sorted.take(MAX_MATCHES as int)
    };
    assert(order::positions(best@) =~= first);
    let mut r: Vec<DirNode> = Vec::new();
    let mut m: usize = 0;
    while m < best.len()
        invariant
            m <= best.len(),
            r.len() == m,
            iv == index_views(index@),
            forall|k: int| 0 <= k < best.len() ==> #[trigger] best[k] < index.len(),
            forall|k: int|
                0 <= k < m ==> (#[trigger] r[k])@ == (tree::NodeView {
                    path: iv[best[k] as int].path,
                    depth: 0,
                    expanded: false,
                }),
        decreases best.len() - m,
    {
        assert(iv[best[m as int] as int] == index[best[m as int] as int]@);
        let node = DirNode { path: index[best[m]].path.clone(), depth: 0, expanded: false };
        r.push(node);
        m = m + 1;
    }
    proof {
        assert forall|k: int| 0 <= k < r.len() implies #[trigger] tree::node_views(r@)[k]
            == matching_rows(iv, q@, home@)[k] by {
            assert(first[k] == best[k] as int);
        }
        assert(tree::node_views(r@) =~= matching_rows(iv, q@, home@));
    }
    r
}

/// What the directory box shows for what was typed.
pub fn filtered_visible_dirs(
    nodes: &mut Vec<DirNode>,
    children: &ChildCache,
    index: &Vec<IndexedDir>,
    query: &str,
    root: &DirPath,
) -> (r: DirListing)
    ensures
        ({
            let w = listed_dirs(
                tree::node_views(old(nodes)@),
                children@,
                index_views(index@),
                query@,
                root@,
            );
            &&& tree::node_views(final(nodes)@) == w.nodes
            &&& tree::node_views(r.rows@) == w.rows
            &&& paths::path_views(r.unread@) == w.unread
        }),
        text::trimmed(query@).len() == 0 ==> {
            let w = tree::visible(tree::node_views(old(nodes)@), children@, root@);
            &&& tree::node_views(final(nodes)@) == w.nodes
            &&& tree::node_views(r.rows@) == w.rows
            &&& paths::path_views(r.unread@) == w.unread
        },
{
    let trimmed: String = text::trim(query);
    if trimmed.as_str().is_empty() {
        return tree::visible_dirs(nodes, children, root);
    }
    let q: String = trimmed.as_str().to_lowercase();
    if q.as_str().is_empty() {
        return tree::visible_dirs(nodes, children, root);
    }
    let home: String = root.text();
    let rows: Vec<DirNode> = matching_dirs(index, q.as_str(), home.as_str());
    let unread: Vec<DirPath> = Vec::new();
    assert(paths::path_views(unread@) =~= Seq::<Seq<u8>>::empty());
    DirListing { rows, unread }
}

/// Whether the directory at `i` is listed before the one at `j`.
pub open spec fn found_before(
    index: Seq<IndexedView>,
    q: Seq<char>,
    home: Seq<char>,
    i: int,
    j: int,
) -> bool {
    let a = dir_score(index[i], q, home)->0;
    let b = dir_score(index[j], q, home)->0;
    if a != b {
        a > b
    } else if index[i].full_lower != index[j].full_lower {
        order::text_before(index[i].full_lower, index[j].full_lower)
    } else {
        i < j
    }
}

/// Which directories a search finds, and in which order: exactly those of the index that match,
/// each once; a better match first, then the path that is first in alphabetical order, then the one
/// that the index lists first. The rows are the first of them, as many as are listed at most, all
/// of them collapsed.
pub proof fn lemma_matching_rows(index: Seq<IndexedView>, q: Seq<char>, home: Seq<char>)
    ensures
        ({
            let found = order::best_first(dir_hits(index, q, home));
            let rows = matching_rows(index, q, home);
            &&& forall|i: int| #[trigger]
                found.contains(i) <==> 0 <= i < index.len() && dir_score(index[i], q, home) is Some
            &&& found.no_duplicates()
            &&& forall|a: int, b: int|
                0 <= a < b < found.len() ==> found_before(
                    index,
                    q,
                    home,
                    #[trigger] found[a],
                    #[trigger] found[b],
                )
            &&& rows.len() == (if found.len() <= MAX_MATCHES {
                found.len()
            } else {
                MAX_MATCHES as nat
            })
            &&& forall|k: int|
                0 <= k < rows.len() ==> (#[trigger] rows[k]) == (tree::NodeView {
                    path: index[found[k]].path,
                    depth: 0,
                    expanded: false,
                })
        }),
{
    let found = order::best_first(dir_hits(index, q, home));
    let pick = |i: int| dir_hit(index, q, home, i);
    order::lemma_best_first(index.len(), pick);
    assert forall|a: int, b: int| 0 <= a < b < found.len() implies found_before(
        index,
        q,
        home,
        #[trigger] found[a],
        #[trigger] found[b],
    ) by {
        let i = found[a];
        let j = found[b];
        assert(order::hit_before(pick, i, j));
        assert(found.contains(i) && found.contains(j));
        order::lemma_text_order(index[i].full_lower, index[j].full_lower, index[i].full_lower);
    }
}

/// A search for nothing but white space shows the tree, whatever the index holds.
pub proof fn lemma_blank_search_shows_the_tree(
    nodes: Seq<tree::NodeView>,
    children: Seq<tree::ChildListView>,
    index: Seq<IndexedView>,
    query: Seq<char>,
    root: Seq<u8>,
)
    requires
        text::trimmed(query).len() == 0,
    ensures
        listed_dirs(nodes, children, index, query, root) == tree::visible(nodes, children, root),
{
}

} // verus!
