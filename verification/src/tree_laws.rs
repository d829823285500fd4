//! What holds of the directory tree as a whole.
use crate::order;
use crate::paths;
use crate::tree;
use vstd::prelude::*;

verus! {

/// Whether every directory that is remembered lists paths one level further down.
pub open spec fn leads_down(cache: Seq<tree::ChildListView>) -> bool {
    forall|k: int, c: int|
        0 <= k < cache.len() && 0 <= c < cache[k].children.len() ==> paths::components(
            #[trigger] cache[k].children[c],
        ).len() == paths::components(cache[k].path).len() + 1
}

/// Whether a path is that of an entry which the tree shows, one level below the directory.
pub open spec fn is_shown_entry(path: Seq<u8>, entries: Seq<tree::EntryView>, child: Seq<u8>) -> bool {
    exists|e: tree::EntryView|
        {
            &&& #[trigger] entries.contains(e)
            &&& tree::is_shown(e)
            &&& child == paths::joined_path(path, e.name)
            &&& paths::components(child) == paths::components(path).push(e.name)
        }
}

/// The children of a directory lie one level below it: each is one of its entries that are shown,
/// and no more are listed than fit.
pub proof fn lemma_children_lie_below(path: Seq<u8>, entries: Seq<tree::EntryView>)
    ensures
        tree::shown_children(path, entries).len() <= tree::MAX_CHILDREN,
        forall|c: int|
            0 <= c < tree::shown_children(path, entries).len() ==> is_shown_entry(
                path,
                entries,
                #[trigger] tree::shown_children(path, entries)[c],
            ),
{
    let kept = entries.filter(|e: tree::EntryView| tree::is_shown(e));
    let ranks = kept.map_values(|e: tree::EntryView| tree::entry_rank(e));
    let order = order::ranking(ranks);
    order::lemma_ranking(ranks);
    let children = tree::shown_children(path, entries);
    assert forall|c: int| 0 <= c < children.len() implies is_shown_entry(
        path,
        entries,
        #[trigger] children[c],
    ) by {
        assert(order.contains(order[c]));
        let e = kept[order[c]];
        assert(order::arranged_by(kept, order)[c] == e);
        entries.lemma_filter_pred(|e: tree::EntryView| tree::is_shown(e), order[c]);
        assert(kept.contains(e));
        entries.lemma_filter_contains_rev(|e: tree::EntryView| tree::is_shown(e), e);
        paths::lemma_joined_components(path, e.name);
        assert(entries.contains(e));
    }
}

/// What is remembered leads down, however many directories are read.
pub proof fn lemma_remembered_leads_down(
    cache: Seq<tree::ChildListView>,
    path: Seq<u8>,
    entries: Seq<tree::EntryView>,
)
    requires
        leads_down(cache),
    ensures
        leads_down(tree::remembered(cache, path, entries)),
{
    let now = tree::remembered(cache, path, entries);
    lemma_children_lie_below(path, entries);
    assert forall|k: int, c: int|
        0 <= k < now.len() && 0 <= c < now[k].children.len() implies paths::components(
        #[trigger] now[k].children[c],
    ).len() == paths::components(now[k].path).len() + 1 by {
        if k < cache.len() {
            assert(now[k] == cache[k]);
            assert(paths::components(cache[k].children[c]).len() == paths::components(
                cache[k].path,
            ).len() + 1);
        } else {
            assert(now[k].children[c] == tree::shown_children(path, entries)[c]);
            assert(is_shown_entry(path, entries, tree::shown_children(path, entries)[c]));
        }
    }
}

/// A directory that was read keeps its list until everything is forgotten.
pub proof fn lemma_first_reading_stays(
    cache: Seq<tree::ChildListView>,
    path: Seq<u8>,
    entries: Seq<tree::EntryView>,
    later: Seq<tree::EntryView>,
)
    ensures
        tree::remembered(tree::remembered(cache, path, entries), path, later) == tree::remembered(
            cache,
            path,
            entries,
        ),
{
    if tree::known_children(cache, path) is None {
        tree::lemma_list_place_push(
            cache,
            tree::ChildListView { path, children: tree::shown_children(path, entries) },
            path,
            0,
        );
    }
}

/// Whether the node of a path is expanded.
pub open spec fn is_open(nodes: Seq<tree::NodeView>, path: Seq<u8>) -> bool {
    match tree::node_place(nodes, path, 0) {
        Some(k) => nodes[k].expanded,
        None => false,
    }
}

pub proof fn lemma_node_place(nodes: Seq<tree::NodeView>, path: Seq<u8>, from: int)
    requires
        0 <= from,
    ensures
        tree::node_place(nodes, path, from) matches Some(k) ==> from <= k < nodes.len()
            && paths::components(nodes[k].path) == paths::components(path) && forall|j: int|
            from <= j < k ==> paths::components(#[trigger] nodes[j].path) != paths::components(
                path,
            ),
        tree::node_place(nodes, path, from) is None ==> forall|j: int|
            from <= j < nodes.len() ==> paths::components(#[trigger] nodes[j].path)
                != paths::components(path),
    decreases nodes.len() - from,
{
    if from < nodes.len() && paths::components(nodes[from].path) != paths::components(path) {
        lemma_node_place(nodes, path, from + 1);
    }
}

pub proof fn lemma_node_place_is(nodes: Seq<tree::NodeView>, path: Seq<u8>, from: int, k: int)
    requires
        0 <= from <= k <= nodes.len(),
        forall|j: int|
            from <= j < k ==> paths::components(#[trigger] nodes[j].path) != paths::components(
                path,
            ),
        k < nodes.len() ==> paths::components(nodes[k].path) == paths::components(path),
    ensures
        tree::node_place(nodes, path, from) == (if k < nodes.len() {
            Some(k)
        } else {
            None::<int>
        }),
    decreases k - from,
{
    if from < k {
        lemma_node_place_is(nodes, path, from + 1, k);
    }
}

/// Meeting a directory leaves every directory as expanded or collapsed as it was.
pub proof fn lemma_met_keeps_open(
    nodes: Seq<tree::NodeView>,
    path: Seq<u8>,
    depth: nat,
    other: Seq<u8>,
)
    ensures
        is_open(tree::met(nodes, path, depth), other) == is_open(nodes, other),
{
    let now = tree::met(nodes, path, depth);
    lemma_node_place(nodes, path, 0);
    lemma_node_place(nodes, other, 0);
    let old_len = nodes.len() as int;
    let k = match tree::node_place(nodes, other, 0) {
        Some(k) => k,
        None => old_len,
    };
    assert forall|j: int| 0 <= j < k implies paths::components(#[trigger] now[j].path)
        != paths::components(other) by {
        assert(now[j].path == nodes[j].path);
    }
    if k < old_len {
        assert(now[k].path == nodes[k].path);
        lemma_node_place_is(now, other, 0, k);
    } else if now.len() == old_len {
        lemma_node_place_is(now, other, 0, k);
    } else if paths::components(path) == paths::components(other) {
        lemma_node_place_is(now, other, 0, k);
    } else {
        lemma_node_place_is(now, other, 0, now.len() as int);
    }
}

/// Showing the tree leaves every directory as expanded or collapsed as it was.
pub proof fn lemma_walk_keeps_open(
    nodes: Seq<tree::NodeView>,
    cache: Seq<tree::ChildListView>,
    path: Seq<u8>,
    depth: nat,
    limit: nat,
    other: Seq<u8>,
)
    ensures
        is_open(tree::walk(nodes, cache, path, depth, limit).nodes, other) == is_open(nodes, other),
    decreases limit, 0nat,
{
    lemma_met_keeps_open(nodes, path, depth, other);
    let node = tree::met_node(nodes, path, depth);
    if node.expanded && limit > 0 && tree::known_children(cache, node.path) is Some {
        lemma_walk_all_keeps_open(
            tree::met(nodes, path, depth),
            cache,
            tree::known_children(cache, node.path)->0,
            depth + 1,
            (limit - 1) as nat,
            other,
        );
    }
}

proof fn lemma_walk_all_keeps_open(
    nodes: Seq<tree::NodeView>,
    cache: Seq<tree::ChildListView>,
    list: Seq<Seq<u8>>,
    depth: nat,
    limit: nat,
    other: Seq<u8>,
)
    ensures
        is_open(tree::walk_all(nodes, cache, list, depth, limit).nodes, other) == is_open(
            nodes,
            other,
        ),
    decreases limit, list.len() + 1,
{
    if list.len() > 0 {
        let first = tree::walk_all(nodes, cache, list.drop_last(), depth, limit);
        lemma_walk_all_keeps_open(nodes, cache, list.drop_last(), depth, limit, other);
        lemma_walk_keeps_open(first.nodes, cache, list.last(), depth, limit, other);
    }
}

/// The first row is the directory the walk starts from, at its depth, and it is expanded exactly
/// where its node is.
pub proof fn lemma_walk_starts_with_root(
    nodes: Seq<tree::NodeView>,
    cache: Seq<tree::ChildListView>,
    path: Seq<u8>,
    depth: nat,
    limit: nat,
)
    ensures
        ({
            let rows = tree::walk(nodes, cache, path, depth, limit).rows;
            &&& rows.len() > 0
            &&& rows[0].depth == depth
            &&& paths::components(rows[0].path) == paths::components(path)
            &&& rows[0].expanded == is_open(nodes, path)
            &&& !is_open(nodes, path) ==> rows.len() == 1
        }),
{
    lemma_node_place(nodes, path, 0);
}

/// How many expanded nodes lie at `level` or deeper.
spec fn open_from(nodes: Seq<tree::NodeView>, level: nat) -> nat
    decreases nodes.len(),
{
    if nodes.len() == 0 {
        0
    } else {
        open_from(nodes.drop_last(), level) + (if nodes.last().expanded && paths::components(
            nodes.last().path,
        ).len() >= level {
            1nat
        } else {
            0nat
        })
    }
}

proof fn lemma_open_from_update(nodes: Seq<tree::NodeView>, k: int, depth: nat, level: nat)
    requires
        0 <= k < nodes.len(),
    ensures
        open_from(nodes.update(k, tree::NodeView { depth, ..nodes[k] }), level) == open_from(
            nodes,
            level,
        ),
    decreases nodes.len(),
{
    let now = nodes.update(k, tree::NodeView { depth, ..nodes[k] });
    if k < nodes.len() - 1 {
        lemma_open_from_update(nodes.drop_last(), k, depth, level);
        assert(now.drop_last() =~= nodes.drop_last().update(
            k,
            tree::NodeView { depth, ..nodes.drop_last()[k] },
        ));
    } else {
        assert(now.drop_last() =~= nodes.drop_last());
    }
}

proof fn lemma_met_open_from(nodes: Seq<tree::NodeView>, path: Seq<u8>, depth: nat, level: nat)
    ensures
        open_from(tree::met(nodes, path, depth), level) == open_from(nodes, level),
{
    lemma_node_place(nodes, path, 0);
    match tree::node_place(nodes, path, 0) {
        Some(k) => {
            lemma_open_from_update(nodes, k, depth, level);
        },
        None => {
            assert(tree::met(nodes, path, depth).drop_last() =~= nodes);
        },
    }
}

proof fn lemma_open_from_less(nodes: Seq<tree::NodeView>, k: int)
    requires
        0 <= k < nodes.len(),
        nodes[k].expanded,
    ensures
        open_from(nodes, paths::components(nodes[k].path).len()) > open_from(
            nodes,
            paths::components(nodes[k].path).len() + 1,
        ),
    decreases nodes.len(),
{
    let level = paths::components(nodes[k].path).len();
    if k < nodes.len() - 1 {
        lemma_open_from_less(nodes.drop_last(), k);
    } else {
        lemma_open_from_step(nodes.drop_last(), level);
    }
}

proof fn lemma_open_from_step(nodes: Seq<tree::NodeView>, level: nat)
    ensures
        open_from(nodes, level) >= open_from(nodes, level + 1),
    decreases nodes.len(),
{
    if nodes.len() > 0 {
        lemma_open_from_step(nodes.drop_last(), level);
    }
}

proof fn lemma_open_from_bound(nodes: Seq<tree::NodeView>, level: nat)
    ensures
        open_from(nodes, level) <= nodes.len(),
    decreases nodes.len(),
{
    if nodes.len() > 0 {
        lemma_open_from_bound(nodes.drop_last(), level);
    }
}

proof fn lemma_walk_open_from(
    nodes: Seq<tree::NodeView>,
    cache: Seq<tree::ChildListView>,
    path: Seq<u8>,
    depth: nat,
    limit: nat,
    level: nat,
)
    ensures
        open_from(tree::walk(nodes, cache, path, depth, limit).nodes, level) == open_from(
            nodes,
            level,
        ),
    decreases limit, 0nat,
{
    lemma_met_open_from(nodes, path, depth, level);
    let node = tree::met_node(nodes, path, depth);
    if node.expanded && limit > 0 && tree::known_children(cache, node.path) is Some {
        lemma_walk_all_open_from(
            tree::met(nodes, path, depth),
            cache,
            tree::known_children(cache, node.path)->0,
            depth + 1,
            (limit - 1) as nat,
            level,
        );
    }
}

proof fn lemma_walk_all_open_from(
    nodes: Seq<tree::NodeView>,
    cache: Seq<tree::ChildListView>,
    list: Seq<Seq<u8>>,
    depth: nat,
    limit: nat,
    level: nat,
)
    ensures
        open_from(tree::walk_all(nodes, cache, list, depth, limit).nodes, level) == open_from(
            nodes,
            level,
        ),
    decreases limit, list.len() + 1,
{
    if list.len() > 0 {
        let first = tree::walk_all(nodes, cache, list.drop_last(), depth, limit);
        lemma_walk_all_open_from(nodes, cache, list.drop_last(), depth, limit, level);
        lemma_walk_open_from(first.nodes, cache, list.last(), depth, limit, level);
    }
}

proof fn lemma_list_place(cache: Seq<tree::ChildListView>, path: Seq<u8>, from: int)
    requires
        0 <= from,
    ensures
        tree::list_place(cache, path, from) matches Some(k) ==> from <= k < cache.len()
            && paths::components(cache[k].path) == paths::components(path),
    decreases cache.len() - from,
{
    if from < cache.len() && paths::components(cache[from].path) != paths::components(path) {
        lemma_list_place(cache, path, from + 1);
    }
}

proof fn lemma_limit_step(
    nodes: Seq<tree::NodeView>,
    cache: Seq<tree::ChildListView>,
    path: Seq<u8>,
    depth: nat,
    limit: nat,
)
    requires
        leads_down(cache),
        limit >= open_from(nodes, paths::components(path).len()),
    ensures
        tree::walk(nodes, cache, path, depth, limit + 1) == tree::walk(
            nodes,
            cache,
            path,
            depth,
            limit,
        ),
    decreases limit, 0nat,
{
    let node = tree::met_node(nodes, path, depth);
    let now = tree::met(nodes, path, depth);
    let level = paths::components(path).len();
    lemma_node_place(nodes, path, 0);
    if node.expanded {
        let k = tree::node_place(nodes, path, 0)->0;
        lemma_open_from_less(nodes, k);
        lemma_met_open_from(nodes, path, depth, level + 1);
        if tree::known_children(cache, node.path) is Some {
            let children = tree::known_children(cache, node.path)->0;
            lemma_list_place(cache, node.path, 0);
            let at = tree::list_place(cache, node.path, 0)->0;
            assert forall|c: int| 0 <= c < children.len() implies paths::components(
                #[trigger] children[c],
            ).len() == level + 1 by {
                assert(children[c] == cache[at].children[c]);
            }
            lemma_limit_step_all(now, cache, children, depth + 1, (limit - 1) as nat, level + 1);
        }
    }
}

proof fn lemma_limit_step_all(
    nodes: Seq<tree::NodeView>,
    cache: Seq<tree::ChildListView>,
    list: Seq<Seq<u8>>,
    depth: nat,
    limit: nat,
    level: nat,
)
    requires
        leads_down(cache),
        limit >= open_from(nodes, level),
        forall|c: int|
            0 <= c < list.len() ==> paths::components(#[trigger] list[c]).len() == level,
    ensures
        tree::walk_all(nodes, cache, list, depth, limit + 1) == tree::walk_all(
            nodes,
            cache,
            list,
            depth,
            limit,
        ),
    decreases limit, list.len() + 1,
{
    if list.len() > 0 {
        let fewer = list.drop_last();
        assert forall|c: int| 0 <= c < fewer.len() implies paths::components(
            #[trigger] fewer[c],
        ).len() == level by {
            assert(fewer[c] == list[c]);
        }
        lemma_limit_step_all(nodes, cache, fewer, depth, limit, level);
        let first = tree::walk_all(nodes, cache, fewer, depth, limit);
        lemma_walk_all_open_from(nodes, cache, fewer, depth, limit, level);
        assert(paths::components(list[list.len() - 1]).len() == level);
        lemma_limit_step(first.nodes, cache, list.last(), depth, limit);
    }
}

/// The tree is shown in full: following expanded directories further than there are known
/// directories never shows more.
pub proof fn lemma_tree_is_shown_in_full(
    nodes: Seq<tree::NodeView>,
    cache: Seq<tree::ChildListView>,
    root: Seq<u8>,
    limit: nat,
)
    requires
        leads_down(cache),
        limit >= tree::rooted(nodes, root).len(),
    ensures
        tree::walk(tree::rooted(nodes, root), cache, root, 0, limit) == tree::visible(
            nodes,
            cache,
            root,
        ),
    decreases limit,
{
    let start = tree::rooted(nodes, root);
    if limit > start.len() {
        lemma_tree_is_shown_in_full(nodes, cache, root, (limit - 1) as nat);
        lemma_open_from_bound(start, paths::components(root).len());
        lemma_limit_step(start, cache, root, 0, (limit - 1) as nat);
    }
}

/// Whether every row stands for a directory that has a node, and is shown as expanded exactly where
/// that node is.
pub open spec fn rows_have_nodes(rows: Seq<tree::NodeView>, nodes: Seq<tree::NodeView>) -> bool {
    forall|i: int| 0 <= i < rows.len() ==> has_node(nodes, #[trigger] rows[i])
}

/// Whether a row stands for a directory that has a node, and is shown as expanded exactly where
/// that node is.
pub open spec fn has_node(nodes: Seq<tree::NodeView>, row: tree::NodeView) -> bool {
    &&& tree::node_place(nodes, row.path, 0) is Some
    &&& row.expanded == is_open(nodes, row.path)
}

/// Meeting a directory leaves a node to every directory that had one, and gives one to it.
proof fn lemma_met_keeps_nodes(
    nodes: Seq<tree::NodeView>,
    path: Seq<u8>,
    depth: nat,
    other: Seq<u8>,
)
    ensures
        tree::node_place(nodes, other, 0) is Some ==> tree::node_place(
            tree::met(nodes, path, depth),
            other,
            0,
        ) is Some,
        tree::node_place(
            tree::met(nodes, path, depth),
            tree::met_node(nodes, path, depth).path,
            0,
        ) is Some,
{
    let now = tree::met(nodes, path, depth);
    let row = tree::met_node(nodes, path, depth);
    lemma_node_place(nodes, path, 0);
    lemma_node_place(nodes, other, 0);
    lemma_node_place(now, other, 0);
    lemma_node_place(now, row.path, 0);
    if let Some(k) = tree::node_place(nodes, other, 0) {
        assert(paths::components(now[k].path) == paths::components(nodes[k].path));
    }
    match tree::node_place(nodes, path, 0) {
        Some(k) => {
            assert(now[k].path == row.path);
        },
        None => {
            assert(now[nodes.len() as int].path == row.path);
        },
    }
}

/// Showing the tree leaves a node to every directory that had one.
proof fn lemma_walk_keeps_nodes(
    nodes: Seq<tree::NodeView>,
    cache: Seq<tree::ChildListView>,
    path: Seq<u8>,
    depth: nat,
    limit: nat,
    other: Seq<u8>,
)
    requires
        tree::node_place(nodes, other, 0) is Some,
    ensures
        tree::node_place(tree::walk(nodes, cache, path, depth, limit).nodes, other, 0) is Some,
    decreases limit, 0nat,
{
    lemma_met_keeps_nodes(nodes, path, depth, other);
    let node = tree::met_node(nodes, path, depth);
    if node.expanded && limit > 0 && tree::known_children(cache, node.path) is Some {
        lemma_walk_all_keeps_nodes(
            tree::met(nodes, path, depth),
            cache,
            tree::known_children(cache, node.path)->0,
            depth + 1,
            (limit - 1) as nat,
            other,
        );
    }
}

proof fn lemma_walk_all_keeps_nodes(
    nodes: Seq<tree::NodeView>,
    cache: Seq<tree::ChildListView>,
    list: Seq<Seq<u8>>,
    depth: nat,
    limit: nat,
    other: Seq<u8>,
)
    requires
        tree::node_place(nodes, other, 0) is Some,
    ensures
        tree::node_place(tree::walk_all(nodes, cache, list, depth, limit).nodes, other, 0) is Some,
    decreases limit, list.len() + 1,
{
    if list.len() > 0 {
        let first = tree::walk_all(nodes, cache, list.drop_last(), depth, limit);
        lemma_walk_all_keeps_nodes(nodes, cache, list.drop_last(), depth, limit, other);
        lemma_walk_keeps_nodes(first.nodes, cache, list.last(), depth, limit, other);
    }
}

/// The tree is shown as it is: every row stands for a directory that has a node, and is shown as
/// expanded exactly where that node is.
pub proof fn lemma_rows_have_nodes(
    nodes: Seq<tree::NodeView>,
    cache: Seq<tree::ChildListView>,
    path: Seq<u8>,
    depth: nat,
    limit: nat,
)
    ensures
        rows_have_nodes(
            tree::walk(nodes, cache, path, depth, limit).rows,
            tree::walk(nodes, cache, path, depth, limit).nodes,
        ),
    decreases limit, 0nat,
{
    let node = tree::met_node(nodes, path, depth);
    let now = tree::met(nodes, path, depth);
    let all = tree::walk(nodes, cache, path, depth, limit);
    lemma_met_keeps_nodes(nodes, path, depth, path);
    lemma_node_place(nodes, path, 0);
    lemma_node_place(now, node.path, 0);
    assert(has_node(now, node)) by {
        match tree::node_place(nodes, path, 0) {
            Some(k) => {
                lemma_node_place_is(now, node.path, 0, k);
            },
            None => {
                lemma_node_place_is(now, node.path, 0, nodes.len() as int);
            },
        }
    }
    if node.expanded && limit > 0 && tree::known_children(cache, node.path) is Some {
        let children = tree::known_children(cache, node.path)->0;
        let inner = tree::walk_all(now, cache, children, depth + 1, (limit - 1) as nat);
        lemma_all_rows_have_nodes(now, cache, children, depth + 1, (limit - 1) as nat);
        lemma_walk_all_keeps_nodes(now, cache, children, depth + 1, (limit - 1) as nat, node.path);
        lemma_walk_all_keeps_open(now, cache, children, depth + 1, (limit - 1) as nat, node.path);
        assert forall|i: int| 0 <= i < all.rows.len() implies has_node(
            all.nodes,
            #[trigger] all.rows[i],
        ) by {
            if i > 0 {
                assert(all.rows[i] == inner.rows[i - 1]);
            }
        }
    }
}

proof fn lemma_all_rows_have_nodes(
    nodes: Seq<tree::NodeView>,
    cache: Seq<tree::ChildListView>,
    list: Seq<Seq<u8>>,
    depth: nat,
    limit: nat,
)
    ensures
        rows_have_nodes(
            tree::walk_all(nodes, cache, list, depth, limit).rows,
            tree::walk_all(nodes, cache, list, depth, limit).nodes,
        ),
    decreases limit, list.len() + 1,
{
    if list.len() > 0 {
        let first = tree::walk_all(nodes, cache, list.drop_last(), depth, limit);
        let last = tree::walk(first.nodes, cache, list.last(), depth, limit);
        let all = tree::walk_all(nodes, cache, list, depth, limit);
        lemma_all_rows_have_nodes(nodes, cache, list.drop_last(), depth, limit);
        lemma_rows_have_nodes(first.nodes, cache, list.last(), depth, limit);
        assert forall|i: int| 0 <= i < all.rows.len() implies has_node(
            all.nodes,
            #[trigger] all.rows[i],
        ) by {
            if i < first.rows.len() {
                let row = first.rows[i];
                assert(all.rows[i] == row);
                lemma_walk_keeps_nodes(
                    first.nodes,
                    cache,
                    list.last(),
                    depth,
                    limit,
                    row.path,
                );
                lemma_walk_keeps_open(first.nodes, cache, list.last(), depth, limit, row.path);
            } else {
                assert(all.rows[i] == last.rows[i - first.rows.len()]);
            }
        }
    }
}

/// Whether nodes start with others, of which they may differ in the depth.
pub open spec fn starts_like(nodes: Seq<tree::NodeView>, first: Seq<tree::NodeView>) -> bool {
    &&& first.len() <= nodes.len()
    &&& forall|i: int|
        0 <= i < first.len() ==> (#[trigger] nodes[i]).path == first[i].path && nodes[i].expanded
            == first[i].expanded
}

/// Meeting a directory adds at most one node behind the others.
proof fn lemma_met_starts_like(nodes: Seq<tree::NodeView>, path: Seq<u8>, depth: nat)
    ensures
        starts_like(tree::met(nodes, path, depth), nodes),
{
    lemma_node_place(nodes, path, 0);
}

/// Showing the tree keeps the nodes that there are, each at its place with its path, expanded or
/// collapsed as it was; new ones come behind them.
pub proof fn lemma_walk_starts_like(
    nodes: Seq<tree::NodeView>,
    cache: Seq<tree::ChildListView>,
    path: Seq<u8>,
    depth: nat,
    limit: nat,
)
    ensures
        starts_like(tree::walk(nodes, cache, path, depth, limit).nodes, nodes),
    decreases limit, 0nat,
{
    lemma_met_starts_like(nodes, path, depth);
    let node = tree::met_node(nodes, path, depth);
    if node.expanded && limit > 0 && tree::known_children(cache, node.path) is Some {
        lemma_walk_all_starts_like(
            tree::met(nodes, path, depth),
            cache,
            tree::known_children(cache, node.path)->0,
            depth + 1,
            (limit - 1) as nat,
        );
    }
}

proof fn lemma_walk_all_starts_like(
    nodes: Seq<tree::NodeView>,
    cache: Seq<tree::ChildListView>,
    list: Seq<Seq<u8>>,
    depth: nat,
    limit: nat,
)
    ensures
        starts_like(tree::walk_all(nodes, cache, list, depth, limit).nodes, nodes),
    decreases limit, list.len() + 1,
{
    if list.len() > 0 {
        let first = tree::walk_all(nodes, cache, list.drop_last(), depth, limit);
        lemma_walk_all_starts_like(nodes, cache, list.drop_last(), depth, limit);
        lemma_walk_starts_like(first.nodes, cache, list.last(), depth, limit);
    }
}

/// Among nodes that a directory was met in before, it is met again as it was then.
proof fn lemma_met_again(
    nodes: Seq<tree::NodeView>,
    path: Seq<u8>,
    depth: nat,
    later: Seq<tree::NodeView>,
)
    requires
        starts_like(later, tree::met(nodes, path, depth)),
    ensures
        tree::met_node(later, path, depth) == tree::met_node(nodes, path, depth),
        starts_like(tree::met(later, path, depth), later),
        tree::met(later, path, depth).len() == later.len(),
{
    let now = tree::met(nodes, path, depth);
    lemma_node_place(nodes, path, 0);
    let k = match tree::node_place(nodes, path, 0) {
        Some(k) => k,
        None => nodes.len() as int,
    };
    assert(later[k].path == now[k].path);
    assert forall|j: int| 0 <= j < k implies paths::components(#[trigger] later[j].path)
        != paths::components(path) by {
        assert(later[j].path == now[j].path);
        assert(now[j].path == nodes[j].path);
    }
    lemma_node_place_is(later, path, 0, k);
}

/// Among the nodes that a walk led to, the same walk shows the same rows.
proof fn lemma_walk_again(
    nodes: Seq<tree::NodeView>,
    cache: Seq<tree::ChildListView>,
    path: Seq<u8>,
    depth: nat,
    limit: nat,
    later: Seq<tree::NodeView>,
)
    requires
        starts_like(later, tree::walk(nodes, cache, path, depth, limit).nodes),
    ensures
        ({
            let first = tree::walk(nodes, cache, path, depth, limit);
            let again = tree::walk(later, cache, path, depth, limit);
            &&& again.rows == first.rows
            &&& again.unread == first.unread
            &&& again.nodes.len() == later.len()
            &&& starts_like(again.nodes, later)
        }),
    decreases limit, 0nat,
{
    let node = tree::met_node(nodes, path, depth);
    let now = tree::met(nodes, path, depth);
    if node.expanded && limit > 0 && tree::known_children(cache, node.path) is Some {
        let children = tree::known_children(cache, node.path)->0;
        lemma_walk_all_starts_like(now, cache, children, depth + 1, (limit - 1) as nat);
        let first = tree::walk_all(now, cache, children, depth + 1, (limit - 1) as nat);
        lemma_starts_like_all(later, first.nodes, now);
        lemma_met_again(nodes, path, depth, later);
        let later_now = tree::met(later, path, depth);
        lemma_starts_like_all(later_now, later, first.nodes);
        lemma_walk_all_again(now, cache, children, depth + 1, (limit - 1) as nat, later_now);
        let again = tree::walk_all(later_now, cache, children, depth + 1, (limit - 1) as nat);
        lemma_starts_like_all(again.nodes, later_now, later);
    } else {
        lemma_met_again(nodes, path, depth, later);
    }
}

/// What starts like something that starts like a third starts like that.
proof fn lemma_starts_like_all(
    a: Seq<tree::NodeView>,
    b: Seq<tree::NodeView>,
    c: Seq<tree::NodeView>,
)
    requires
        starts_like(a, b),
        starts_like(b, c),
    ensures
        starts_like(a, c),
{
    assert forall|i: int| 0 <= i < c.len() implies (#[trigger] a[i]).path == c[i].path
        && a[i].expanded == c[i].expanded by {
        assert(b[i].path == c[i].path);
    }
}

proof fn lemma_walk_all_again(
    nodes: Seq<tree::NodeView>,
    cache: Seq<tree::ChildListView>,
    list: Seq<Seq<u8>>,
    depth: nat,
    limit: nat,
    later: Seq<tree::NodeView>,
)
    requires
        starts_like(later, tree::walk_all(nodes, cache, list, depth, limit).nodes),
    ensures
        ({
            let first = tree::walk_all(nodes, cache, list, depth, limit);
            let again = tree::walk_all(later, cache, list, depth, limit);
            &&& again.rows == first.rows
            &&& again.unread == first.unread
            &&& again.nodes.len() == later.len()
            &&& starts_like(again.nodes, later)
        }),
    decreases limit, list.len() + 1,
{
    if list.len() > 0 {
        let before = tree::walk_all(nodes, cache, list.drop_last(), depth, limit);
        let after = tree::walk(before.nodes, cache, list.last(), depth, limit);
        lemma_walk_starts_like(before.nodes, cache, list.last(), depth, limit);
        lemma_starts_like_all(later, after.nodes, before.nodes);
        lemma_walk_all_again(nodes, cache, list.drop_last(), depth, limit, later);
        let again = tree::walk_all(later, cache, list.drop_last(), depth, limit);
        lemma_starts_like_all(again.nodes, later, after.nodes);
        lemma_walk_again(before.nodes, cache, list.last(), depth, limit, again.nodes);
        lemma_starts_like_all(
            tree::walk(again.nodes, cache, list.last(), depth, limit).nodes,
            again.nodes,
            later,
        );
    }
}

/// Listing the tree twice shows the same rows both times: what a listing notes of the directories
/// changes nothing that is shown.
pub proof fn lemma_tree_is_listed_again(
    nodes: Seq<tree::NodeView>,
    cache: Seq<tree::ChildListView>,
    root: Seq<u8>,
)
    requires
        leads_down(cache),
    ensures
        tree::visible(tree::visible(nodes, cache, root).nodes, cache, root).rows == tree::visible(
            nodes,
            cache,
            root,
        ).rows,
{
    let start = tree::rooted(nodes, root);
    let once = tree::visible(nodes, cache, root);
    lemma_walk_starts_like(start, cache, root, 0, start.len());
    let limit = once.nodes.len();
    lemma_tree_is_shown_in_full(nodes, cache, root, limit);
    lemma_walk_again(start, cache, root, 0, limit, once.nodes);
}

} // verus!
