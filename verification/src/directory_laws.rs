//! Laws of directories: which entries are listed and followed, and how the tree is laid out.
use crate::indexing;
use crate::order;
use crate::paths;
use crate::text;
use crate::tree;
use crate::tree_laws;
use vstd::prelude::*;
use vstd::utf8::*;

verus! {

/// The names of directories that the index leaves out.
pub open spec fn left_out() -> Seq<Seq<char>> {
    seq![
        ".git"@,
        "node_modules"@,
        "target"@,
        "dist"@,
        "build"@,
        ".cache"@,
        "Caches"@,
        "DerivedData"@,
        "Library"@,
        "Movies"@,
        "Music"@,
        "Pictures"@,
    ]
}

/// Exactly twelve names are left out of the index.
pub proof fn lemma_twelve_names_are_left_out(p: Seq<u8>, name: Seq<char>)
    requires
        paths::is_entry_name(encode_utf8(name)),
    ensures
        tree::is_excluded(paths::joined_path(p, encode_utf8(name))) <==> left_out().contains(name),
{
    paths::lemma_joined_components(p, encode_utf8(name));
    encode_utf8_valid_utf8(name);
    encode_utf8_decode_utf8(name);
    let l = left_out();
    assert(l.len() == 12);
    if tree::is_excluded_name(name) {
        assert(l[0] == name || l[1] == name || l[2] == name || l[3] == name || l[4] == name || l[5]
            == name || l[6] == name || l[7] == name || l[8] == name || l[9] == name || l[10] == name
            || l[11] == name);
    }
    if l.contains(name) {
        let k = choose|k: int| 0 <= k < l.len() && l[k] == name;
        assert(k == 0 || k == 1 || k == 2 || k == 3 || k == 4 || k == 5 || k == 6 || k == 7 || k
            == 8 || k == 9 || k == 10 || k == 11);
    }
}

/// Whether an entry is a directory that can be seen: its name is text and does not start with a dot.
pub open spec fn is_visible_dir(e: tree::EntryView) -> bool {
    &&& e.is_dir
    &&& e.name.len() > 0
    &&& e.name[0] != 46
    &&& !e.name.contains(47)
    &&& valid_utf8(e.name)
}

/// Whether an entry is a directory that can be seen, no link, and none of the names that are left
/// out.
pub open spec fn is_followed(e: tree::EntryView) -> bool {
    &&& is_visible_dir(e)
    &&& !e.is_symlink
    &&& !left_out().contains(decode_utf8(e.name))
}

proof fn lemma_visible_is_shown(path: Seq<u8>, e: tree::EntryView)
    ensures
        is_visible_dir(e) <==> tree::is_shown(e),
        is_followed(e) <==> tree::is_indexed(path, e),
{
    if e.name.len() > 0 && e.name[0] != 46 {
        assert(seq![46u8][0] == 46 && seq![46u8, 46u8][0] == 46);
        assert(e.name != seq![46u8] && e.name != seq![46u8, 46u8]);
    }
    if is_visible_dir(e) {
        decode_utf8_encode_utf8(e.name);
        lemma_twelve_names_are_left_out(path, decode_utf8(e.name));
    }
}

/// Whether these are the paths of the entries of `path` that `pick` takes: each of them, up to two
/// hundred, by the lowercase name in alphabetical order; and where there are more, none that is left
/// stands before one that is not.
pub open spec fn are_children(
    path: Seq<u8>,
    entries: Seq<tree::EntryView>,
    pick: spec_fn(tree::EntryView) -> bool,
    children: Seq<Seq<u8>>,
) -> bool {
    &&& children.len() <= 200
    &&& forall|c: int|
        0 <= c < children.len() ==> is_child_of(path, entries, pick, #[trigger] children[c])
    &&& children.len() < 200 ==> forall|i: int|
        0 <= i < entries.len() && pick(#[trigger] entries[i]) ==> children.contains(
            paths::joined_path(path, entries[i].name),
        )
    &&& forall|c: int, d: int|
        0 <= c < d < children.len() ==> !order::text_before(
            lower_name(#[trigger] children[d]),
            lower_name(#[trigger] children[c]),
        )
    &&& forall|i: int, c: int|
        0 <= i < entries.len() && pick(#[trigger] entries[i]) && !children.contains(
            paths::joined_path(path, entries[i].name),
        ) && 0 <= c < children.len() ==> !order::text_before(
            text::lowercase(decode_utf8(entries[i].name)),
            lower_name(#[trigger] children[c]),
        )
}

/// Whether a path is that of an entry that `pick` takes.
pub open spec fn is_child_of(
    path: Seq<u8>,
    entries: Seq<tree::EntryView>,
    pick: spec_fn(tree::EntryView) -> bool,
    child: Seq<u8>,
) -> bool {
    exists|i: int|
        0 <= i < entries.len() && pick(#[trigger] entries[i]) && child == paths::joined_path(
            path,
            entries[i].name,
        )
}

/// The last name of a path in lowercase.
pub open spec fn lower_name(path: Seq<u8>) -> Seq<char> {
    text::lowercase(decode_utf8(paths::components(path).last()))
}

proof fn lemma_child_paths(
    path: Seq<u8>,
    entries: Seq<tree::EntryView>,
    pick: spec_fn(tree::EntryView) -> bool,
)
    requires
        forall|e: tree::EntryView| #[trigger] pick(e) ==> paths::is_entry_name(e.name),
    ensures
        are_children(path, entries, pick, tree::child_paths(path, entries.filter(pick))),
{
    let kept = entries.filter(pick);
    let ranks = kept.map_values(|e: tree::EntryView| tree::entry_rank(e));
    let order = order::ranking(ranks);
    let children = tree::child_paths(path, kept);
    order::lemma_ranking(ranks);
    order::lemma_arranged_keeps_all(kept, ranks);
    assert(order.len() == kept.len()) by {
        assert(order::arranged_by(kept, order).len() == order.len());
    }
    assert forall|c: int| 0 <= c < order.len() implies 0 <= #[trigger] order[c] < kept.len() && pick(
        kept[order[c]],
    ) && entries.contains(kept[order[c]]) by {
        assert(order.contains(order[c]));
        entries.lemma_filter_pred(pick, order[c]);
        assert(kept.contains(kept[order[c]]));
        entries.lemma_filter_contains_rev(pick, kept[order[c]]);
    }
    assert forall|c: int| 0 <= c < children.len() implies #[trigger] children[c]
        == paths::joined_path(path, kept[order[c]].name) && lower_name(children[c])
        == ranks[order[c]].text by {
        let e = kept[order[c]];
        assert(order::arranged_by(kept, order)[c] == e);
        assert(pick(e));
        paths::lemma_joined_components(path, e.name);
    }
    assert forall|c: int| 0 <= c < children.len() implies is_child_of(
        path,
        entries,
        pick,
        #[trigger] children[c],
    ) by {
        let e = kept[order[c]];
        let i = choose|i: int| 0 <= i < entries.len() && entries[i] == e;
        assert(pick(entries[i]));
    }
    assert forall|c: int, d: int| 0 <= c < d < children.len() implies !order::text_before(
        lower_name(#[trigger] children[d]),
        lower_name(#[trigger] children[c]),
    ) by {
        assert(order::entry_before(ranks, order[c], order[d]));
        order::lemma_rank_order(ranks[order[c]], ranks[order[d]], ranks[order[c]]);
    }
    assert forall|i: int| 0 <= i < entries.len() && pick(#[trigger] entries[i]) implies exists|p: int|
        0 <= p < order.len() && kept[#[trigger] order[p]] == entries[i] by {
        entries.lemma_filter_contains(pick, i);
        let x = choose|x: int| 0 <= x < kept.len() && kept[x] == entries[i];
        assert(order.contains(x));
        let p = choose|p: int| 0 <= p < order.len() && order[p] == x;
        assert(kept[order[p]] == entries[i]);
    }
    assert forall|i: int|
        0 <= i < entries.len() && pick(#[trigger] entries[i]) && children.len()
            < 200 implies children.contains(paths::joined_path(path, entries[i].name)) by {
        let p = choose|p: int| 0 <= p < order.len() && kept[#[trigger] order[p]] == entries[i];
        assert(children[p] == paths::joined_path(path, entries[i].name));
    }
    assert forall|i: int, c: int|
        0 <= i < entries.len() && pick(#[trigger] entries[i]) && !children.contains(
            paths::joined_path(path, entries[i].name),
        ) && 0 <= c < children.len() implies !order::text_before(
        text::lowercase(decode_utf8(entries[i].name)),
        lower_name(#[trigger] children[c]),
    ) by {
        let p = choose|p: int| 0 <= p < order.len() && kept[#[trigger] order[p]] == entries[i];
        if p < children.len() {
            assert(children[p] == paths::joined_path(path, entries[i].name));
        }
        assert(c < p);
        assert(order::entry_before(ranks, order[c], order[p]));
        order::lemma_rank_order(ranks[order[c]], ranks[order[p]], ranks[order[c]]);
        assert(ranks[order[p]].text == text::lowercase(decode_utf8(entries[i].name)));
    }
}

/// What the tree shows in a directory: its directories that can be seen, all of them up to two
/// hundred, in alphabetical order of their lowercase names.
pub proof fn lemma_tree_shows_what_can_be_seen(path: Seq<u8>, entries: Seq<tree::EntryView>)
    ensures
        are_children(
            path,
            entries,
            |e: tree::EntryView| is_visible_dir(e),
            tree::shown_children(path, entries),
        ),
{
    let pick = |e: tree::EntryView| tree::is_shown(e);
    let seen = |e: tree::EntryView| is_visible_dir(e);
    assert forall|e: tree::EntryView| #[trigger] pick(e) == seen(e) by {
        lemma_visible_is_shown(path, e);
    }
    lemma_same_pick(entries, pick, seen);
    lemma_child_paths(path, entries, seen);
}

/// What the index follows in a directory: its directories that can be seen, but no links and none of
/// the twelve names that are left out; all of them up to two hundred, in alphabetical order of their
/// lowercase names.
pub proof fn lemma_index_follows_everything_else(path: Seq<u8>, entries: Seq<tree::EntryView>)
    ensures
        are_children(
            path,
            entries,
            |e: tree::EntryView| is_followed(e),
            tree::indexed_children(path, entries),
        ),
{
    let pick = |e: tree::EntryView| tree::is_indexed(path, e);
    let followed = |e: tree::EntryView| is_followed(e);
    assert forall|e: tree::EntryView| #[trigger] pick(e) == followed(e) by {
        lemma_visible_is_shown(path, e);
    }
    lemma_same_pick(entries, pick, followed);
    assert forall|e: tree::EntryView| #[trigger] followed(e) implies paths::is_entry_name(e.name) by {
        lemma_visible_is_shown(path, e);
    }
    lemma_child_paths(path, entries, followed);
}

proof fn lemma_same_pick(
    entries: Seq<tree::EntryView>,
    a: spec_fn(tree::EntryView) -> bool,
    b: spec_fn(tree::EntryView) -> bool,
)
    requires
        forall|e: tree::EntryView| #[trigger] a(e) == b(e),
    ensures
        entries.filter(a) == entries.filter(b),
    decreases entries.len(),
{
    reveal(Seq::filter);
    if entries.len() > 0 {
        lemma_same_pick(entries.drop_last(), a, b);
        assert(a(entries.last()) == b(entries.last()));
    }
}

/// Reading a directory makes it known with what can be seen in it, and leaves what is known of every
/// other directory as it was.
pub proof fn lemma_reading_is_remembered(
    cache: Seq<tree::ChildListView>,
    path: Seq<u8>,
    entries: Seq<tree::EntryView>,
    other: Seq<u8>,
)
    ensures
        ({
            let now = tree::remembered(cache, path, entries);
            &&& tree::known_children(now, path) is Some
            &&& tree::known_children(cache, path) is None ==> are_children(
                path,
                entries,
                |e: tree::EntryView| is_visible_dir(e),
                tree::known_children(now, path)->0,
            )
            &&& tree::known_children(cache, path) is Some ==> now == cache
            &&& paths::components(other) != paths::components(path) ==> tree::known_children(
                now,
                other,
            ) == tree::known_children(cache, other)
        }),
{
    lemma_tree_shows_what_can_be_seen(path, entries);
    if tree::known_children(cache, path) is None {
        let list = tree::ChildListView { path, children: tree::shown_children(path, entries) };
        tree::lemma_list_place_push(cache, list, path, 0);
        if paths::components(other) != paths::components(path) {
            lemma_other_place(cache, list, other, 0);
        }
    }
}

proof fn lemma_other_place(
    cache: Seq<tree::ChildListView>,
    list: tree::ChildListView,
    other: Seq<u8>,
    from: int,
)
    requires
        0 <= from <= cache.len(),
        paths::components(list.path) != paths::components(other),
    ensures
        tree::list_place(cache.push(list), other, from) == tree::list_place(cache, other, from),
        tree::list_place(cache, other, from) matches Some(k) ==> 0 <= k < cache.len(),
    decreases cache.len() - from,
{
    if from < cache.len() {
        lemma_other_place(cache, list, other, from + 1);
    } else {
        assert(tree::list_place(cache.push(list), other, from + 1) is None);
    }
}

/// What is remembered of the same directory is the same, however it is written.
pub proof fn lemma_known_however_written(
    cache: Seq<tree::ChildListView>,
    path: Seq<u8>,
    other: Seq<u8>,
)
    requires
        paths::components(path) == paths::components(other),
    ensures
        tree::known_children(cache, path) == tree::known_children(cache, other),
{
    lemma_same_place(cache, path, other, 0);
}

proof fn lemma_same_place(
    cache: Seq<tree::ChildListView>,
    path: Seq<u8>,
    other: Seq<u8>,
    from: int,
)
    requires
        paths::components(path) == paths::components(other),
        0 <= from,
    ensures
        tree::list_place(cache, path, from) == tree::list_place(cache, other, from),
    decreases cache.len() - from,
{
    if from < cache.len() {
        lemma_same_place(cache, path, other, from + 1);
    }
}

/// Whether the rows at `at` are those of the directories `list` directly below row `i`: one for each,
/// in order, one level deeper, and no others before the next row that is not below.
pub open spec fn are_child_rows(
    rows: Seq<tree::NodeView>,
    i: int,
    list: Seq<Seq<u8>>,
    at: Seq<int>,
) -> bool {
    &&& at.len() == list.len()
    &&& forall|k: int|
        0 <= k < at.len() ==> i < #[trigger] at[k] < rows.len() && rows[at[k]].depth
            == rows[i].depth + 1 && paths::components(rows[at[k]].path) == paths::components(
            list[k],
        )
    &&& forall|k: int, m: int| 0 <= k < m < at.len() ==> #[trigger] at[k] < #[trigger] at[m]
    &&& forall|j: int|
        i < j < rows.len() && (#[trigger] rows[j]).depth == rows[i].depth + 1 && is_within(
            rows,
            i,
            j,
        ) ==> at.contains(j)
}

/// Whether all rows behind `i` up to `j` are deeper than `i`.
pub open spec fn is_within(rows: Seq<tree::NodeView>, i: int, j: int) -> bool {
    forall|m: int| i < m <= j ==> (#[trigger] rows[m]).depth > rows[i].depth
}

/// Whether what is below row `i` is shown right: where it is expanded and was read, a row for each of
/// its directories; else nothing.
pub open spec fn is_laid_out(
    rows: Seq<tree::NodeView>,
    cache: Seq<tree::ChildListView>,
    i: int,
) -> bool {
    if rows[i].expanded && tree::known_children(cache, rows[i].path) is Some {
        exists|at: Seq<int>| #[trigger]
            are_child_rows(rows, i, tree::known_children(cache, rows[i].path)->0, at)
    } else {
        i + 1 < rows.len() ==> rows[i + 1].depth <= rows[i].depth
    }
}

/// Rows in front make no difference to what is below a row.
proof fn lemma_laid_out_behind(
    front: Seq<tree::NodeView>,
    rows: Seq<tree::NodeView>,
    cache: Seq<tree::ChildListView>,
    i: int,
)
    requires
        0 <= i < rows.len(),
        is_laid_out(rows, cache, i),
    ensures
        is_laid_out(front + rows, cache, front.len() + i),
{
    let all = front + rows;
    let n = front.len() as int;
    assert(all[n + i] == rows[i]);
    if rows[i].expanded && tree::known_children(cache, rows[i].path) is Some {
        let list = tree::known_children(cache, rows[i].path)->0;
        let at = choose|at: Seq<int>| #[trigger] are_child_rows(rows, i, list, at);
        let moved = Seq::new(at.len(), |k: int| n + at[k]);
        assert forall|k: int| 0 <= k < moved.len() implies n + i < #[trigger] moved[k] < all.len()
            && all[moved[k]].depth == all[n + i].depth + 1 && paths::components(all[moved[k]].path)
            == paths::components(list[k]) by {
            assert(all[moved[k]] == rows[at[k]]);
        }
        assert forall|j: int|
            n + i < j < all.len() && (#[trigger] all[j]).depth == all[n + i].depth + 1 && is_within(
                all,
                n + i,
                j,
            ) implies moved.contains(j) by {
            assert(all[j] == rows[j - n]);
            assert forall|m: int| i < m <= j - n implies (#[trigger] rows[m]).depth
                > rows[i].depth by {
                assert(all[n + m] == rows[m]);
            }
            assert(at.contains(j - n));
            let k = choose|k: int| 0 <= k < at.len() && at[k] == j - n;
            assert(moved[k] == j);
        }
        assert(are_child_rows(all, n + i, list, moved));
    } else if n + i + 1 < all.len() {
        assert(all[n + i + 1] == rows[i + 1]);
    }
}

/// Rows behind that start no deeper make no difference to what is below a row.
proof fn lemma_laid_out_before(
    rows: Seq<tree::NodeView>,
    back: Seq<tree::NodeView>,
    cache: Seq<tree::ChildListView>,
    i: int,
)
    requires
        0 <= i < rows.len(),
        is_laid_out(rows, cache, i),
        back.len() > 0 ==> back[0].depth <= rows[i].depth,
    ensures
        is_laid_out(rows + back, cache, i),
{
    let all = rows + back;
    assert(all[i] == rows[i]);
    if rows[i].expanded && tree::known_children(cache, rows[i].path) is Some {
        let list = tree::known_children(cache, rows[i].path)->0;
        let at = choose|at: Seq<int>| #[trigger] are_child_rows(rows, i, list, at);
        assert forall|k: int| 0 <= k < at.len() implies i < #[trigger] at[k] < all.len()
            && all[at[k]].depth == all[i].depth + 1 && paths::components(all[at[k]].path)
            == paths::components(list[k]) by {
            assert(all[at[k]] == rows[at[k]]);
        }
        assert forall|j: int|
            i < j < all.len() && (#[trigger] all[j]).depth == all[i].depth + 1 && is_within(
                all,
                i,
                j,
            ) implies at.contains(j) by {
            if j >= rows.len() {
                assert(all[rows.len() as int] == back[0]);
            } else {
                assert(all[j] == rows[j]);
                assert forall|m: int| i < m <= j implies (#[trigger] rows[m]).depth
                    > rows[i].depth by {
                    assert(all[m] == rows[m]);
                }
            }
        }
        assert(are_child_rows(all, i, list, at));
    } else if i + 1 < all.len() {
        if i + 1 < rows.len() {
            assert(all[i + 1] == rows[i + 1]);
        } else {
            assert(all[i + 1] == back[0]);
        }
    }
}

/// How the rows of a walk are laid out, down to where it stops.
proof fn lemma_walk_layout(
    nodes: Seq<tree::NodeView>,
    cache: Seq<tree::ChildListView>,
    path: Seq<u8>,
    depth: nat,
    limit: nat,
)
    ensures
        ({
            let rows = tree::walk(nodes, cache, path, depth, limit).rows;
            &&& rows.len() > 0
            &&& rows[0].depth == depth
            &&& paths::components(rows[0].path) == paths::components(path)
            &&& forall|j: int| 0 < j < rows.len() ==> (#[trigger] rows[j]).depth > depth
            &&& forall|i: int|
                0 <= i < rows.len() && (#[trigger] rows[i]).depth < depth + limit ==> is_laid_out(
                    rows,
                    cache,
                    i,
                )
        }),
    decreases limit, 0nat,
{
    let node = tree::met_node(nodes, path, depth);
    let now = tree::met(nodes, path, depth);
    let rows = tree::walk(nodes, cache, path, depth, limit).rows;
    tree_laws::lemma_node_place(nodes, path, 0);
    if node.expanded && limit > 0 && tree::known_children(cache, node.path) is Some {
        let list = tree::known_children(cache, node.path)->0;
        let inner = tree::walk_all(now, cache, list, depth + 1, (limit - 1) as nat).rows;
        let starts = lemma_walk_all_layout(now, cache, list, depth + 1, (limit - 1) as nat);
        let front = seq![node];
        assert(rows == front + inner);
        assert forall|j: int| 0 < j < rows.len() implies (#[trigger] rows[j]).depth > depth by {
            assert(rows[j] == inner[j - 1]);
        }
        let at = Seq::new(starts.len(), |k: int| starts[k] + 1);
        assert(are_child_rows(rows, 0, list, at)) by {
            assert forall|k: int| 0 <= k < at.len() implies 0 < #[trigger] at[k] < rows.len()
                && rows[at[k]].depth == rows[0].depth + 1 && paths::components(rows[at[k]].path)
                == paths::components(list[k]) by {
                assert(rows[at[k]] == inner[starts[k]]);
            }
            assert forall|j: int|
                0 < j < rows.len() && (#[trigger] rows[j]).depth == rows[0].depth + 1 && is_within(
                    rows,
                    0,
                    j,
                ) implies at.contains(j) by {
                assert(rows[j] == inner[j - 1]);
                assert(starts.contains(j - 1));
                let k = choose|k: int| 0 <= k < starts.len() && starts[k] == j - 1;
                assert(at[k] == j);
            }
        }
        assert forall|i: int|
            0 <= i < rows.len() && (#[trigger] rows[i]).depth < depth + limit implies is_laid_out(
            rows,
            cache,
            i,
        ) by {
            if i > 0 {
                assert(rows[i] == inner[i - 1]);
                assert(is_laid_out(inner, cache, i - 1));
                lemma_laid_out_behind(front, inner, cache, i - 1);
            }
        }
    }
}

/// How the rows of several walks are laid out; the result is where each of them starts.
proof fn lemma_walk_all_layout(
    nodes: Seq<tree::NodeView>,
    cache: Seq<tree::ChildListView>,
    list: Seq<Seq<u8>>,
    depth: nat,
    limit: nat,
) -> (starts: Seq<int>)
    ensures
        ({
            let rows = tree::walk_all(nodes, cache, list, depth, limit).rows;
            &&& starts.len() == list.len()
            &&& forall|k: int|
                0 <= k < starts.len() ==> 0 <= #[trigger] starts[k] < rows.len()
                    && rows[starts[k]].depth == depth && paths::components(rows[starts[k]].path)
                    == paths::components(list[k])
            &&& forall|k: int, m: int|
                0 <= k < m < starts.len() ==> #[trigger] starts[k] < #[trigger] starts[m]
            &&& forall|j: int| 0 <= j < rows.len() ==> (#[trigger] rows[j]).depth >= depth
            &&& forall|j: int|
                0 <= j < rows.len() && (#[trigger] rows[j]).depth == depth ==> starts.contains(j)
            &&& rows.len() > 0 ==> rows[0].depth == depth
            &&& forall|i: int|
                0 <= i < rows.len() && (#[trigger] rows[i]).depth < depth + limit ==> is_laid_out(
                    rows,
                    cache,
                    i,
                )
        }),
    decreases limit, list.len() + 1,
{
    if list.len() == 0 {
        Seq::empty()
    } else {
        let first = tree::walk_all(nodes, cache, list.drop_last(), depth, limit);
        let last = tree::walk(first.nodes, cache, list.last(), depth, limit);
        let rows = tree::walk_all(nodes, cache, list, depth, limit).rows;
        let n = first.rows.len() as int;
        let before = lemma_walk_all_layout(nodes, cache, list.drop_last(), depth, limit);
        lemma_walk_layout(first.nodes, cache, list.last(), depth, limit);
        let starts = before.push(n);
        assert(rows == first.rows + last.rows);
        assert forall|k: int| 0 <= k < starts.len() implies 0 <= #[trigger] starts[k] < rows.len()
            && rows[starts[k]].depth == depth && paths::components(rows[starts[k]].path)
            == paths::components(list[k]) by {
            if k < before.len() {
                assert(rows[starts[k]] == first.rows[before[k]]);
            } else {
                assert(rows[n] == last.rows[0]);
            }
        }
        assert forall|j: int| 0 <= j < rows.len() implies (#[trigger] rows[j]).depth >= depth by {
            if j < n {
                assert(rows[j] == first.rows[j]);
            } else {
                assert(rows[j] == last.rows[j - n]);
            }
        }
        assert forall|j: int|
            0 <= j < rows.len() && (#[trigger] rows[j]).depth == depth implies starts.contains(
            j,
        ) by {
            if j < n {
                assert(rows[j] == first.rows[j]);
                assert(before.contains(j));
                let k = choose|k: int| 0 <= k < before.len() && before[k] == j;
                assert(starts[k] == j);
            } else {
                assert(rows[j] == last.rows[j - n]);
                assert(starts[before.len() as int] == j);
            }
        }
        assert(rows[0].depth == depth) by {
            if n > 0 {
                assert(rows[0] == first.rows[0]);
            } else {
                assert(rows[0] == last.rows[0]);
            }
        }
        assert forall|i: int|
            0 <= i < rows.len() && (#[trigger] rows[i]).depth < depth + limit implies is_laid_out(
            rows,
            cache,
            i,
        ) by {
            if i < n {
                assert(rows[i] == first.rows[i]);
                lemma_laid_out_before(first.rows, last.rows, cache, i);
            } else {
                assert(rows[i] == last.rows[i - n]);
                lemma_laid_out_behind(first.rows, last.rows, cache, i - n);
            }
        }
        starts
    }
}

/// A number that no row is as deep as.
proof fn lemma_depth_bound(rows: Seq<tree::NodeView>) -> (bound: nat)
    ensures
        forall|i: int| 0 <= i < rows.len() ==> (#[trigger] rows[i]).depth < bound,
    decreases rows.len(),
{
    if rows.len() == 0 {
        0
    } else {
        let less = rows.drop_last();
        let bound = lemma_depth_bound(less);
        let last = rows.last().depth + 1;
        let most = if bound >= last {
            bound
        } else {
            last
        };
        assert forall|i: int| 0 <= i < rows.len() implies (#[trigger] rows[i]).depth < most by {
            if i < less.len() {
                assert(rows[i] == less[i]);
            }
        }
        most
    }
}

/// How the tree is laid out: the root comes first, and below every directory that is open and was
/// read there is, one level deeper and in order, a row for each of its directories, and nothing else.
/// Below any other directory there is nothing.
pub proof fn lemma_tree_is_laid_out(
    nodes: Seq<tree::NodeView>,
    cache: Seq<tree::ChildListView>,
    root: Seq<u8>,
)
    requires
        tree_laws::leads_down(cache),
    ensures
        ({
            let rows = tree::visible(nodes, cache, root).rows;
            &&& rows.len() > 0
            &&& rows[0].depth == 0
            &&& paths::components(rows[0].path) == paths::components(root)
            &&& forall|j: int| 0 < j < rows.len() ==> (#[trigger] rows[j]).depth > 0
            &&& forall|i: int| 0 <= i < rows.len() ==> #[trigger] is_laid_out(rows, cache, i)
        }),
{
    let start = tree::rooted(nodes, root);
    let rows = tree::visible(nodes, cache, root).rows;
    let bound = lemma_depth_bound(rows);
    let limit = start.len() + bound;
    tree_laws::lemma_tree_is_shown_in_full(nodes, cache, root, limit);
    lemma_walk_layout(start, cache, root, 0, limit);
    assert forall|i: int| 0 <= i < rows.len() implies #[trigger] is_laid_out(rows, cache, i) by {
        assert(rows[i].depth < bound);
    }
}

/// A directory of the tree is shown open exactly where it was opened; one that is met first is closed,
/// but for the root of a new tree.
pub proof fn lemma_rows_are_open_as_they_were(
    nodes: Seq<tree::NodeView>,
    cache: Seq<tree::ChildListView>,
    root: Seq<u8>,
    i: int,
)
    requires
        0 <= i < tree::visible(nodes, cache, root).rows.len(),
    ensures
        ({
            let row = tree::visible(nodes, cache, root).rows[i];
            &&& nodes.len() > 0 ==> row.expanded == tree_laws::is_open(nodes, row.path)
            &&& nodes.len() == 0 ==> row.expanded == (paths::components(row.path)
                == paths::components(root))
        }),
{
    let start = tree::rooted(nodes, root);
    let walk = tree::visible(nodes, cache, root);
    let row = walk.rows[i];
    tree_laws::lemma_rows_have_nodes(start, cache, root, 0, start.len());
    assert(tree_laws::has_node(walk.nodes, row));
    tree_laws::lemma_walk_keeps_open(start, cache, root, 0, start.len(), row.path);
    tree_laws::lemma_node_place(start, row.path, 0);
    if nodes.len() == 0 {
        assert(start[0].path == root && start[0].expanded);
    }
}

/// The directories that have to be read before the tree is complete are exactly the open ones that
/// have not been.
pub proof fn lemma_unread_is_open(
    nodes: Seq<tree::NodeView>,
    cache: Seq<tree::ChildListView>,
    path: Seq<u8>,
    depth: nat,
    limit: nat,
)
    ensures
        ({
            let walk = tree::walk(nodes, cache, path, depth, limit);
            &&& forall|u: int|
                0 <= u < walk.unread.len() ==> tree::known_children(
                    cache,
                    #[trigger] walk.unread[u],
                ) is None && is_open_row(walk.rows, walk.unread[u])
            &&& forall|i: int|
                0 <= i < walk.rows.len() && (#[trigger] walk.rows[i]).expanded
                    && walk.rows[i].depth < depth + limit && tree::known_children(
                    cache,
                    walk.rows[i].path,
                ) is None ==> walk.unread.contains(walk.rows[i].path)
        }),
    decreases limit, 0nat,
{
    let node = tree::met_node(nodes, path, depth);
    let now = tree::met(nodes, path, depth);
    let walk = tree::walk(nodes, cache, path, depth, limit);
    if node.expanded && limit > 0 {
        if tree::known_children(cache, node.path) is Some {
            let list = tree::known_children(cache, node.path)->0;
            let inner = tree::walk_all(now, cache, list, depth + 1, (limit - 1) as nat);
            lemma_all_unread_is_open(now, cache, list, depth + 1, (limit - 1) as nat);
            assert forall|u: int| 0 <= u < walk.unread.len() implies tree::known_children(
                cache,
                #[trigger] walk.unread[u],
            ) is None && is_open_row(walk.rows, walk.unread[u]) by {
                assert(is_open_row(inner.rows, inner.unread[u]));
                let j = choose|j: int|
                    0 <= j < inner.rows.len() && (#[trigger] inner.rows[j]).expanded
                        && inner.rows[j].path == inner.unread[u];
                assert(walk.rows[j + 1] == inner.rows[j]);
            }
            assert forall|i: int|
                0 <= i < walk.rows.len() && (#[trigger] walk.rows[i]).expanded
                    && walk.rows[i].depth < depth + limit && tree::known_children(
                    cache,
                    walk.rows[i].path,
                ) is None implies walk.unread.contains(walk.rows[i].path) by {
                assert(walk.rows[i] == inner.rows[i - 1]);
            }
        } else {
            assert(walk.unread[0] == node.path);
            assert(walk.rows[0] == node);
        }
    }
}

/// Whether an open directory has a row.
pub open spec fn is_open_row(rows: Seq<tree::NodeView>, path: Seq<u8>) -> bool {
    exists|j: int| 0 <= j < rows.len() && (#[trigger] rows[j]).expanded && rows[j].path == path
}

proof fn lemma_all_unread_is_open(
    nodes: Seq<tree::NodeView>,
    cache: Seq<tree::ChildListView>,
    list: Seq<Seq<u8>>,
    depth: nat,
    limit: nat,
)
    ensures
        ({
            let walk = tree::walk_all(nodes, cache, list, depth, limit);
            &&& forall|u: int|
                0 <= u < walk.unread.len() ==> tree::known_children(
                    cache,
                    #[trigger] walk.unread[u],
                ) is None && is_open_row(walk.rows, walk.unread[u])
            &&& forall|i: int|
                0 <= i < walk.rows.len() && (#[trigger] walk.rows[i]).expanded
                    && walk.rows[i].depth < depth + limit && tree::known_children(
                    cache,
                    walk.rows[i].path,
                ) is None ==> walk.unread.contains(walk.rows[i].path)
        }),
    decreases limit, list.len() + 1,
{
    if list.len() > 0 {
        let first = tree::walk_all(nodes, cache, list.drop_last(), depth, limit);
        let last = tree::walk(first.nodes, cache, list.last(), depth, limit);
        let walk = tree::walk_all(nodes, cache, list, depth, limit);
        let n = first.rows.len() as int;
        lemma_all_unread_is_open(nodes, cache, list.drop_last(), depth, limit);
        lemma_unread_is_open(first.nodes, cache, list.last(), depth, limit);
        assert forall|u: int| 0 <= u < walk.unread.len() implies tree::known_children(
            cache,
            #[trigger] walk.unread[u],
        ) is None && is_open_row(walk.rows, walk.unread[u]) by {
            if u < first.unread.len() {
                assert(walk.unread[u] == first.unread[u]);
                let j = choose|j: int|
                    0 <= j < first.rows.len() && (#[trigger] first.rows[j]).expanded
                        && first.rows[j].path == first.unread[u];
                assert(walk.rows[j] == first.rows[j]);
            } else {
                let v = u - first.unread.len();
                assert(walk.unread[u] == last.unread[v]);
                let j = choose|j: int|
                    0 <= j < last.rows.len() && (#[trigger] last.rows[j]).expanded
                        && last.rows[j].path == last.unread[v];
                assert(walk.rows[n + j] == last.rows[j]);
            }
        }
        assert forall|i: int|
            0 <= i < walk.rows.len() && (#[trigger] walk.rows[i]).expanded && walk.rows[i].depth
                < depth + limit && tree::known_children(
                cache,
                walk.rows[i].path,
            ) is None implies walk.unread.contains(walk.rows[i].path) by {
            if i < n {
                assert(walk.rows[i] == first.rows[i]);
                let v = choose|v: int|
                    0 <= v < first.unread.len() && first.unread[v] == walk.rows[i].path;
                assert(walk.unread[v] == walk.rows[i].path);
            } else {
                assert(walk.rows[i] == last.rows[i - n]);
                let v = choose|v: int|
                    0 <= v < last.unread.len() && last.unread[v] == walk.rows[i].path;
                assert(walk.unread[first.unread.len() + v] == walk.rows[i].path);
            }
        }
    }
}

/// The index goes down before it goes on: behind a directory come those directly below it, in order,
/// before what was waiting. It stops only at twenty-five thousand, or where nothing waits.
pub proof fn lemma_index_goes_down_first(
    walk: indexing::WalkView,
    listing: spec_fn(Seq<u8>) -> Seq<tree::EntryView>,
    k: int,
)
    requires
        walk.found.len() < 25_000,
        walk.pending.len() > 0,
    ensures
        ({
            let path = walk.pending.last();
            let waiting = walk.pending.len() - 1;
            let children = tree::indexed_children(path, listing(path));
            let now = indexing::after_step(walk, listing);
            &&& now.found == walk.found.push(path)
            &&& now.pending.len() == waiting + children.len()
            &&& 0 <= k < waiting ==> now.pending[k] == walk.pending[k]
            &&& 0 <= k < children.len() ==> now.pending[now.pending.len() - 1 - k] == children[k]
        }),
{
}

/// An index that is full, or has nothing left to look at, stays as it is.
pub proof fn lemma_index_ends(
    walk: indexing::WalkView,
    listing: spec_fn(Seq<u8>) -> Seq<tree::EntryView>,
)
    requires
        walk.found.len() >= 25_000 || walk.pending.len() == 0,
    ensures
        indexing::after_step(walk, listing) == walk,
{
}

/// The index is in alphabetical order, whatever the case of letters.
pub proof fn lemma_index_is_alphabetical(found: Seq<Seq<u8>>, i: int, j: int)
    requires
        0 <= i < j < indexing::without_repeats(indexing::sorted_paths(found)).len(),
    ensures
        ({
            let index = indexing::without_repeats(indexing::sorted_paths(found));
            !order::text_before(
                text::lowercase(paths::lossy_text(index[j])),
                text::lowercase(paths::lossy_text(index[i])),
            )
        }),
{
    indexing::lemma_index_is_in_order(found);
}

} // verus!
