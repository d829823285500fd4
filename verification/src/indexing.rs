//! Building the index of directories: a walk through the file system that reads one directory at a
//! time.
use crate::order;
use crate::paths;
use crate::paths::DirPath;
use crate::store;
use crate::text;
use crate::tree;
use crate::tree::DirEntry;
use vstd::prelude::*;

verus! {

/// A walk through the file system: the directories found so far, and those still to visit, the
/// next one last.
pub struct DirWalk {
    pub found: Vec<DirPath>,
    pub pending: Vec<DirPath>,
}

/// The value of a [`DirWalk`].
#[verifier::ext_equal]
pub struct WalkView {
    pub found: Seq<Seq<u8>>,
    pub pending: Seq<Seq<u8>>,
}

impl View for DirWalk {
    type V = WalkView;

    open spec fn view(&self) -> WalkView {
        WalkView {
            found: paths::path_views(self.found@),
            pending: paths::path_views(self.pending@),
        }
    }
}

/// The directory to visit next: none once the index is full or everything was visited.
pub open spec fn next_visit(walk: WalkView) -> Option<Seq<u8>> {
    if walk.found.len() >= store::MAX_CACHE_DIRS || walk.pending.len() == 0 {
        None
    } else {
        Some(walk.pending.last())
    }
}

/// The walk once the next directory has been taken up.
pub open spec fn after_visit(walk: WalkView) -> WalkView {
    if next_visit(walk) is Some {
        WalkView {
            found: walk.found.push(walk.pending.last()),
            pending: walk.pending.drop_last(),
        }
    } else {
        walk
    }
}

/// The walk once what is in `path` is known: its directories come next, in their order.
pub open spec fn after_reading(
    walk: WalkView,
    path: Seq<u8>,
    entries: Seq<tree::EntryView>,
) -> WalkView {
    WalkView {
        pending: walk.pending + tree::indexed_children(path, entries).reverse(),
        ..walk
    }
}

impl DirWalk {
    /// A walk that starts at `root`.
    pub fn start(root: DirPath) -> (r: DirWalk)
        ensures
            r@ == (WalkView { found: Seq::empty(), pending: seq![root@] }),
    {
        let mut pending: Vec<DirPath> = Vec::new();
        pending.push(root);
        let r = DirWalk { found: Vec::new(), pending };
        assert(r@.found =~= Seq::<Seq<u8>>::empty());
        assert(r@.pending =~= seq![root@]);
        r
    }

    /// Takes up the next directory, which is then to be read.
    pub fn visit(&mut self) -> (r: Option<DirPath>)
        ensures
            r is Some <==> next_visit(old(self)@) is Some,
            r matches Some(path) ==> next_visit(old(self)@) == Some(path@),
            final(self)@ == after_visit(old(self)@),
    {
        let ghost before = self@;
        if self.found.len() >= store::MAX_CACHE_DIRS {
            return None;
        }
        match self.pending.pop() {
            Some(path) => {
                let r: DirPath = path.clone();
                self.found.push(path);
                assert(self@.found =~= before.found.push(path@));
                assert(self@.pending =~= before.pending.drop_last());
                assert(before.pending.last() == path@);
                Some(r)
            },
            None => {
                assert(self@.pending =~= before.pending);
                None
            },
        }
    }

    /// Notes what the file system lists in the directory `path`.
    pub fn note(&mut self, path: &DirPath, entries: Vec<DirEntry>)
        ensures
            final(self)@ == after_reading(old(self)@, path@, tree::entry_views(entries@)),
    {
        let ghost before = self@;
        let children: Vec<DirPath> = tree::child_dirs_for_cache(path, entries);
        let ghost cv = paths::path_views(children@);
        let mut i: usize = children.len();
        assert(cv.skip(i as int).reverse() =~= Seq::<Seq<u8>>::empty());
        assert(before.pending + cv.skip(i as int).reverse() =~= before.pending);
        while i > 0
            invariant
                i <= children.len(),
                cv == paths::path_views(children@),
                self@.found == before.found,
                self@.pending == before.pending + cv.skip(i as int).reverse(),
            decreases i,
        {
            let ghost now = self@.pending;
            i = i - 1;
            let child: DirPath = children[i].clone();
            self.pending.push(child);
            assert(self@.pending =~= now.push(child@));
            assert(cv.skip(i as int) =~= seq![child@] + cv.skip(i + 1));
            assert(before.pending + cv.skip(i as int).reverse() =~= (before.pending + cv.skip(
                i + 1,
            ).reverse()).push(child@));
        }
        assert(cv.skip(0) =~= cv);
    }
}

/// What a path is ranked by in the index: its text in lowercase.
pub open spec fn path_rank(path: Seq<u8>) -> order::RankView {
    order::RankView { major: 0, minor: 0, text: text::lowercase(paths::lossy_text(path)) }
}

/// Paths in alphabetical order.
pub open spec fn sorted_paths(list: Seq<Seq<u8>>) -> Seq<Seq<u8>> {
    order::arranged_by(list, order::ranking(list.map_values(|p: Seq<u8>| path_rank(p))))
}

/// Paths without those that repeat the one before.
pub open spec fn without_repeats(list: Seq<Seq<u8>>) -> Seq<Seq<u8>>
    decreases list.len(),
{
    if list.len() <= 1 {
        list
    } else {
        let kept = without_repeats(list.drop_last());
        if paths::components(kept.last()) == paths::components(list.last()) {
            kept
        } else {
            kept.push(list.last())
        }
    }
}

/// The index of the directories that were found: in alphabetical order, none twice in a row.
pub fn build_dir_cache(found: Vec<DirPath>) -> (r: Vec<DirPath>)
    ensures
        paths::path_views(r@) == without_repeats(sorted_paths(paths::path_views(found@))),
{
    let ghost fv = paths::path_views(found@);
    let mut ranks: Vec<order::Rank> = Vec::new();
    let mut i: usize = 0;
    while i < found.len()
        invariant
            i <= found.len(),
            ranks.len() == i,
            forall|k: int| 0 <= k < i ==> (#[trigger] ranks[k])@ == path_rank(found[k]@),
        decreases found.len() - i,
    {
        let full: String = found[i].text();
        let lower: String = full.as_str().to_lowercase();
        let rank = order::Rank { major: 0, minor: 0, text: text::chars_of(lower.as_str()) };
        ranks.push(rank);
        i = i + 1;
    }
    assert(order::rank_views(ranks@) =~= fv.map_values(|p: Seq<u8>| path_rank(p)));
    let order: Vec<usize> = order::ranked(&ranks);
    let sorted: Vec<DirPath> = order::arranged(found, &order);
    let ghost sv = sorted_paths(fv);
    let ghost listed = sorted@;
    assert(paths::path_views(sorted@) =~= sv);
    let mut r: Vec<DirPath> = Vec::new();
    assert(sv.take(0) =~= paths::path_views(r@));
    for path in it: sorted
        invariant
            it.seq() == listed,
            sv == paths::path_views(listed),
            paths::path_views(r@) == without_repeats(sv.take(it.index() as int)),
            it.index() > 0 <==> r.len() > 0,
    {
        let ghost now = it.index() as int;
        let ghost before = paths::path_views(r@);
        proof {
            assert(sv.take(now + 1).drop_last() =~= sv.take(now));
            assert(sv.take(now + 1).last() == path@);
        }
        let repeats: bool = r.len() > 0 && r[r.len() - 1].same(&path);
        if r.len() > 0 {
            assert(before.last() == r[r.len() - 1]@);
        }
        if !repeats {
            r.push(path);
            assert(paths::path_views(r@) =~= before.push(path@));
        }
        proof {
            if now == 0 {
                assert(paths::path_views(r@) =~= sv.take(1));
            }
        }
    }
    assert(sv.take(sv.len() as int) =~= sv);
    r
}

/// Whether a path is the root or lies, as the file system lists it, in a directory that was found.
pub open spec fn comes_from(
    found: Seq<Seq<u8>>,
    root: Seq<u8>,
    listing: spec_fn(Seq<u8>) -> Seq<tree::EntryView>,
    p: Seq<u8>,
) -> bool {
    p == root || exists|q: Seq<u8>| #[trigger]
        found.contains(q) && tree::indexed_children(q, listing(q)).contains(p)
}

/// Whether a walk holds no more than the index does, and nothing but what the file system lists
/// below the root.
pub open spec fn is_sound_walk(
    walk: WalkView,
    root: Seq<u8>,
    listing: spec_fn(Seq<u8>) -> Seq<tree::EntryView>,
) -> bool {
    &&& walk.found.len() <= store::MAX_CACHE_DIRS
    &&& forall|i: int|
        0 <= i < walk.found.len() ==> comes_from(walk.found, root, listing, #[trigger] walk.found[i])
    &&& forall|i: int|
        0 <= i < walk.pending.len() ==> comes_from(
            walk.found,
            root,
            listing,
            #[trigger] walk.pending[i],
        )
}

/// The walk once the next directory has been taken up and read.
pub open spec fn after_step(
    walk: WalkView,
    listing: spec_fn(Seq<u8>) -> Seq<tree::EntryView>,
) -> WalkView {
    match next_visit(walk) {
        Some(path) => after_reading(after_visit(walk), path, listing(path)),
        None => walk,
    }
}

/// A walk from the root is sound.
pub proof fn lemma_walk_starts_sound(
    root: Seq<u8>,
    listing: spec_fn(Seq<u8>) -> Seq<tree::EntryView>,
)
    ensures
        is_sound_walk(WalkView { found: Seq::empty(), pending: seq![root] }, root, listing),
{
}

/// Every step keeps a walk sound: it holds at most as many directories as the index does, all of
/// them below the root.
pub proof fn lemma_walk_stays_sound(
    walk: WalkView,
    root: Seq<u8>,
    listing: spec_fn(Seq<u8>) -> Seq<tree::EntryView>,
)
    requires
        is_sound_walk(walk, root, listing),
    ensures
        is_sound_walk(after_step(walk, listing), root, listing),
{
    if next_visit(walk) is Some {
        let path = next_visit(walk)->0;
        let now = after_step(walk, listing);
        assert forall|p: Seq<u8>| comes_from(walk.found, root, listing, p) implies #[trigger]
            comes_from(now.found, root, listing, p) by {
            if p != root {
                let q = choose|q: Seq<u8>| #[trigger]
                    walk.found.contains(q) && tree::indexed_children(q, listing(q)).contains(p);
                let k = choose|k: int| 0 <= k < walk.found.len() && walk.found[k] == q;
                assert(now.found[k] == q);
                assert(now.found.contains(q));
            }
        }
        assert forall|i: int| 0 <= i < now.found.len() implies comes_from(
            now.found,
            root,
            listing,
            #[trigger] now.found[i],
        ) by {
            if i < walk.found.len() {
                assert(comes_from(walk.found, root, listing, walk.found[i]));
            } else {
                assert(comes_from(
                    walk.found,
                    root,
                    listing,
                    walk.pending[walk.pending.len() - 1],
                ));
            }
        }
        let children = tree::indexed_children(path, listing(path));
        assert forall|i: int| 0 <= i < now.pending.len() implies comes_from(
            now.found,
            root,
            listing,
            #[trigger] now.pending[i],
        ) by {
            if i < walk.pending.len() - 1 {
                assert(comes_from(walk.found, root, listing, walk.pending[i]));
            } else {
                let c = children.len() - 1 - (i - (walk.pending.len() - 1));
                assert(now.pending[i] == children[c]);
                assert(now.found[now.found.len() - 1] == path);
                assert(now.found.contains(path));
                assert(children.contains(now.pending[i]));
            }
        }
    }
}

/// Whether a path stands in a list, however it is written.
pub open spec fn stands_in(list: Seq<Seq<u8>>, path: Seq<u8>) -> bool {
    exists|i: int|
        0 <= i < list.len() && paths::components(#[trigger] list[i]) == paths::components(path)
}

/// Whether paths are in alphabetical order.
pub open spec fn is_alphabetical(list: Seq<Seq<u8>>) -> bool {
    forall|i: int, j: int|
        0 <= i < j < list.len() ==> !order::text_before(
            path_rank(#[trigger] list[j]).text,
            path_rank(#[trigger] list[i]).text,
        )
}

proof fn lemma_without_repeats(list: Seq<Seq<u8>>)
    ensures
        list.len() > 0 ==> without_repeats(list).len() > 0 && paths::components(
            without_repeats(list).last(),
        ) == paths::components(list.last()),
        without_repeats(list).len() <= list.len(),
        forall|i: int|
            0 <= i < without_repeats(list).len() - 1 ==> paths::components(
                #[trigger] without_repeats(list)[i],
            ) != paths::components(without_repeats(list)[i + 1]),
    decreases list.len(),
{
    if list.len() > 1 {
        lemma_without_repeats(list.drop_last());
    }
}

proof fn lemma_kept_is_listed(list: Seq<Seq<u8>>, i: int)
    requires
        0 <= i < without_repeats(list).len(),
    ensures
        list.contains(without_repeats(list)[i]),
    decreases list.len(),
{
    let r = without_repeats(list);
    if list.len() > 1 {
        let less = list.drop_last();
        let kept = without_repeats(less);
        lemma_without_repeats(less);
        if i < kept.len() {
            lemma_kept_is_listed(less, i);
            let k = choose|k: int| 0 <= k < less.len() && less[k] == kept[i];
            assert(list[k] == r[i]);
        } else {
            assert(list[list.len() - 1] == r[i]);
        }
    } else {
        assert(list[i] == r[i]);
    }
}

proof fn lemma_listed_is_kept(list: Seq<Seq<u8>>, k: int)
    requires
        0 <= k < list.len(),
    ensures
        stands_in(without_repeats(list), list[k]),
    decreases list.len(),
{
    let r = without_repeats(list);
    if list.len() > 1 && k < list.len() - 1 {
        let less = list.drop_last();
        let kept = without_repeats(less);
        lemma_listed_is_kept(less, k);
        let i = choose|i: int|
            0 <= i < kept.len() && paths::components(#[trigger] kept[i]) == paths::components(
                less[k],
            );
        assert(paths::components(r[i]) == paths::components(list[k]));
    } else {
        lemma_without_repeats(list);
        assert(paths::components(r[r.len() - 1]) == paths::components(list[k]));
    }
}

proof fn lemma_kept_is_alphabetical(list: Seq<Seq<u8>>)
    requires
        is_alphabetical(list),
    ensures
        is_alphabetical(without_repeats(list)),
    decreases list.len(),
{
    let r = without_repeats(list);
    if list.len() > 1 {
        let less = list.drop_last();
        let kept = without_repeats(less);
        assert forall|i: int, j: int| 0 <= i < j < less.len() implies !order::text_before(
            path_rank(#[trigger] less[j]).text,
            path_rank(#[trigger] less[i]).text,
        ) by {
            assert(less[j] == list[j] && less[i] == list[i]);
        }
        lemma_kept_is_alphabetical(less);
        assert forall|i: int, j: int| 0 <= i < j < r.len() implies !order::text_before(
            path_rank(#[trigger] r[j]).text,
            path_rank(#[trigger] r[i]).text,
        ) by {
            assert(r[i] == kept[i]);
            if j < kept.len() {
                assert(r[j] == kept[j]);
            } else {
                lemma_kept_is_listed(less, i);
                let k = choose|k: int| 0 <= k < less.len() && less[k] == kept[i];
                assert(list[k] == r[i]);
                assert(list[list.len() - 1] == r[j]);
            }
        }
    }
}

/// The index is in alphabetical order. It holds every directory that was found and nothing else,
/// and none twice in a row.
pub proof fn lemma_index_is_in_order(found: Seq<Seq<u8>>)
    ensures
        ({
            let index = without_repeats(sorted_paths(found));
            &&& is_alphabetical(index)
            &&& index.len() <= found.len()
            &&& forall|k: int| 0 <= k < found.len() ==> stands_in(index, #[trigger] found[k])
            &&& forall|i: int| 0 <= i < index.len() ==> found.contains(#[trigger] index[i])
            &&& forall|i: int|
                0 <= i < index.len() - 1 ==> paths::components(#[trigger] index[i])
                    != paths::components(index[i + 1])
        }),
{
    let ranks = found.map_values(|p: Seq<u8>| path_rank(p));
    let order = order::ranking(ranks);
    let sorted = sorted_paths(found);
    let index = without_repeats(sorted);
    order::lemma_arranged_keeps_all(found, ranks);
    order::lemma_ranking(ranks);
    assert forall|i: int, j: int| 0 <= i < j < sorted.len() implies !order::text_before(
        path_rank(#[trigger] sorted[j]).text,
        path_rank(#[trigger] sorted[i]).text,
    ) by {
        let x = order[i];
        let y = order[j];
        assert(order.contains(x) && order.contains(y));
        assert(order::entry_before(ranks, x, y));
        assert(sorted[i] == found[x] && sorted[j] == found[y]);
        order::lemma_rank_order(ranks[x], ranks[y], ranks[x]);
    }
    lemma_without_repeats(sorted);
    lemma_kept_is_alphabetical(sorted);
    assert forall|k: int| 0 <= k < found.len() implies stands_in(index, #[trigger] found[k]) by {
        assert(order.contains(k));
        let p = choose|p: int| 0 <= p < order.len() && order[p] == k;
        assert(sorted[p] == found[k]);
        lemma_listed_is_kept(sorted, p);
    }
    assert forall|i: int| 0 <= i < index.len() implies found.contains(#[trigger] index[i]) by {
        lemma_kept_is_listed(sorted, i);
        let p = choose|p: int| 0 <= p < sorted.len() && sorted[p] == index[i];
        assert(order.contains(order[p]));
        assert(found[order[p]] == index[i]);
    }
}

/// The walk after a number of steps.
pub open spec fn after_steps(
    walk: WalkView,
    listing: spec_fn(Seq<u8>) -> Seq<tree::EntryView>,
    n: nat,
) -> WalkView
    decreases n,
{
    if n == 0 {
        walk
    } else {
        after_step(after_steps(walk, listing, (n - 1) as nat), listing)
    }
}

/// The walk before its first step.
pub open spec fn first_walk(root: Seq<u8>) -> WalkView {
    WalkView { found: Seq::empty(), pending: seq![root] }
}

/// The walk from the root to its end.
pub open spec fn whole_walk(
    root: Seq<u8>,
    listing: spec_fn(Seq<u8>) -> Seq<tree::EntryView>,
) -> WalkView {
    after_steps(first_walk(root), listing, store::MAX_CACHE_DIRS as nat)
}

proof fn lemma_steps(root: Seq<u8>, listing: spec_fn(Seq<u8>) -> Seq<tree::EntryView>, n: nat)
    ensures
        ({
            let walk = after_steps(first_walk(root), listing, n);
            &&& next_visit(walk) is Some ==> walk.found.len() == n
            &&& n > 0 ==> walk.found.len() > 0 && walk.found[0] == root
        }),
    decreases n,
{
    if n > 0 {
        lemma_steps(root, listing, (n - 1) as nat);
    }
}

/// A walk ends: at the latest when it has found as many directories as the index holds.
pub proof fn lemma_walk_ends(root: Seq<u8>, listing: spec_fn(Seq<u8>) -> Seq<tree::EntryView>)
    ensures
        next_visit(whole_walk(root, listing)) is None,
        after_step(whole_walk(root, listing), listing) == whole_walk(root, listing),
{
    lemma_steps(root, listing, store::MAX_CACHE_DIRS as nat);
}

/// Whether a walk has found a directory or is still to visit it.
pub open spec fn knows(walk: WalkView, path: Seq<u8>) -> bool {
    walk.found.contains(path) || walk.pending.contains(path)
}

/// Whether a walk misses nothing: it knows the root and whatever the index follows in a directory
/// that it has found.
pub open spec fn is_complete_walk(
    walk: WalkView,
    root: Seq<u8>,
    listing: spec_fn(Seq<u8>) -> Seq<tree::EntryView>,
) -> bool {
    &&& knows(walk, root)
    &&& forall|q: Seq<u8>, p: Seq<u8>|
        #![trigger walk.found.contains(q), knows(walk, p)]
        walk.found.contains(q) && tree::indexed_children(q, listing(q)).contains(p) ==> knows(
            walk,
            p,
        )
}

/// Every step keeps a walk complete.
pub proof fn lemma_walk_stays_complete(
    walk: WalkView,
    root: Seq<u8>,
    listing: spec_fn(Seq<u8>) -> Seq<tree::EntryView>,
)
    requires
        is_complete_walk(walk, root, listing),
    ensures
        is_complete_walk(after_step(walk, listing), root, listing),
{
    if next_visit(walk) is Some {
        let path = next_visit(walk)->0;
        let now = after_step(walk, listing);
        let children = tree::indexed_children(path, listing(path));
        let last = walk.pending.len() - 1;
        assert(now.found =~= walk.found.push(path));
        assert forall|p: Seq<u8>| knows(walk, p) implies #[trigger] knows(now, p) by {
            if walk.found.contains(p) {
                let k = choose|k: int| 0 <= k < walk.found.len() && walk.found[k] == p;
                assert(now.found[k] == p);
            } else {
                let k = choose|k: int| 0 <= k < walk.pending.len() && walk.pending[k] == p;
                if k < last {
                    assert(now.pending[k] == p);
                } else {
                    assert(now.found[walk.found.len() as int] == p);
                }
            }
        }
        assert forall|q: Seq<u8>, p: Seq<u8>|
            #![trigger now.found.contains(q), knows(now, p)]
            now.found.contains(q) && tree::indexed_children(q, listing(q)).contains(
                p,
            ) implies knows(now, p) by {
            if q == path {
                let c = choose|c: int| 0 <= c < children.len() && children[c] == p;
                let k = last + children.len() - 1 - c;
                assert(now.pending[k] == children.reverse()[children.len() - 1 - c]);
                assert(now.pending[k] == p);
            } else {
                let k = choose|k: int| 0 <= k < now.found.len() && now.found[k] == q;
                assert(walk.found[k] == q);
                assert(walk.found.contains(q));
                assert(knows(walk, p));
            }
        }
    }
}

proof fn lemma_steps_are_complete(
    root: Seq<u8>,
    listing: spec_fn(Seq<u8>) -> Seq<tree::EntryView>,
    n: nat,
)
    ensures
        is_complete_walk(after_steps(first_walk(root), listing, n), root, listing),
    decreases n,
{
    if n == 0 {
        assert(first_walk(root).pending[0] == root);
    } else {
        lemma_steps_are_complete(root, listing, (n - 1) as nat);
        lemma_walk_stays_complete(
            after_steps(first_walk(root), listing, (n - 1) as nat),
            root,
            listing,
        );
    }
}

/// A walk that did not fill the index has found everything: the root, and whatever the index follows
/// in a directory that was found.
pub proof fn lemma_whole_walk_is_complete(
    root: Seq<u8>,
    listing: spec_fn(Seq<u8>) -> Seq<tree::EntryView>,
)
    requires
        whole_walk(root, listing).found.len() < store::MAX_CACHE_DIRS,
    ensures
        ({
            let found = whole_walk(root, listing).found;
            &&& found.contains(root)
            &&& forall|q: Seq<u8>, p: Seq<u8>|
                #![trigger found.contains(q), found.contains(p)]
                found.contains(q) && tree::indexed_children(q, listing(q)).contains(p)
                    ==> found.contains(p)
        }),
{
    let walk = whole_walk(root, listing);
    lemma_walk_ends(root, listing);
    lemma_steps_are_complete(root, listing, store::MAX_CACHE_DIRS as nat);
    assert(walk.pending.len() == 0);
    assert forall|q: Seq<u8>, p: Seq<u8>|
        #![trigger walk.found.contains(q), walk.found.contains(p)]
        walk.found.contains(q) && tree::indexed_children(q, listing(q)).contains(
            p,
        ) implies walk.found.contains(p) by {
        assert(knows(walk, p));
    }
}

/// Whether the entries of a directory have different names.
pub open spec fn names_once(entries: Seq<tree::EntryView>) -> bool {
    forall|i: int, j: int|
        0 <= i < j < entries.len() ==> (#[trigger] entries[i]).name != (#[trigger] entries[j]).name
}

proof fn lemma_kept_names_once(entries: Seq<tree::EntryView>, pick: spec_fn(tree::EntryView) -> bool)
    requires
        names_once(entries),
    ensures
        names_once(entries.filter(pick)),
    decreases entries.len(),
{
    reveal(Seq::filter);
    if entries.len() > 0 {
        let less = entries.drop_last();
        let last = entries.last();
        assert forall|i: int, j: int| 0 <= i < j < less.len() implies (#[trigger] less[i]).name != (
        #[trigger] less[j]).name by {
            assert(less[i] == entries[i] && less[j] == entries[j]);
        }
        lemma_kept_names_once(less, pick);
        let kept = less.filter(pick);
        assert(entries.filter(pick) == (if pick(last) {
            kept.push(last)
        } else {
            kept
        }));
        assert forall|i: int| 0 <= i < kept.len() implies (#[trigger] kept[i]).name != last.name by {
            assert(kept.contains(kept[i]));
            less.lemma_filter_contains_rev(pick, kept[i]);
            let k = choose|k: int| 0 <= k < less.len() && less[k] == kept[i];
            assert(entries[k] == kept[i]);
            assert(entries[entries.len() - 1] == last);
        }
    }
}

/// What the index follows in a directory lies one level below it, and, where the entries have
/// different names, no directory is followed twice.
pub proof fn lemma_indexed_children(path: Seq<u8>, entries: Seq<tree::EntryView>)
    ensures
        ({
            let children = tree::indexed_children(path, entries);
            &&& forall|c: int|
                0 <= c < children.len() ==> paths::components(#[trigger] children[c]).drop_last()
                    == paths::components(path) && paths::components(children[c]).len() > 0
            &&& names_once(entries) ==> forall|c: int, d: int|
                0 <= c < d < children.len() ==> paths::components(#[trigger] children[c])
                    != paths::components(#[trigger] children[d])
        }),
{
    let pick = |e: tree::EntryView| tree::is_indexed(path, e);
    let kept = entries.filter(pick);
    let ranks = kept.map_values(|e: tree::EntryView| tree::entry_rank(e));
    let order = order::ranking(ranks);
    let children = tree::indexed_children(path, entries);
    order::lemma_ranking(ranks);
    assert forall|c: int| 0 <= c < children.len() implies 0 <= #[trigger] order[c] < kept.len()
        && paths::components(children[c]) == paths::components(path).push(kept[order[c]].name) by {
        assert(order.contains(order[c]));
        let e = kept[order[c]];
        assert(children[c] == paths::joined_path(path, e.name));
        entries.lemma_filter_pred(pick, order[c]);
        paths::lemma_joined_components(path, e.name);
    }
    assert forall|c: int| 0 <= c < children.len() implies paths::components(
        #[trigger] children[c],
    ).drop_last() == paths::components(path) && paths::components(children[c]).len() > 0 by {
        assert(0 <= order[c] < kept.len());
        assert(paths::components(path).push(kept[order[c]].name).drop_last() =~= paths::components(
            path,
        ));
    }
    if names_once(entries) {
        lemma_kept_names_once(entries, pick);
        assert forall|c: int, d: int| 0 <= c < d < children.len() implies paths::components(
            #[trigger] children[c],
        ) != paths::components(#[trigger] children[d]) by {
            let x = order[c];
            let y = order[d];
            assert(order::entry_before(ranks, x, y));
            order::lemma_rank_order(ranks[x], ranks[y], ranks[x]);
            assert(kept[x].name != kept[y].name);
            assert(paths::components(children[c]).last() == kept[x].name);
            assert(paths::components(children[d]).last() == kept[y].name);
        }
    }
}

/// Whether a path is the root or lies one level below a directory that was found, and in any case
/// not above the root.
pub open spec fn is_below(found: Seq<Seq<u8>>, root: Seq<u8>, p: Seq<u8>) -> bool {
    &&& paths::components(p).len() >= paths::components(root).len()
    &&& p == root || exists|k: int|
        0 <= k < found.len() && paths::components(p).len() > 0 && paths::components(p).drop_last()
            == paths::components(#[trigger] found[k])
}

/// Whether a walk knows no directory twice, however it is written, and none that does not lie below
/// the root.
pub open spec fn is_distinct_walk(walk: WalkView, root: Seq<u8>) -> bool {
    &&& forall|i: int, j: int|
        0 <= i < j < walk.found.len() ==> paths::components(#[trigger] walk.found[i])
            != paths::components(#[trigger] walk.found[j])
    &&& forall|i: int, j: int|
        0 <= i < j < walk.pending.len() ==> paths::components(#[trigger] walk.pending[i])
            != paths::components(#[trigger] walk.pending[j])
    &&& forall|i: int, j: int|
        0 <= i < walk.found.len() && 0 <= j < walk.pending.len() ==> paths::components(
            #[trigger] walk.found[i],
        ) != paths::components(#[trigger] walk.pending[j])
    &&& forall|i: int| 0 <= i < walk.found.len() ==> is_below(walk.found, root, #[trigger] walk.found[i])
    &&& forall|i: int|
        0 <= i < walk.pending.len() ==> is_below(walk.found, root, #[trigger] walk.pending[i])
}

/// What lies in the directory that is visited next is not known yet.
proof fn lemma_child_is_new(walk: WalkView, root: Seq<u8>, p: Seq<u8>, child: Seq<u8>)
    requires
        is_distinct_walk(walk, root),
        next_visit(walk) is Some,
        is_below(walk.found, root, p),
        paths::components(child).len() > 0,
        paths::components(child).drop_last() == paths::components(next_visit(walk)->0),
    ensures
        paths::components(p) != paths::components(child),
{
    let last = walk.pending.len() - 1;
    assert(is_below(walk.found, root, walk.pending[last]));
    if paths::components(p) == paths::components(child) && p != root {
        let k = choose|k: int|
            0 <= k < walk.found.len() && paths::components(p).len() > 0 && paths::components(
                p,
            ).drop_last() == paths::components(#[trigger] walk.found[k]);
        assert(paths::components(walk.found[k]) == paths::components(walk.pending[last]));
    }
}

/// What a step makes of a walk: the directory that was visited is found, and what it holds is
/// pending behind the rest.
proof fn lemma_step(walk: WalkView, listing: spec_fn(Seq<u8>) -> Seq<tree::EntryView>)
    requires
        next_visit(walk) is Some,
    ensures
        ({
            let now = after_step(walk, listing);
            let path = next_visit(walk)->0;
            let last = walk.pending.len() - 1;
            let n = tree::indexed_children(path, listing(path)).len();
            &&& path == walk.pending[last]
            &&& now.found == walk.found.push(path)
            &&& now.pending.len() == last + n
            &&& forall|j: int| 0 <= j < last ==> #[trigger] now.pending[j] == walk.pending[j]
            &&& forall|j: int|
                last <= j < last + n ==> #[trigger] now.pending[j] == tree::indexed_children(
                    path,
                    listing(path),
                )[n - 1 - (j - last)]
        }),
{
    let path = next_visit(walk)->0;
    let children = tree::indexed_children(path, listing(path));
    assert(children.reverse().len() == children.len());
}

/// What lies below directories that were found still does when more are.
proof fn lemma_still_below(found: Seq<Seq<u8>>, path: Seq<u8>, root: Seq<u8>, p: Seq<u8>)
    requires
        is_below(found, root, p),
    ensures
        is_below(found.push(path), root, p),
{
    if p != root {
        let k = choose|k: int|
            0 <= k < found.len() && paths::components(p).len() > 0 && paths::components(
                p,
            ).drop_last() == paths::components(#[trigger] found[k]);
        assert(found.push(path)[k] == found[k]);
    }
}

/// A step of a walk through directories whose entries have different names leads to no directory
/// twice.
pub proof fn lemma_walk_stays_distinct(
    walk: WalkView,
    root: Seq<u8>,
    listing: spec_fn(Seq<u8>) -> Seq<tree::EntryView>,
)
    requires
        is_distinct_walk(walk, root),
        forall|q: Seq<u8>| names_once(#[trigger] listing(q)),
    ensures
        is_distinct_walk(after_step(walk, listing), root),
{
    if next_visit(walk) is Some {
        let path = next_visit(walk)->0;
        let now = after_step(walk, listing);
        let children = tree::indexed_children(path, listing(path));
        lemma_step(walk, listing);
        lemma_indexed_children(path, listing(path));
        assert(names_once(listing(path)));
        lemma_grown_walk_is_distinct(walk, root, now, children);
    }
}

/// A walk stays distinct when new directories one level below the one that is visited are pending.
proof fn lemma_grown_walk_is_distinct(
    walk: WalkView,
    root: Seq<u8>,
    now: WalkView,
    children: Seq<Seq<u8>>,
)
    requires
        is_distinct_walk(walk, root),
        next_visit(walk) is Some,
        now.found == walk.found.push(walk.pending[walk.pending.len() - 1]),
        now.pending.len() == walk.pending.len() - 1 + children.len(),
        forall|j: int|
            0 <= j < walk.pending.len() - 1 ==> #[trigger] now.pending[j] == walk.pending[j],
        forall|j: int|
            walk.pending.len() - 1 <= j < now.pending.len() ==> #[trigger] now.pending[j]
                == children[children.len() - 1 - (j - (walk.pending.len() - 1))],
        forall|c: int|
            0 <= c < children.len() ==> paths::components(#[trigger] children[c]).drop_last()
                == paths::components(walk.pending[walk.pending.len() - 1]) && paths::components(
                children[c],
            ).len() > 0,
        forall|c: int, d: int|
            0 <= c < d < children.len() ==> paths::components(#[trigger] children[c])
                != paths::components(#[trigger] children[d]),
    ensures
        is_distinct_walk(now, root),
{
    let last = walk.pending.len() - 1;
    let path = walk.pending[last];
    let n = children.len() as int;
    assert(is_below(walk.found, root, path));
    assert forall|i: int, j: int| 0 <= i < j < now.pending.len() implies paths::components(
        #[trigger] now.pending[i],
    ) != paths::components(#[trigger] now.pending[j]) by {
        if j < last {
            assert(now.pending[i] == walk.pending[i] && now.pending[j] == walk.pending[j]);
        } else if i < last {
            assert(now.pending[i] == walk.pending[i]);
            assert(now.pending[j] == children[n - 1 - (j - last)]);
            lemma_child_is_new(walk, root, walk.pending[i], now.pending[j]);
        } else {
            let c = n - 1 - (j - last);
            let d = n - 1 - (i - last);
            assert(now.pending[j] == children[c] && now.pending[i] == children[d]);
        }
    }
    assert forall|i: int, j: int|
        0 <= i < now.found.len() && 0 <= j < now.pending.len() implies paths::components(
        #[trigger] now.found[i],
    ) != paths::components(#[trigger] now.pending[j]) by {
        let p = if i < walk.found.len() {
            walk.found[i]
        } else {
            path
        };
        assert(now.found[i] == p);
        assert(is_below(walk.found, root, p));
        if j < last {
            assert(now.pending[j] == walk.pending[j]);
        } else {
            assert(now.pending[j] == children[n - 1 - (j - last)]);
            lemma_child_is_new(walk, root, p, now.pending[j]);
        }
    }
    assert forall|i: int| 0 <= i < now.found.len() implies is_below(
        now.found,
        root,
        #[trigger] now.found[i],
    ) by {
        let p = if i < walk.found.len() {
            walk.found[i]
        } else {
            path
        };
        assert(now.found[i] == p);
        assert(is_below(walk.found, root, p));
        lemma_still_below(walk.found, path, root, p);
    }
    assert forall|i: int| 0 <= i < now.pending.len() implies is_below(
        now.found,
        root,
        #[trigger] now.pending[i],
    ) by {
        if i < last {
            assert(now.pending[i] == walk.pending[i]);
            lemma_still_below(walk.found, path, root, walk.pending[i]);
        } else {
            assert(now.pending[i] == children[n - 1 - (i - last)]);
            assert(now.found[walk.found.len() as int] == path);
        }
    }
}

proof fn lemma_steps_are_distinct(
    root: Seq<u8>,
    listing: spec_fn(Seq<u8>) -> Seq<tree::EntryView>,
    n: nat,
)
    requires
        forall|q: Seq<u8>| names_once(#[trigger] listing(q)),
    ensures
        is_distinct_walk(after_steps(first_walk(root), listing, n), root),
    decreases n,
{
    if n > 0 {
        lemma_steps_are_distinct(root, listing, (n - 1) as nat);
        lemma_walk_stays_distinct(
            after_steps(first_walk(root), listing, (n - 1) as nat),
            root,
            listing,
        );
    }
}

proof fn lemma_distinct_is_kept(list: Seq<Seq<u8>>)
    requires
        forall|i: int, j: int|
            0 <= i < j < list.len() ==> paths::components(#[trigger] list[i]) != paths::components(
                #[trigger] list[j],
            ),
    ensures
        without_repeats(list) == list,
    decreases list.len(),
{
    if list.len() > 1 {
        let less = list.drop_last();
        assert forall|i: int, j: int| 0 <= i < j < less.len() implies paths::components(
            #[trigger] less[i],
        ) != paths::components(#[trigger] less[j]) by {
            assert(less[i] == list[i] && less[j] == list[j]);
        }
        lemma_distinct_is_kept(less);
        assert(less.last() == list[list.len() - 2]);
        assert(list.last() == list[list.len() - 1]);
        assert(list =~= less.push(list.last()));
    }
}

/// The index that a walk ends with.
pub open spec fn whole_index(
    root: Seq<u8>,
    listing: spec_fn(Seq<u8>) -> Seq<tree::EntryView>,
) -> Seq<Seq<u8>> {
    without_repeats(sorted_paths(whole_walk(root, listing).found))
}

/// The index always holds the root, and the root alone where nothing in it can be followed.
pub proof fn lemma_index_holds_the_root(
    root: Seq<u8>,
    listing: spec_fn(Seq<u8>) -> Seq<tree::EntryView>,
)
    ensures
        stands_in(whole_index(root, listing), root),
        listing(root).len() == 0 ==> whole_index(root, listing) == seq![root],
{
    let found = whole_walk(root, listing).found;
    lemma_steps(root, listing, store::MAX_CACHE_DIRS as nat);
    lemma_index_is_in_order(found);
    assert(stands_in(whole_index(root, listing), found[0]));
    if listing(root).len() == 0 {
        lemma_steps_of_empty_root(root, listing, store::MAX_CACHE_DIRS as nat);
        let index = whole_index(root, listing);
        assert(index.len() == 1);
        assert(found.contains(index[0]));
        assert(index =~= seq![root]);
    }
}

proof fn lemma_steps_of_empty_root(
    root: Seq<u8>,
    listing: spec_fn(Seq<u8>) -> Seq<tree::EntryView>,
    n: nat,
)
    requires
        listing(root).len() == 0,
        n > 0,
    ensures
        after_steps(first_walk(root), listing, n) == (WalkView {
            found: seq![root],
            pending: Seq::empty(),
        }),
    decreases n,
{
    let before = after_steps(first_walk(root), listing, (n - 1) as nat);
    if n == 1 {
        let pick = |e: tree::EntryView| tree::is_indexed(root, e);
        reveal(Seq::filter);
        assert(listing(root).filter(pick).len() == 0);
        let ranks = listing(root).filter(pick).map_values(
            |e: tree::EntryView| tree::entry_rank(e),
        );
        assert(order::ranking(ranks).len() == 0);
        assert(tree::indexed_children(root, listing(root)).len() == 0);
        assert(before.found.push(root) =~= seq![root]);
        assert(before.pending.drop_last() + tree::indexed_children(
            root,
            listing(root),
        ).reverse() =~= Seq::<Seq<u8>>::empty());
    } else {
        lemma_steps_of_empty_root(root, listing, (n - 1) as nat);
    }
}

/// The index holds no directory twice, however it is written, where the file system lists every
/// entry of a directory once.
pub proof fn lemma_index_holds_nothing_twice(
    root: Seq<u8>,
    listing: spec_fn(Seq<u8>) -> Seq<tree::EntryView>,
)
    requires
        forall|q: Seq<u8>| names_once(#[trigger] listing(q)),
    ensures
        forall|i: int, j: int|
            0 <= i < j < whole_index(root, listing).len() ==> paths::components(
                #[trigger] whole_index(root, listing)[i],
            ) != paths::components(#[trigger] whole_index(root, listing)[j]),
{
    let found = whole_walk(root, listing).found;
    let ranks = found.map_values(|p: Seq<u8>| path_rank(p));
    let order = order::ranking(ranks);
    let sorted = sorted_paths(found);
    lemma_steps_are_distinct(root, listing, store::MAX_CACHE_DIRS as nat);
    order::lemma_ranking(ranks);
    assert forall|i: int, j: int| 0 <= i < j < sorted.len() implies paths::components(
        #[trigger] sorted[i],
    ) != paths::components(#[trigger] sorted[j]) by {
        let x = order[i];
        let y = order[j];
        assert(order.contains(x) && order.contains(y));
        assert(order::entry_before(ranks, x, y));
        order::lemma_rank_order(ranks[x], ranks[y], ranks[x]);
        assert(sorted[i] == found[x] && sorted[j] == found[y]);
        if x < y {
            assert(paths::components(found[x]) != paths::components(found[y]));
        } else {
            assert(paths::components(found[y]) != paths::components(found[x]));
        }
    }
    lemma_distinct_is_kept(sorted);
}

} // verus!
