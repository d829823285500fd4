//! The order of every list on the screen, and the stable sort that produces it.
use vstd::prelude::*;

verus! {

/// What a list entry is ranked by: a larger `major` comes first, then a larger `minor`, then the
/// text that is first in alphabetical order.
pub struct Rank {
    pub major: i64,
    pub minor: u64,
    pub text: Vec<char>,
}

/// The value of a [`Rank`].
#[verifier::ext_equal]
pub struct RankView {
    pub major: int,
    pub minor: int,
    pub text: Seq<char>,
}

impl View for Rank {
    type V = RankView;

    open spec fn view(&self) -> RankView {
        RankView { major: self.major as int, minor: self.minor as int, text: self.text@ }
    }
}

/// The values of several ranks.
pub open spec fn rank_views(ranks: Seq<Rank>) -> Seq<RankView> {
    ranks.map_values(|r: Rank| r@)
}

/// Whether `a` stands strictly before `b` in alphabetical order, by the characters' code points.
pub open spec fn text_before(a: Seq<char>, b: Seq<char>) -> bool
    decreases a.len(),
{
    if b.len() == 0 {
        false
    } else if a.len() == 0 {
        true
    } else if a[0] != b[0] {
        (a[0] as int) < (b[0] as int)
    } else {
        text_before(a.drop_first(), b.drop_first())
    }
}

/// Whether rank `a` stands strictly before rank `b`.
pub open spec fn rank_before(a: RankView, b: RankView) -> bool {
    if a.major != b.major {
        a.major > b.major
    } else if a.minor != b.minor {
        a.minor > b.minor
    } else {
        text_before(a.text, b.text)
    }
}

/// Puts entry `i` behind every entry of `order` that it does not stand strictly before.
pub open spec fn placed(order: Seq<int>, keys: Seq<RankView>, i: int) -> Seq<int>
    decreases order.len(),
{
    if order.len() > 0 && rank_before(keys[i], keys[order.last()]) {
        placed(order.drop_last(), keys, i).push(order.last())
    } else {
        order.push(i)
    }
}

/// The positions of `keys` from first to last in rank; equal ranks keep the order they came in.
pub open spec fn ranking(keys: Seq<RankView>) -> Seq<int>
    decreases keys.len(),
{
    if keys.len() == 0 {
        Seq::empty()
    } else {
        placed(ranking(keys.drop_last()), keys, keys.len() - 1)
    }
}

/// Whether entry `i` comes before entry `j` in a stable ranking of `keys`.
pub open spec fn entry_before(keys: Seq<RankView>, i: int, j: int) -> bool {
    rank_before(keys[i], keys[j]) || (!rank_before(keys[j], keys[i]) && i < j)
}

/// Whether `order` lists exactly the entries from `lo` up to `hi`, each before those it precedes.
pub open spec fn is_ranking_of(order: Seq<int>, keys: Seq<RankView>, lo: int, hi: int) -> bool {
    &&& forall|a: int, b: int|
        0 <= a < b < order.len() ==> entry_before(keys, #[trigger] order[a], #[trigger] order[b])
    &&& forall|i: int| #[trigger] order.contains(i) <==> lo <= i < hi
}

/// Texts are ordered strictly and in full.
pub proof fn lemma_text_order(a: Seq<char>, b: Seq<char>, c: Seq<char>)
    ensures
        !text_before(a, a),
        text_before(a, b) ==> !text_before(b, a),
        !text_before(a, b) && !text_before(b, a) ==> a == b,
        text_before(a, b) && text_before(b, c) ==> text_before(a, c),
    decreases a.len() + b.len() + c.len(),
{
    if a.len() > 0 && b.len() > 0 && c.len() > 0 {
        lemma_text_order(a.drop_first(), b.drop_first(), c.drop_first());
    } else if a.len() > 0 && b.len() > 0 {
        lemma_text_order(a.drop_first(), b.drop_first(), c);
    } else if a.len() > 0 {
        lemma_text_order(a.drop_first(), b, c);
    }
    if a.len() > 0 && b.len() > 0 && !text_before(a, b) && !text_before(b, a) {
        assert(a.drop_first() == b.drop_first());
        assert(a =~= seq![a[0]] + a.drop_first());
        assert(b =~= seq![b[0]] + b.drop_first());
    }
    if a.len() == 0 && b.len() == 0 {
        assert(a =~= b);
    }
}

/// The order of ranks is strict and total.
pub proof fn lemma_rank_order(a: RankView, b: RankView, c: RankView)
    ensures
        !rank_before(a, a),
        rank_before(a, b) ==> !rank_before(b, a),
        !rank_before(a, b) && !rank_before(b, a) ==> a == b,
        rank_before(a, b) && rank_before(b, c) ==> rank_before(a, c),
{
    lemma_text_order(a.text, b.text, c.text);
    lemma_text_order(a.text, a.text, c.text);
}

/// `entry_before` is a strict total order on the positions.
proof fn lemma_entry_order(keys: Seq<RankView>, i: int, j: int, k: int)
    ensures
        !entry_before(keys, i, i),
        entry_before(keys, i, j) ==> !entry_before(keys, j, i),
        i != j ==> entry_before(keys, i, j) || entry_before(keys, j, i),
        entry_before(keys, i, j) && entry_before(keys, j, k) ==> entry_before(keys, i, k),
{
    lemma_rank_order(keys[i], keys[j], keys[k]);
    lemma_rank_order(keys[j], keys[i], keys[k]);
    lemma_rank_order(keys[j], keys[k], keys[i]);
    lemma_rank_order(keys[k], keys[j], keys[i]);
    lemma_rank_order(keys[i], keys[k], keys[j]);
    lemma_rank_order(keys[k], keys[i], keys[j]);
}

/// Positions in a list, as numbers.
pub open spec fn positions(s: Seq<usize>) -> Seq<int> {
    s.map_values(|i: usize| i as int)
}

/// Whether each entry of `order` comes before those behind it.
spec fn in_order(order: Seq<int>, keys: Seq<RankView>) -> bool {
    forall|a: int, b: int|
        0 <= a < b < order.len() ==> entry_before(keys, #[trigger] order[a], #[trigger] order[b])
}

proof fn lemma_placed(order: Seq<int>, keys: Seq<RankView>, i: int)
    requires
        in_order(order, keys),
        forall|x: int| #[trigger] order.contains(x) ==> x < i,
    ensures
        in_order(placed(order, keys, i), keys),
        forall|x: int| #[trigger]
            placed(order, keys, i).contains(x) <==> order.contains(x) || x == i,
    decreases order.len(),
{
    let r = placed(order, keys, i);
    if order.len() > 0 && rank_before(keys[i], keys[order.last()]) {
        let rest = order.drop_last();
        let low = placed(rest, keys, i);
        assert forall|x: int| #[trigger] rest.contains(x) implies x < i by {
            let k = choose|k: int| 0 <= k < rest.len() && rest[k] == x;
            assert(order[k] == x);
            assert(order.contains(x));
        }
        lemma_placed(rest, keys, i);
        assert forall|a: int, b: int| 0 <= a < b < r.len() implies entry_before(
            keys,
            #[trigger] r[a],
            #[trigger] r[b],
        ) by {
            if b == r.len() - 1 {
                assert(r[a] == low[a]);
                assert(low.contains(low[a]));
                if low[a] != i {
                    assert(rest.contains(low[a]));
                    let k = choose|k: int| 0 <= k < rest.len() && rest[k] == low[a];
                    assert(entry_before(keys, order[k], order[order.len() - 1]));
                }
            } else {
                assert(r[a] == low[a] && r[b] == low[b]);
            }
        }
        assert forall|x: int| #[trigger] r.contains(x) <==> order.contains(x) || x == i by {
            if r.contains(x) {
                let k = choose|k: int| 0 <= k < r.len() && r[k] == x;
                if k < r.len() - 1 {
                    assert(low[k] == x);
                    assert(low.contains(x));
                    if x != i {
                        let m = choose|m: int| 0 <= m < rest.len() && rest[m] == x;
                        assert(order[m] == x);
                    }
                } else {
                    assert(order[order.len() - 1] == x);
                }
            }
            if order.contains(x) || x == i {
                if x == i || rest.contains(x) {
                    assert(low.contains(x));
                    let k = choose|k: int| 0 <= k < low.len() && low[k] == x;
                    assert(r[k] == x);
                } else {
                    let m = choose|m: int| 0 <= m < order.len() && order[m] == x;
                    if m < rest.len() {
                        assert(rest[m] == x);
                    }
                    assert(r[r.len() - 1] == x);
                }
            }
        }
    } else {
        assert forall|a: int, b: int| 0 <= a < b < r.len() implies entry_before(
            keys,
            #[trigger] r[a],
            #[trigger] r[b],
        ) by {
            if b == r.len() - 1 {
                let last = order.len() - 1;
                assert(order.contains(order[last]));
                assert(entry_before(keys, order[last], i)) by {
                    lemma_rank_order(keys[i], keys[order[last]], keys[i]);
                }
                if a < last {
                    assert(entry_before(keys, order[a], order[last]));
                    lemma_entry_order(keys, order[a], order[last], i);
                }
            } else {
                assert(r[a] == order[a] && r[b] == order[b]);
            }
        }
        assert forall|x: int| #[trigger] r.contains(x) <==> order.contains(x) || x == i by {
            if order.contains(x) {
                let m = choose|m: int| 0 <= m < order.len() && order[m] == x;
                assert(r[m] == x);
            }
            assert(r[r.len() - 1] == i);
        }
    }
}

/// A ranking lists every position once, and each before those it precedes: a better rank comes
/// first, and of two equal ranks the one that came first.
pub proof fn lemma_ranking(keys: Seq<RankView>)
    ensures
        is_ranking_of(ranking(keys), keys, 0, keys.len() as int),
    decreases keys.len(),
{
    if keys.len() > 0 {
        let less = keys.drop_last();
        let order = ranking(less);
        lemma_ranking(less);
        assert forall|a: int, b: int| 0 <= a < b < order.len() implies entry_before(
            keys,
            #[trigger] order[a],
            #[trigger] order[b],
        ) by {
            assert(order.contains(order[a]) && order.contains(order[b]));
            assert(entry_before(less, order[a], order[b]));
        }
        lemma_placed(order, keys, keys.len() - 1);
    }
}

proof fn lemma_placed_len(order: Seq<int>, keys: Seq<RankView>, i: int)
    ensures
        placed(order, keys, i).len() == order.len() + 1,
    decreases order.len(),
{
    if order.len() > 0 {
        lemma_placed_len(order.drop_last(), keys, i);
    }
}

proof fn lemma_ranking_len(keys: Seq<RankView>)
    ensures
        ranking(keys).len() == keys.len(),
    decreases keys.len(),
{
    if keys.len() > 0 {
        lemma_ranking_len(keys.drop_last());
        lemma_placed_len(ranking(keys.drop_last()), keys, keys.len() - 1);
    }
}

/// Two rankings of the same entries are the same list.
proof fn lemma_ranking_unique(x: Seq<int>, y: Seq<int>, keys: Seq<RankView>)
    requires
        in_order(x, keys),
        in_order(y, keys),
        forall|i: int| #[trigger] x.contains(i) <==> y.contains(i),
    ensures
        x == y,
    decreases x.len(),
{
    if x.len() == 0 {
        if y.len() > 0 {
            assert(y.contains(y[0]));
            assert(x.contains(y[0]));
        }
        assert(x =~= y);
    } else {
        assert(x.contains(x[0]));
        assert(y.contains(x[0]));
        let m = x.last();
        let n = y.last();
        assert(x.contains(x[x.len() - 1]));
        assert(y.contains(y[y.len() - 1]));
        assert(x.contains(n));
        let k = choose|k: int| 0 <= k < y.len() && y[k] == m;
        let j = choose|j: int| 0 <= j < x.len() && x[j] == n;
        if m != n {
            assert(entry_before(keys, y[k], y[y.len() - 1]));
            assert(entry_before(keys, x[j], x[x.len() - 1]));
            lemma_entry_order(keys, m, n, m);
        }
        let xs = x.drop_last();
        let ys = y.drop_last();
        assert forall|i: int| #[trigger] xs.contains(i) <==> ys.contains(i) by {
            lemma_entry_order(keys, m, m, m);
            if xs.contains(i) {
                let a = choose|a: int| 0 <= a < xs.len() && xs[a] == i;
                assert(entry_before(keys, x[a], x[x.len() - 1]));
                assert(x[a] == i);
                assert(x.contains(i));
                assert(y.contains(i));
                let b = choose|b: int| 0 <= b < y.len() && y[b] == i;
                assert(ys[b] == i);
            }
            if ys.contains(i) {
                let a = choose|a: int| 0 <= a < ys.len() && ys[a] == i;
                assert(entry_before(keys, y[a], y[y.len() - 1]));
                assert(y[a] == i);
                assert(y.contains(i) && x.contains(i));
                let b = choose|b: int| 0 <= b < x.len() && x[b] == i;
                assert(xs[b] == i);
            }
        }
        lemma_ranking_unique(xs, ys, keys);
        assert(x =~= xs.push(m));
        assert(y =~= ys.push(n));
    }
}

/// The entries of two rankings in one ranking.
fn merged(left: &Vec<usize>, right: &Vec<usize>, keys: &Vec<Rank>) -> (r: Vec<usize>)
    requires
        forall|k: int| 0 <= k < left.len() ==> #[trigger] left[k] < keys.len(),
        forall|k: int| 0 <= k < right.len() ==> #[trigger] right[k] < keys.len(),
        in_order(positions(left@), rank_views(keys@)),
        in_order(positions(right@), rank_views(keys@)),
        forall|a: int, b: int|
            0 <= a < left.len() && 0 <= b < right.len() ==> #[trigger] left[a] < #[trigger] right[b],
    ensures
        in_order(positions(r@), rank_views(keys@)),
        forall|i: int| #[trigger]
            positions(r@).contains(i) <==> positions(left@).contains(i) || positions(
                right@,
            ).contains(i),
{
    let ghost kv = rank_views(keys@);
    let ghost lv = positions(left@);
    let ghost rv = positions(right@);
    let mut r: Vec<usize> = Vec::new();
    let mut i: usize = 0;
    let mut j: usize = 0;
    while i < left.len() || j < right.len()
        invariant
            i <= left.len(),
            j <= right.len(),
            kv == rank_views(keys@),
            lv == positions(left@),
            rv == positions(right@),
            forall|k: int| 0 <= k < left.len() ==> #[trigger] left[k] < keys.len(),
            forall|k: int| 0 <= k < right.len() ==> #[trigger] right[k] < keys.len(),
            in_order(lv, kv),
            in_order(rv, kv),
            forall|a: int, b: int|
                0 <= a < left.len() && 0 <= b < right.len() ==> #[trigger] left[a]
                    < #[trigger] right[b],
            in_order(positions(r@), kv),
            r.len() == i + j,
            forall|x: int| 0 <= x < i ==> positions(r@).contains(#[trigger] lv[x]),
            forall|x: int| 0 <= x < j ==> positions(r@).contains(#[trigger] rv[x]),
            forall|x: int|
                0 <= x < r.len() ==> lv.contains(#[trigger] positions(r@)[x]) || rv.contains(
                    positions(r@)[x],
                ),
            forall|x: int, y: int|
                0 <= x < r.len() && i <= y < left.len() ==> entry_before(
                    kv,
                    #[trigger] positions(r@)[x],
                    #[trigger] lv[y],
                ),
            forall|x: int, y: int|
                0 <= x < r.len() && j <= y < right.len() ==> entry_before(
                    kv,
                    #[trigger] positions(r@)[x],
                    #[trigger] rv[y],
                ),
        decreases left.len() - i + right.len() - j,
    {
        let ghost before = positions(r@);
        let take_left: bool = if i >= left.len() {
            false
        } else if j >= right.len() {
            true
        } else {
            !rank_precedes(&keys[right[j]], &keys[left[i]])
        };
        let next: usize = if take_left {
            left[i]
        } else {
            right[j]
        };
        r.push(next);
        proof {
            assert(positions(r@) =~= before.push(next as int));
            assert(positions(r@)[before.len() as int] == next as int);
            if i < left.len() && j < right.len() {
                assert(kv[lv[i as int]] == keys[left[i as int] as int]@);
                assert(kv[rv[j as int]] == keys[right[j as int] as int]@);
                lemma_rank_order(kv[lv[i as int]], kv[rv[j as int]], kv[lv[i as int]]);
            }
            assert forall|x: int| 0 <= x < i implies positions(r@).contains(#[trigger] lv[x]) by {
                let k = choose|k: int| 0 <= k < before.len() && before[k] == lv[x];
                assert(before.contains(lv[x]));
                assert(positions(r@)[k] == lv[x]);
            }
            assert forall|x: int| 0 <= x < j implies positions(r@).contains(#[trigger] rv[x]) by {
                let k = choose|k: int| 0 <= k < before.len() && before[k] == rv[x];
                assert(before.contains(rv[x]));
                assert(positions(r@)[k] == rv[x]);
            }
            assert forall|y: int| i <= y < left.len() && (take_left ==> y > i) implies entry_before(
                kv,
                next as int,
                #[trigger] lv[y],
            ) by {
                if take_left {
                    assert(lv[i as int] == next as int);
                    assert(entry_before(kv, lv[i as int], lv[y]));
                } else {
                    assert(rv[j as int] == next as int);
                    assert(entry_before(kv, rv[j as int], lv[i as int]));
                    if y > i {
                        assert(entry_before(kv, lv[i as int], lv[y]));
                        lemma_entry_order(kv, rv[j as int], lv[i as int], lv[y]);
                    }
                }
            }
            assert forall|y: int| j <= y < right.len() && (!take_left ==> y > j) implies entry_before(
                kv,
                next as int,
                #[trigger] rv[y],
            ) by {
                if !take_left {
                    assert(rv[j as int] == next as int);
                    assert(entry_before(kv, rv[j as int], rv[y]));
                } else {
                    assert(lv[i as int] == next as int);
                    assert(left[i as int] < right[j as int]);
                    assert(entry_before(kv, lv[i as int], rv[j as int]));
                    if y > j {
                        assert(entry_before(kv, rv[j as int], rv[y]));
                        lemma_entry_order(kv, lv[i as int], rv[j as int], rv[y]);
                    }
                }
            }
            if take_left {
                assert(lv[i as int] == next as int);
                assert(lv.contains(next as int));
            } else {
                assert(rv[j as int] == next as int);
                assert(rv.contains(next as int));
            }
        }
        if take_left {
            i = i + 1;
        } else {
            j = j + 1;
        }
    }
    proof {
        assert forall|x: int| #[trigger]
            positions(r@).contains(x) <==> lv.contains(x) || rv.contains(x) by {
            if positions(r@).contains(x) {
                let k = choose|k: int| 0 <= k < r.len() && positions(r@)[k] == x;
            }
            if lv.contains(x) {
                let k = choose|k: int| 0 <= k < lv.len() && lv[k] == x;
                assert(positions(r@).contains(lv[k]));
            }
            if rv.contains(x) {
                let k = choose|k: int| 0 <= k < rv.len() && rv[k] == x;
                assert(positions(r@).contains(rv[k]));
            }
        }
    }
    r
}

/// The ranking of the entries from `lo` up to `hi`.
fn ranked_range(keys: &Vec<Rank>, lo: usize, hi: usize) -> (r: Vec<usize>)
    requires
        lo <= hi <= keys.len(),
    ensures
        is_ranking_of(positions(r@), rank_views(keys@), lo as int, hi as int),
        forall|k: int| 0 <= k < r.len() ==> lo <= #[trigger] r[k] < hi,
    decreases hi - lo,
{
    if hi - lo <= 1 {
        let mut r: Vec<usize> = Vec::new();
        if lo < hi {
            r.push(lo);
            assert(positions(r@)[0] == lo as int);
        }
        return r;
    }
    let mid: usize = lo + (hi - lo) / 2;
    let left: Vec<usize> = ranked_range(keys, lo, mid);
    let right: Vec<usize> = ranked_range(keys, mid, hi);
    let r: Vec<usize> = merged(&left, &right, keys);
    assert forall|k: int| 0 <= k < r.len() implies lo <= #[trigger] r[k] < hi by {
        assert(positions(r@).contains(positions(r@)[k]));
    }
    r
}

/// Sorts by rank: the positions of `keys` from first to last.
pub fn ranked(keys: &Vec<Rank>) -> (r: Vec<usize>)
    ensures
        positions(r@) == ranking(rank_views(keys@)),
        r.len() == keys.len(),
        forall|k: int| 0 <= k < r.len() ==> #[trigger] r[k] < keys.len(),
        forall|a: int, b: int| 0 <= a < b < r.len() ==> #[trigger] r[a] != #[trigger] r[b],
{
    let r: Vec<usize> = ranked_range(keys, 0, keys.len());
    proof {
        let kv = rank_views(keys@);
        lemma_ranking(kv);
        lemma_ranking_unique(positions(r@), ranking(kv), kv);
        lemma_ranking_len(kv);
        assert forall|a: int, b: int| 0 <= a < b < r.len() implies #[trigger] r[a]
            != #[trigger] r[b] by {
            assert(entry_before(kv, positions(r@)[a], positions(r@)[b]));
            lemma_entry_order(kv, positions(r@)[a], positions(r@)[a], positions(r@)[a]);
        }
    }
    r
}

/// An entry of a list that matches what was typed, and its rank among the matches.
#[verifier::ext_equal]
pub struct Hit {
    pub index: int,
    pub rank: RankView,
}

/// The ranks of matches.
pub open spec fn hit_ranks(hits: Seq<Hit>) -> Seq<RankView> {
    hits.map_values(|h: Hit| h.rank)
}

/// The places of matches.
pub open spec fn hit_indices(hits: Seq<Hit>) -> Seq<int> {
    hits.map_values(|h: Hit| h.index)
}

/// The places of matches, the best match first.
pub open spec fn best_first(hits: Seq<Hit>) -> Seq<int> {
    arranged_by(hit_indices(hits), ranking(hit_ranks(hits)))
}

/// The items that `order` lists, in its order.
pub open spec fn arranged_by<T>(items: Seq<T>, order: Seq<int>) -> Seq<T> {
    order.map_values(|i: int| items[i])
}

/// Puts items in the order that lists their places, each of them once.
pub fn arranged<T>(items: Vec<T>, order: &Vec<usize>) -> (r: Vec<T>)
    requires
        forall|k: int| 0 <= k < order.len() ==> #[trigger] order[k] < items.len(),
        forall|a: int, b: int| 0 <= a < b < order.len() ==> #[trigger] order[a] != #[trigger] order[b],
    ensures
        r@ == arranged_by(items@, positions(order@)),
{
    let ghost all = items@;
    let mut slots: Vec<Option<T>> = Vec::new();
    for item in it: items
        invariant
            it.seq() == all,
            slots.len() == it.index(),
            forall|k: int| 0 <= k < slots.len() ==> #[trigger] slots[k] == Some(all[k]),
    {
        slots.push(Some(item));
    }
    let mut r: Vec<T> = Vec::new();
    let mut i: usize = 0;
    while i < order.len()
        invariant
            i <= order.len(),
            slots.len() == all.len(),
            r.len() == i,
            forall|k: int| 0 <= k < order.len() ==> #[trigger] order[k] < slots.len(),
            forall|a: int, b: int|
                0 <= a < b < order.len() ==> #[trigger] order[a] != #[trigger] order[b],
            forall|k: int| 0 <= k < i ==> #[trigger] r[k] == all[order[k] as int],
            forall|k: int|
                i <= k < order.len() ==> slots[(#[trigger] order[k]) as int] == Some(
                    all[order[k] as int],
                ),
        decreases order.len() - i,
    {
        let mut slot: Option<T> = None;
        std::mem::swap(&mut slot, &mut slots[order[i]]);
        if let Some(item) = slot {
            r.push(item);
        }
        i = i + 1;
    }
    assert(r@ =~= arranged_by(all, positions(order@)));
    r
}

/// Whether `a` stands strictly before `b` in alphabetical order.
fn text_precedes(a: &Vec<char>, b: &Vec<char>) -> (r: bool)
    ensures
        r == text_before(a@, b@),
{
    let mut i: usize = 0;
    assert(a@.skip(0) =~= a@);
    assert(b@.skip(0) =~= b@);
    while i < a.len() && i < b.len()
        invariant
            i <= a.len(),
            i <= b.len(),
            text_before(a@, b@) == text_before(a@.skip(i as int), b@.skip(i as int)),
        decreases a.len() - i,
    {
        let x: char = a[i];
        let y: char = b[i];
        if x != y {
            return x < y;
        }
        assert(a@.skip(i as int).drop_first() =~= a@.skip(i + 1));
        assert(b@.skip(i as int).drop_first() =~= b@.skip(i + 1));
        i = i + 1;
    }
    i < b.len()
}

/// Whether rank `a` stands strictly before rank `b`.
fn rank_precedes(a: &Rank, b: &Rank) -> (r: bool)
    ensures
        r == rank_before(a@, b@),
{
    if a.major != b.major {
        a.major > b.major
    } else if a.minor != b.minor {
        a.minor > b.minor
    } else {
        text_precedes(&a.text, &b.text)
    }
}

proof fn lemma_placed_arranged<T>(items: Seq<T>, order: Seq<int>, keys: Seq<RankView>, i: int)
    ensures
        arranged_by(items, placed(order, keys, i)).to_multiset() == arranged_by(
            items,
            order,
        ).to_multiset().insert(items[i]),
    decreases order.len(),
{
    broadcast use vstd::seq_lib::group_to_multiset_ensures;

    if order.len() > 0 && rank_before(keys[i], keys[order.last()]) {
        let rest = order.drop_last();
        lemma_placed_arranged(items, rest, keys, i);
        assert(arranged_by(items, placed(order, keys, i)) =~= arranged_by(
            items,
            placed(rest, keys, i),
        ).push(items[order.last()]));
        assert(arranged_by(items, order) =~= arranged_by(items, rest).push(items[order.last()]));
        assert(arranged_by(items, rest).to_multiset().insert(items[i]).insert(items[order.last()])
            =~= arranged_by(items, rest).to_multiset().insert(items[order.last()]).insert(
            items[i],
        ));
    } else {
        assert(arranged_by(items, order.push(i)) =~= arranged_by(items, order).push(items[i]));
    }
}

/// Putting items in the order of their ranks keeps each of them.
pub proof fn lemma_arranged_keeps_all<T>(items: Seq<T>, keys: Seq<RankView>)
    requires
        items.len() == keys.len(),
    ensures
        arranged_by(items, ranking(keys)).len() == items.len(),
        arranged_by(items, ranking(keys)).to_multiset() == items.to_multiset(),
    decreases items.len(),
{
    broadcast use vstd::seq_lib::group_to_multiset_ensures;

    lemma_ranking_len(keys);
    if items.len() == 0 {
        assert(arranged_by(items, ranking(keys)) =~= items);
    } else {
        let fewer = items.drop_last();
        let less = keys.drop_last();
        let order = ranking(less);
        lemma_arranged_keeps_all(fewer, less);
        lemma_ranking(less);
        assert forall|k: int| 0 <= k < order.len() implies 0 <= #[trigger] order[k]
            < fewer.len() by {
            assert(order.contains(order[k]));
        }
        assert(arranged_by(items, order) =~= arranged_by(fewer, order));
        lemma_placed_arranged(items, order, keys, items.len() - 1);
        assert(items =~= fewer.push(items.last()));
    }
}

/// Whether `pick` gives each place at most one match, which stands for that place.
pub open spec fn picks_places(pick: spec_fn(int) -> Option<Hit>) -> bool {
    forall|i: int| (#[trigger] pick(i)) matches Some(hit) ==> hit.index == i
}

/// Whether the match at `i` comes before the one at `j`: by its rank, or else by its place.
pub open spec fn hit_before(pick: spec_fn(int) -> Option<Hit>, i: int, j: int) -> bool {
    rank_before(pick(i)->0.rank, pick(j)->0.rank) || (!rank_before(
        pick(j)->0.rank,
        pick(i)->0.rank,
    ) && i < j)
}

proof fn lemma_hits(len: nat, pick: spec_fn(int) -> Option<Hit>, n: int)
    requires
        picks_places(pick),
        0 <= n <= len,
    ensures
        ({
            let all = Seq::new(len, |i: int| i);
            let hits = all.take(n).filter_map(pick);
            &&& forall|k: int|
                0 <= k < hits.len() ==> 0 <= (#[trigger] hits[k]).index < n && pick(hits[k].index)
                    == Some(hits[k])
            &&& forall|a: int, b: int|
                0 <= a < b < hits.len() ==> (#[trigger] hits[a]).index < (#[trigger] hits[b]).index
            &&& forall|i: int|
                0 <= i < n && pick(i) is Some ==> #[trigger] hit_indices(hits).contains(i)
        }),
    decreases n,
{
    let all = Seq::new(len, |i: int| i);
    if n > 0 {
        lemma_hits(len, pick, n - 1);
        all.lemma_filter_map_take_succ(pick, n - 1);
        let before = all.take(n - 1).filter_map(pick);
        let hits = all.take(n).filter_map(pick);
        assert forall|i: int| 0 <= i < n && pick(i) is Some implies #[trigger] hit_indices(
            hits,
        ).contains(i) by {
            if i < n - 1 {
                assert(hit_indices(before).contains(i));
                let k = choose|k: int|
                    0 <= k < hit_indices(before).len() && hit_indices(before)[k] == i;
                assert(hits[k] == before[k]);
                assert(hit_indices(hits)[k] == i);
            } else {
                assert(hit_indices(hits)[hits.len() - 1] == i);
            }
        }
    } else {
        assert(all.take(0) =~= Seq::<int>::empty());
    }
}

/// The best matches first: exactly the places that match, each once, in the order of their ranks,
/// and in their own order where the ranks are equal.
pub proof fn lemma_best_first(len: nat, pick: spec_fn(int) -> Option<Hit>)
    requires
        picks_places(pick),
    ensures
        ({
            let best = best_first(Seq::new(len, |i: int| i).filter_map(pick));
            &&& forall|i: int| #[trigger]
                best.contains(i) <==> 0 <= i < len && pick(i) is Some
            &&& best.no_duplicates()
            &&& forall|a: int, b: int|
                0 <= a < b < best.len() ==> hit_before(
                    pick,
                    #[trigger] best[a],
                    #[trigger] best[b],
                )
        }),
{
    let all = Seq::new(len, |i: int| i);
    let hits = all.filter_map(pick);
    let ranks = hit_ranks(hits);
    let order = ranking(ranks);
    let best = best_first(hits);
    assert(all.take(len as int) =~= all);
    lemma_hits(len, pick, len as int);
    lemma_ranking(ranks);
    assert forall|k: int| 0 <= k < order.len() implies 0 <= #[trigger] order[k] < hits.len() by {
        assert(order.contains(order[k]));
    }
    assert forall|a: int, b: int| 0 <= a < b < best.len() implies hit_before(
        pick,
        #[trigger] best[a],
        #[trigger] best[b],
    ) && best[a] != best[b] by {
        let x = order[a];
        let y = order[b];
        assert(entry_before(ranks, x, y));
        assert(best[a] == hits[x].index && best[b] == hits[y].index);
        assert(ranks[x] == hits[x].rank && ranks[y] == hits[y].rank);
        assert(pick(best[a]) == Some(hits[x]));
        assert(pick(best[b]) == Some(hits[y]));
        lemma_rank_order(ranks[x], ranks[y], ranks[x]);
    }
    assert forall|i: int| #[trigger] best.contains(i) <==> 0 <= i < len && pick(i) is Some by {
        if best.contains(i) {
            let k = choose|k: int| 0 <= k < best.len() && best[k] == i;
            assert(hits[order[k]].index == i);
        }
        if 0 <= i < len && pick(i) is Some {
            assert(hit_indices(hits).contains(i));
            let x = choose|x: int| 0 <= x < hit_indices(hits).len() && hit_indices(hits)[x] == i;
            assert(order.contains(x));
            let k = choose|k: int| 0 <= k < order.len() && order[k] == x;
            assert(best[k] == i);
        }
    }
}

} // verus!
