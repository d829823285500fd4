//! Laws of searching: what is found, and what comes first, said of the characters themselves.
use crate::fuzzy;
use crate::order;
use crate::paths;
use crate::search;
use crate::sessions;
use crate::text;
use crate::tree;
use vstd::prelude::*;

verus! {

/// Whether a text holds the characters of another in their order, in any case of letters.
pub open spec fn holds(h: Seq<char>, n: Seq<char>) -> bool {
    exists|at: Seq<int>| #[trigger]
        fuzzy::stands_in_order(text::lowercase(h), text::lowercase(n), at)
}

/// The longest text, in bytes of its lowercase form, whose score cannot wrap.
pub open spec fn is_of_usual_length(h: Seq<char>) -> bool {
    fuzzy::byte_len(text::lowercase(h)) <= 0x2000_0000_0000_0000
}

/// A text is found exactly where it holds what was typed, and where nothing was typed.
pub proof fn lemma_found_where_held(h: Seq<char>, n: Seq<char>)
    ensures
        fuzzy::score_of(h, n) is Some <==> n.len() == 0 || holds(h, n),
{
    fuzzy::lemma_match_is_in_order(text::lowercase(h), text::lowercase(n));
}

/// A text that equals what was typed, in any case of letters, scores ten thousand, and every other
/// one less.
pub proof fn lemma_ten_thousand_is_equal(h: Seq<char>, n: Seq<char>)
    requires
        n.len() > 0,
        is_of_usual_length(h),
    ensures
        fuzzy::score_of(h, n) == Some(10_000i64) <==> text::lowercase(h) == text::lowercase(n),
        fuzzy::score_of(h, n) matches Some(score) ==> score <= 10_000,
{
    if text::lowercase(h) == text::lowercase(n) {
        assert(fuzzy::match_quality(text::lowercase(h), text::lowercase(n)) == Some(10_000int));
        assert(fuzzy::wrapped(10_000) == 10_000);
    } else {
        fuzzy::lemma_equal_text_scores_best(n, h, n);
    }
}

proof fn lemma_score_range(h: Seq<char>, n: Seq<char>)
    requires
        is_of_usual_length(h),
    ensures
        fuzzy::score_of(h, n) matches Some(score) ==> -0x6000_0000_0000_0000 <= score <= 10_000,
{
    fuzzy::lemma_quality_range(text::lowercase(h), text::lowercase(n));
    fuzzy::lemma_score_is_quality(text::lowercase(h), text::lowercase(n));
}

/// A session is listed exactly where its name, or the line of its active pane, holds what was typed;
/// and every session is where nothing was. Nothing else of a session matters for that.
pub proof fn lemma_listed_where_held(
    list: Seq<sessions::SessionView>,
    query: Seq<char>,
    i: int,
)
    requires
        0 <= i < list.len(),
    ensures
        sessions::listed_sessions(list, query).contains(i) <==> query.len() == 0 || holds(
            list[i].name,
            query,
        ) || holds(list[i].active_line, query),
{
    sessions::lemma_listed_sessions(list, query);
    lemma_found_where_held(list[i].name, query);
    lemma_found_where_held(list[i].active_line, query);
}

/// How a session scores: by its name where that holds what was typed, else by the line of its active
/// pane, which is worth a thousand less. Two sessions with the same name and line score the same.
pub proof fn lemma_session_scores_by_name_first(
    s: sessions::SessionView,
    t: sessions::SessionView,
    query: Seq<char>,
)
    requires
        query.len() > 0,
        is_of_usual_length(s.active_line),
    ensures
        holds(s.name, query) ==> sessions::session_score(s, query) == fuzzy::score_of(s.name, query),
        !holds(s.name, query) && holds(s.active_line, query) ==> sessions::session_score(
            s,
            query,
        )->0 == fuzzy::score_of(s.active_line, query)->0 - 1_000,
        s.name == t.name && s.active_line == t.active_line ==> sessions::session_score(s, query)
            == sessions::session_score(t, query),
{
    lemma_found_where_held(s.name, query);
    lemma_found_where_held(s.active_line, query);
    lemma_score_range(s.active_line, query);
    if fuzzy::score_of(s.active_line, query) is Some {
        let x = fuzzy::score_of(s.active_line, query)->0;
        assert(fuzzy::wrapped(x - 1_000) == x - 1_000);
    }
}

/// The order of listed sessions: a higher score first, of equal scores the later activity, and of
/// equal activities the one that came first.
pub proof fn lemma_better_session_comes_first(
    list: Seq<sessions::SessionView>,
    query: Seq<char>,
    a: int,
    b: int,
)
    requires
        query.len() > 0,
        0 <= a < b < sessions::listed_sessions(list, query).len(),
    ensures
        ({
            let i = sessions::listed_sessions(list, query)[a];
            let j = sessions::listed_sessions(list, query)[b];
            let x = sessions::session_score(list[i], query)->0;
            let y = sessions::session_score(list[j], query)->0;
            &&& x >= y
            &&& x == y ==> list[i].activity_epoch >= list[j].activity_epoch
            &&& x == y && list[i].activity_epoch == list[j].activity_epoch ==> i < j
        }),
{
    sessions::lemma_listed_sessions(list, query);
    let listed = sessions::listed_sessions(list, query);
    assert(sessions::listed_before(list, query, listed[a], listed[b]));
}

/// A session whose name is what was typed comes before every session with another name.
pub proof fn lemma_named_session_comes_first(
    list: Seq<sessions::SessionView>,
    query: Seq<char>,
    i: int,
)
    requires
        query.len() > 0,
        0 <= i < list.len(),
        text::lowercase(list[i].name) == text::lowercase(query),
        forall|k: int|
            0 <= k < list.len() ==> is_of_usual_length((#[trigger] list[k]).name)
                && is_of_usual_length(list[k].active_line),
    ensures
        ({
            let listed = sessions::listed_sessions(list, query);
            &&& listed.len() > 0
            &&& text::lowercase(list[listed[0]].name) == text::lowercase(query)
        }),
{
    let listed = sessions::listed_sessions(list, query);
    sessions::lemma_listed_sessions(list, query);
    assert(is_of_usual_length(list[i].name));
    lemma_ten_thousand_is_equal(list[i].name, query);
    assert(sessions::session_score(list[i], query) == Some(10_000i64));
    assert(listed.contains(i));
    let k = choose|k: int| 0 <= k < listed.len() && listed[k] == i;
    let j = listed[0];
    assert(listed.contains(j));
    assert(is_of_usual_length(list[j].name) && is_of_usual_length(list[j].active_line));
    lemma_found_where_held(list[j].name, query);
    lemma_found_where_held(list[j].active_line, query);
    lemma_ten_thousand_is_equal(list[j].name, query);
    lemma_ten_thousand_is_equal(list[j].active_line, query);
    lemma_session_scores_by_name_first(list[j], list[j], query);
    if k > 0 {
        lemma_better_session_comes_first(list, query, 0, k);
    }
}

/// A search that starts with a tilde goes by whole paths, with the home directory's text in place
/// of the tilde. A directory is found exactly where its path holds that, and scores what its path
/// scores for it; so the directory that is asked for by its whole path scores ten thousand.
pub proof fn lemma_tilde_stands_for_home(d: search::IndexedView, rest: Seq<char>, home: Seq<char>)
    requires
        home.len() + rest.len() > 0,
    ensures
        ({
            let score = search::dir_score(d, seq!['~'] + rest, home);
            &&& score == fuzzy::score_of(d.full_lower, home + rest)
            &&& score is Some <==> holds(d.full_lower, home + rest)
            &&& text::lowercase(d.full_lower) == text::lowercase(home + rest) ==> score == Some(
                10_000i64,
            )
        }),
{
    let q = seq!['~'] + rest;
    assert(q[0] == '~');
    assert(q.drop_first() =~= rest);
    assert((home + rest).len() > 0);
    lemma_found_where_held(d.full_lower, home + rest);
    if text::lowercase(d.full_lower) == text::lowercase(home + rest) {
        assert(fuzzy::match_quality(
            text::lowercase(d.full_lower),
            text::lowercase(home + rest),
        ) == Some(10_000int));
        assert(fuzzy::wrapped(10_000) == 10_000);
    }
}

/// A search that holds a slash, and does not start with a tilde, goes by whole paths as they are.
pub proof fn lemma_slash_is_about_paths(d: search::IndexedView, q: Seq<char>, home: Seq<char>)
    requires
        q.contains('/'),
        q[0] != '~',
    ensures
        search::dir_score(d, q, home) == fuzzy::score_of(d.full_lower, q),
        search::dir_score(d, q, home) is Some <==> holds(d.full_lower, q),
{
    lemma_found_where_held(d.full_lower, q);
}

/// Any other search goes by names, and finds a directory by its path too, which is worth a thousand
/// less than a name.
pub proof fn lemma_word_is_about_names(d: search::IndexedView, q: Seq<char>, home: Seq<char>)
    requires
        q.len() > 0,
        q[0] != '~',
        !q.contains('/'),
        is_of_usual_length(d.full_lower),
    ensures
        ({
            let score = search::dir_score(d, q, home);
            &&& score is Some <==> holds(d.name_lower, q) || holds(d.full_lower, q)
            &&& holds(d.name_lower, q) ==> score == fuzzy::score_of(d.name_lower, q)
            &&& !holds(d.name_lower, q) && holds(d.full_lower, q) ==> score->0 == fuzzy::score_of(
                d.full_lower,
                q,
            )->0 - 1_000
        }),
{
    lemma_found_where_held(d.name_lower, q);
    lemma_found_where_held(d.full_lower, q);
    lemma_score_range(d.full_lower, q);
    if fuzzy::score_of(d.full_lower, q) is Some {
        let x = fuzzy::score_of(d.full_lower, q)->0;
        assert(fuzzy::wrapped(x - 1_000) == x - 1_000);
    }
}

/// Whether what was typed finds a directory: its path holds it, with the home directory in place of a
/// tilde; or its name does, where what was typed is no path.
pub open spec fn is_found(d: search::IndexedView, q: Seq<char>, home: Seq<char>) -> bool {
    if q[0] == '~' {
        holds(d.full_lower, home + q.skip(1))
    } else if q.contains('/') {
        holds(d.full_lower, q)
    } else {
        holds(d.name_lower, q) || holds(d.full_lower, q)
    }
}

proof fn lemma_score_is_found(d: search::IndexedView, q: Seq<char>, home: Seq<char>)
    requires
        q.len() > 0,
        q[0] == '~' ==> home.len() + q.len() > 1,
    ensures
        search::dir_score(d, q, home) is Some <==> is_found(d, q, home),
{
    if q[0] == '~' {
        assert(seq!['~'] + q.skip(1) =~= q);
        lemma_tilde_stands_for_home(d, q.skip(1), home);
    } else {
        lemma_found_where_held(d.name_lower, q);
        lemma_found_where_held(d.full_lower, q);
    }
}

/// Every row of a search is a directory of the index that what was typed finds, collapsed and not
/// indented; and as long as no more than a thousand are found, each of them has a row.
pub proof fn lemma_rows_are_what_is_found(
    index: Seq<search::IndexedView>,
    q: Seq<char>,
    home: Seq<char>,
)
    requires
        q.len() > 0,
        q[0] == '~' ==> home.len() + q.len() > 1,
    ensures
        ({
            let rows = search::matching_rows(index, q, home);
            &&& rows.len() <= 1_000
            &&& forall|k: int|
                0 <= k < rows.len() ==> is_row_of_found(index, q, home, #[trigger] rows[k])
            &&& rows.len() < 1_000 ==> forall|i: int|
                0 <= i < index.len() && is_found(#[trigger] index[i], q, home) ==> has_row(
                    rows,
                    index[i].path,
                )
        }),
{
    let rows = search::matching_rows(index, q, home);
    let found = order::best_first(search::dir_hits(index, q, home));
    search::lemma_matching_rows(index, q, home);
    assert forall|k: int| 0 <= k < rows.len() implies is_row_of_found(
        index,
        q,
        home,
        #[trigger] rows[k],
    ) by {
        let i = found[k];
        assert(found.contains(i));
        lemma_score_is_found(index[i], q, home);
        assert(rows[k].path == index[i].path);
    }
    if rows.len() < 1_000 {
        assert forall|i: int|
            0 <= i < index.len() && is_found(#[trigger] index[i], q, home) implies has_row(
            rows,
            index[i].path,
        ) by {
            lemma_score_is_found(index[i], q, home);
            assert(found.contains(i));
            let k = choose|k: int| 0 <= k < found.len() && found[k] == i;
            assert(rows[k].path == index[i].path);
        }
    }
}

/// Whether a row stands for a directory of the index that what was typed finds.
pub open spec fn is_row_of_found(
    index: Seq<search::IndexedView>,
    q: Seq<char>,
    home: Seq<char>,
    row: tree::NodeView,
) -> bool {
    &&& row.depth == 0
    &&& !row.expanded
    &&& exists|i: int|
        0 <= i < index.len() && (#[trigger] index[i]).path == row.path && is_found(
            index[i],
            q,
            home,
        )
}

/// Whether a directory has a row.
pub open spec fn has_row(rows: Seq<tree::NodeView>, path: Seq<u8>) -> bool {
    exists|k: int| 0 <= k < rows.len() && (#[trigger] rows[k]).path == path
}

/// The order of the rows of a search: a higher score first, of equal scores the path that is first in
/// alphabetical order, and of equal paths the one that the index lists first.
pub proof fn lemma_better_dir_comes_first(
    index: Seq<search::IndexedView>,
    q: Seq<char>,
    home: Seq<char>,
    a: int,
    b: int,
)
    requires
        0 <= a < b < order::best_first(search::dir_hits(index, q, home)).len(),
    ensures
        ({
            let i = order::best_first(search::dir_hits(index, q, home))[a];
            let j = order::best_first(search::dir_hits(index, q, home))[b];
            let x = search::dir_score(index[i], q, home)->0;
            let y = search::dir_score(index[j], q, home)->0;
            &&& x >= y
            &&& x == y ==> !order::text_before(index[j].full_lower, index[i].full_lower)
            &&& x == y && index[i].full_lower == index[j].full_lower ==> i < j
        }),
{
    search::lemma_matching_rows(index, q, home);
    let found = order::best_first(search::dir_hits(index, q, home));
    let i = found[a];
    let j = found[b];
    assert(search::found_before(index, q, home, i, j));
    order::lemma_text_order(index[i].full_lower, index[j].full_lower, index[i].full_lower);
}

/// The first row of a search for a directory by its whole path, with a tilde for the home directory,
/// is that directory, or another one whose path differs in the case of letters alone.
pub proof fn lemma_asked_dir_comes_first(
    index: Seq<search::IndexedView>,
    rest: Seq<char>,
    home: Seq<char>,
    i: int,
)
    requires
        home.len() + rest.len() > 0,
        0 <= i < index.len(),
        text::lowercase(index[i].full_lower) == text::lowercase(home + rest),
        forall|k: int| 0 <= k < index.len() ==> is_of_usual_length((#[trigger] index[k]).full_lower),
    ensures
        ({
            let rows = search::matching_rows(index, seq!['~'] + rest, home);
            &&& rows.len() > 0
            &&& exists|j: int|
                0 <= j < index.len() && (#[trigger] index[j]).path == rows[0].path
                    && text::lowercase(index[j].full_lower) == text::lowercase(home + rest)
        }),
{
    let q = seq!['~'] + rest;
    let rows = search::matching_rows(index, q, home);
    let found = order::best_first(search::dir_hits(index, q, home));
    search::lemma_matching_rows(index, q, home);
    lemma_tilde_stands_for_home(index[i], rest, home);
    assert(found.contains(i));
    let k = choose|k: int| 0 <= k < found.len() && found[k] == i;
    let j = found[0];
    assert(found.contains(j));
    lemma_tilde_stands_for_home(index[j], rest, home);
    assert(is_of_usual_length(index[j].full_lower));
    assert((home + rest).len() > 0);
    lemma_ten_thousand_is_equal(index[j].full_lower, home + rest);
    if k > 0 {
        lemma_better_dir_comes_first(index, q, home, 0, k);
    }
    assert(rows[0].path == index[j].path);
}

/// An entry of the index is searched by the lowercase text of its path and of its last name, and by a
/// tilde where it has no name.
pub proof fn lemma_entry_is_searched_by_its_texts(p: Seq<u8>, name: Seq<char>)
    requires
        paths::is_entry_name(vstd::utf8::encode_utf8(name)),
    ensures
        ({
            let path = paths::joined_path(p, vstd::utf8::encode_utf8(name));
            &&& search::indexed(path).path == path
            &&& search::indexed(path).name_lower == text::lowercase(name)
            &&& search::indexed(path).full_lower == text::lowercase(paths::lossy_text(path))
        }),
        search::indexed(seq![47u8]).name_lower == text::lowercase("~"@),
{
    let bytes = vstd::utf8::encode_utf8(name);
    paths::lemma_joined_components(p, bytes);
    vstd::utf8::encode_utf8_valid_utf8(name);
    vstd::utf8::encode_utf8_decode_utf8(name);
    assert(paths::names_from(seq![47u8], 0).len() == 0) by {
        let s = seq![47u8];
        assert(paths::name_end(s, 0) == 0);
        assert(s.subrange(0, 0) =~= Seq::<u8>::empty());
        assert(paths::names_from(s, 1).len() == 0);
    }
}

/// What was typed is searched for in lowercase and without the white space around it; the tree stays
/// as it is meanwhile.
pub proof fn lemma_search_goes_by_what_is_typed(
    nodes: Seq<tree::NodeView>,
    children: Seq<tree::ChildListView>,
    index: Seq<search::IndexedView>,
    query: Seq<char>,
    root: Seq<u8>,
)
    requires
        text::trimmed(query).len() > 0,
        text::lowercase(text::trimmed(query)).len() > 0,
    ensures
        ({
            let listed = search::listed_dirs(nodes, children, index, query, root);
            &&& listed.rows == search::matching_rows(
                index,
                text::lowercase(text::trimmed(query)),
                paths::lossy_text(root),
            )
            &&& listed.nodes == nodes
            &&& listed.unread.len() == 0
        }),
{
}

/// Whether what was typed stands at the places `at`, each the first behind the one before.
pub open spec fn stands_earliest(h: Seq<char>, n: Seq<char>, from: int, at: Seq<int>) -> bool {
    &&& fuzzy::stands_in_order(h, n, at)
    &&& forall|i: int, k: int|
        0 <= i < at.len() && (if i == 0 {
            from
        } else {
            at[i - 1] + 1
        }) <= k < at[i] ==> #[trigger] h[k] != #[trigger] n[i]
    &&& at.len() > 0 ==> from <= at[0]
}

proof fn lemma_earliest_end(h: Seq<char>, n: Seq<char>, from: int, at: Seq<int>)
    requires
        0 <= from,
        stands_earliest(h, n, from, at),
    ensures
        fuzzy::in_order_end(h, n, from) == Some(
            if n.len() == 0 {
                from
            } else {
                at.last() + 1
            },
        ),
    decreases h.len() - from,
{
    if n.len() > 0 {
        if h[from] == n[0] {
            if from < at[0] {
                assert(h[from] != n[0]);
            }
            let m = n.drop_first();
            let rest = at.drop_first();
            assert forall|i: int| 0 <= i < rest.len() implies 0 <= #[trigger] rest[i] < h.len()
                && h[rest[i]] == m[i] by {
                assert(rest[i] == at[i + 1]);
            }
            assert forall|i: int, k: int|
                0 <= i < rest.len() && (if i == 0 {
                    from + 1
                } else {
                    rest[i - 1] + 1
                }) <= k < rest[i] implies #[trigger] h[k] != #[trigger] m[i] by {
                assert(m[i] == n[i + 1]);
                assert(rest[i] == at[i + 1]);
            }
            lemma_earliest_end(h, m, from + 1, rest);
            if m.len() > 0 {
                assert(rest.last() == at.last());
            } else {
                assert(at.last() == at[0]);
            }
        } else {
            assert(from < at[0]);
            lemma_earliest_end(h, n, from + 1, at);
        }
    }
}

proof fn lemma_first_found(h: Seq<char>, n: Seq<char>, from: int, place: int)
    requires
        0 <= from <= place,
        fuzzy::occurs_at(h, n, place),
        forall|k: int| from <= k < place ==> !#[trigger] fuzzy::occurs_at(h, n, k),
    ensures
        fuzzy::found_from(h, n, from) == Some(place),
    decreases place - from,
{
    if from < place {
        lemma_first_found(h, n, from + 1, place);
    }
}

proof fn lemma_never_found(h: Seq<char>, n: Seq<char>, from: int)
    requires
        0 <= from,
        forall|k: int| from <= k ==> !#[trigger] fuzzy::occurs_at(h, n, k),
    ensures
        fuzzy::found_from(h, n, from) is None,
    decreases h.len() - from,
{
    if from + n.len() <= h.len() {
        assert(!fuzzy::occurs_at(h, n, from));
        if from < h.len() {
            lemma_never_found(h, n, from + 1);
        }
    }
}

/// A text that starts with what was typed, and is longer, scores nine thousand less its length in
/// bytes.
pub proof fn lemma_score_of_a_start(h: Seq<char>, n: Seq<char>)
    requires
        n.len() > 0,
        is_of_usual_length(h),
        text::lowercase(h) != text::lowercase(n),
        fuzzy::occurs_at(text::lowercase(h), text::lowercase(n), 0),
    ensures
        fuzzy::score_of(h, n) is Some,
        fuzzy::score_of(h, n)->0 == 9_000 - fuzzy::byte_len(text::lowercase(h)),
{
    fuzzy::lemma_score_is_quality(text::lowercase(h), text::lowercase(n));
}

/// A text that holds what was typed further in, first at `place`, scores eight thousand less its
/// length and less the length of what comes before, in bytes.
pub proof fn lemma_score_of_a_part(h: Seq<char>, n: Seq<char>, place: int)
    requires
        n.len() > 0,
        is_of_usual_length(h),
        place > 0,
        fuzzy::occurs_at(text::lowercase(h), text::lowercase(n), place),
        forall|k: int|
            0 <= k < place ==> !#[trigger] fuzzy::occurs_at(
                text::lowercase(h),
                text::lowercase(n),
                k,
            ),
    ensures
        fuzzy::score_of(h, n) is Some,
        fuzzy::score_of(h, n)->0 == 8_000 - fuzzy::byte_len(text::lowercase(h).take(place))
            - fuzzy::byte_len(text::lowercase(h)),
{
    let lh = text::lowercase(h);
    let ln = text::lowercase(n);
    assert(!fuzzy::occurs_at(lh, ln, 0));
    if lh == ln {
        assert(lh.subrange(0, lh.len() as int) =~= ln);
    }
    lemma_first_found(lh, ln, 0, place);
    fuzzy::lemma_score_is_quality(lh, ln);
}

/// A text that holds what was typed only with other characters in between scores five thousand less
/// its length in bytes, less the characters before the first that was typed, and less all that are
/// passed over.
pub proof fn lemma_score_of_scattered(h: Seq<char>, n: Seq<char>, at: Seq<int>)
    requires
        n.len() > 0,
        is_of_usual_length(h),
        text::lowercase(n).len() > 0,
        stands_earliest(text::lowercase(h), text::lowercase(n), 0, at),
        forall|k: int|
            !#[trigger] fuzzy::occurs_at(text::lowercase(h), text::lowercase(n), k),
    ensures
        fuzzy::score_of(h, n) is Some,
        fuzzy::score_of(h, n)->0 == 5_000 - at[0] - (at.last() + 1 - text::lowercase(n).len())
            - fuzzy::byte_len(text::lowercase(h)),
{
    let lh = text::lowercase(h);
    let ln = text::lowercase(n);
    if lh == ln {
        assert(lh.subrange(0, lh.len() as int) =~= ln);
        assert(fuzzy::occurs_at(lh, ln, 0));
    }
    assert(!fuzzy::occurs_at(lh, ln, 0));
    lemma_never_found(lh, ln, 0);
    lemma_earliest_end(lh, ln, 0, at);
    let first = ln.take(1);
    assert(lh.subrange(at[0], at[0] + 1) =~= first);
    assert forall|k: int| 0 <= k < at[0] implies !#[trigger] fuzzy::occurs_at(lh, first, k) by {
        assert(lh[k] != ln[0]);
        if fuzzy::occurs_at(lh, first, k) {
            assert(lh.subrange(k, k + 1)[0] == first[0]);
        }
    }
    lemma_first_found(lh, first, 0, at[0]);
    fuzzy::lemma_score_is_quality(lh, ln);
}

} // verus!
