//! Laws of sessions: what the lines that the server prints say of them, how old they are said to be,
//! and what the preview of one shows.
use crate::ansi;
use crate::order;
use crate::sessions;
use crate::text;
use crate::text_laws;
use vstd::prelude::*;

verus! {

proof fn lemma_filter_map_parts<A, B>(a: Seq<A>, b: Seq<A>, f: spec_fn(A) -> Option<B>)
    ensures
        (a + b).filter_map(f) == a.filter_map(f) + b.filter_map(f),
    decreases b.len(),
{
    reveal(Seq::filter_map);
    if b.len() == 0 {
        assert(a + b =~= a);
        assert(a.filter_map(f) + b.filter_map(f) =~= a.filter_map(f));
    } else {
        lemma_filter_map_parts(a, b.drop_last(), f);
        assert((a + b).drop_last() =~= a + b.drop_last());
        assert((a + b).last() == b.last());
        assert((a + b).filter_map(f) =~= a.filter_map(f) + b.filter_map(f));
    }
}

/// The fields of five texts with a separator between them.
proof fn lemma_five_fields(
    a: Seq<char>,
    b: Seq<char>,
    c: Seq<char>,
    d: Seq<char>,
    e: Seq<char>,
    sep: char,
)
    requires
        !a.contains(sep),
        !b.contains(sep),
        !c.contains(sep),
        !d.contains(sep),
    ensures
        text::fields_of(a, sep, 5) == seq![a],
        text::fields_of(a + seq![sep] + b, sep, 5) == seq![a, b],
        text::fields_of(a + seq![sep] + (b + seq![sep] + c), sep, 5) == seq![a, b, c],
        text::fields_of(a + seq![sep] + (b + seq![sep] + (c + seq![sep] + d)), sep, 5)
            == seq![a, b, c, d],
        text::fields_of(
            a + seq![sep] + (b + seq![sep] + (c + seq![sep] + (d + seq![sep] + e))),
            sep,
            5,
        ) == seq![a, b, c, d, e],
{
    let de = d + seq![sep] + e;
    let cd = c + seq![sep] + d;
    let cde = c + seq![sep] + de;
    text_laws::lemma_fields_by_parts(a, b, sep, 5);
    text_laws::lemma_fields_by_parts(b, c, sep, 4);
    text_laws::lemma_fields_by_parts(c, d, sep, 3);
    text_laws::lemma_fields_by_parts(d, e, sep, 2);
    text_laws::lemma_fields_by_parts(c, de, sep, 3);
    text_laws::lemma_fields_by_parts(b, cd, sep, 4);
    text_laws::lemma_fields_by_parts(b, cde, sep, 4);
    text_laws::lemma_fields_by_parts(a, b + seq![sep] + c, sep, 5);
    text_laws::lemma_fields_by_parts(a, b + seq![sep] + cd, sep, 5);
    text_laws::lemma_fields_by_parts(a, b + seq![sep] + cde, sep, 5);
    text_laws::lemma_fields_by_parts(c, c, sep, 3);
    text_laws::lemma_fields_by_parts(d, d, sep, 2);
    assert(text::fields_of(e, sep, 1) == seq![e]);
    assert(seq![a] + seq![b] =~= seq![a, b]);
    assert(seq![a] + (seq![b] + seq![c]) =~= seq![a, b, c]);
    assert(seq![a] + (seq![b] + (seq![c] + seq![d])) =~= seq![a, b, c, d]);
    assert(seq![a] + (seq![b] + (seq![c] + (seq![d] + seq![e]))) =~= seq![a, b, c, d, e]);
}

/// What a line says of a session: five fields with bars between them, which are its name, how many
/// windows it has, whether it is attached, and when it was created and last active.
pub proof fn lemma_line_says(
    name: Seq<char>,
    windows: Seq<char>,
    attached: Seq<char>,
    created: Seq<char>,
    active: Seq<char>,
    panes: Seq<sessions::ActivePaneView>,
    current: Option<Seq<char>>,
    now: Option<u64>,
)
    requires
        !name.contains('|'),
        !windows.contains('|'),
        !attached.contains('|'),
        !created.contains('|'),
    ensures
        ({
            let bar = seq!['|'];
            let line = name + bar + (windows + bar + (attached + bar + (created + bar + active)));
            let said = sessions::session_of_line(line, panes, current, now);
            &&& said is Some
            &&& said->0.name == name
            &&& said->0.windows == windows
            &&& said->0.attached <==> attached != seq!['0']
            &&& said->0.created == sessions::time_text(created, now)
            &&& said->0.activity == sessions::time_text(active, now)
            &&& text::number_of(active) is Some ==> said->0.activity_epoch == text::number_of(
                active,
            )->0
            &&& text::number_of(active) is None ==> said->0.activity_epoch == 0
            &&& said->0.current <==> current is Some && current->0 == name
            &&& said->0.preview.len() == 0
            &&& sessions::pane_of(panes, name) is None ==> said->0.active_pane is None
                && said->0.active_line.len() == 0
            &&& sessions::pane_of(panes, name) is Some ==> said->0.active_pane == Some(
                sessions::pane_of(panes, name)->0.pane,
            ) && said->0.active_line == sessions::pane_of(panes, name)->0.line
        }),
{
    lemma_five_fields(name, windows, attached, created, active, '|');
    reveal_strlit("0");
    assert("0"@ =~= seq!['0']);
}

/// A line with fewer than five fields says nothing of a session.
pub proof fn lemma_short_line_says_nothing(
    a: Seq<char>,
    b: Seq<char>,
    c: Seq<char>,
    d: Seq<char>,
    panes: Seq<sessions::ActivePaneView>,
    current: Option<Seq<char>>,
    now: Option<u64>,
)
    requires
        !a.contains('|'),
        !b.contains('|'),
        !c.contains('|'),
        !d.contains('|'),
    ensures
        ({
            let bar = seq!['|'];
            &&& sessions::session_of_line(a, panes, current, now) is None
            &&& sessions::session_of_line(a + bar + b, panes, current, now) is None
            &&& sessions::session_of_line(a + bar + (b + bar + c), panes, current, now) is None
            &&& sessions::session_of_line(
                a + bar + (b + bar + (c + bar + d)),
                panes,
                current,
                now,
            ) is None
        }),
{
    lemma_five_fields(a, b, c, d, Seq::empty(), '|');
}

/// The sessions are read line by line: that of the first line, where it says one, and those of what
/// follows.
pub proof fn lemma_sessions_line_by_line(
    line: Seq<char>,
    rest: Seq<char>,
    panes: Seq<sessions::ActivePaneView>,
    current: Option<Seq<char>>,
    now: Option<u64>,
)
    requires
        !line.contains('\n'),
        !line.contains('\r'),
    ensures
        ({
            let first = match sessions::session_of_line(line, panes, current, now) {
                Some(session) => seq![session],
                None => Seq::empty(),
            };
            &&& sessions::sessions_of(Seq::empty(), panes, current, now).len() == 0
            &&& line.len() > 0 ==> sessions::sessions_of(line, panes, current, now) == first
            &&& sessions::sessions_of(line + seq!['\n'] + rest, panes, current, now) == first
                + sessions::sessions_of(rest, panes, current, now)
        }),
{
    let f = |l: Seq<char>| sessions::session_of_line(l, panes, current, now);
    text_laws::lemma_lines_by_parts(line, rest);
    if line.len() > 0 {
        assert(line.contains(line.last()));
    }
    Seq::<Seq<char>>::lemma_filter_map_singleton(line, f);
    lemma_filter_map_parts(seq![line], text::lines_of(rest), f);
    reveal(Seq::filter_map);
}

/// What a line says of a pane: five fields with tabs between them. It says something only of the active
/// pane of the active window of a session.
pub proof fn lemma_pane_line_says(
    session: Seq<char>,
    window: Seq<char>,
    pane: Seq<char>,
    line: Seq<char>,
    id: Seq<char>,
)
    requires
        !session.contains('\t'),
        !window.contains('\t'),
        !pane.contains('\t'),
        !line.contains('\t'),
    ensures
        ({
            let tab = seq!['\t'];
            let said = sessions::pane_of_line(
                session + tab + (window + tab + (pane + tab + (line + tab + id))),
            );
            &&& said is Some <==> window == seq!['1'] && pane == seq!['1']
            &&& said is Some ==> said->0.session == session && said->0.line == line
                && said->0.pane == id
            &&& sessions::pane_of_line(session) is None
            &&& sessions::pane_of_line(session + tab + window) is None
            &&& sessions::pane_of_line(session + tab + (window + tab + pane)) is None
            &&& sessions::pane_of_line(
                session + tab + (window + tab + (pane + tab + line)),
            ) is None
        }),
{
    lemma_five_fields(session, window, pane, line, id, '\t');
    reveal_strlit("1");
    assert("1"@ =~= seq!['1']);
}

/// The panes are read line by line.
pub proof fn lemma_panes_line_by_line(line: Seq<char>, rest: Seq<char>)
    requires
        !line.contains('\n'),
        !line.contains('\r'),
    ensures
        ({
            let first = match sessions::pane_of_line(line) {
                Some(pane) => seq![pane],
                None => Seq::empty(),
            };
            &&& sessions::panes_of(Seq::empty()).len() == 0
            &&& line.len() > 0 ==> sessions::panes_of(line) == first
            &&& sessions::panes_of(line + seq!['\n'] + rest) == first + sessions::panes_of(rest)
        }),
{
    let f = |l: Seq<char>| sessions::pane_of_line(l);
    text_laws::lemma_lines_by_parts(line, rest);
    if line.len() > 0 {
        assert(line.contains(line.last()));
    }
    Seq::<Seq<char>>::lemma_filter_map_singleton(line, f);
    lemma_filter_map_parts(seq![line], text::lines_of(rest), f);
    reveal(Seq::filter_map);
}

/// The pane of a session is the last that names it.
pub proof fn lemma_last_pane_counts(panes: Seq<sessions::ActivePaneView>, name: Seq<char>)
    ensures
        sessions::pane_of(panes, name) is None <==> forall|i: int|
            0 <= i < panes.len() ==> (#[trigger] panes[i]).session != name,
        forall|i: int|
            0 <= i < panes.len() && (#[trigger] panes[i]).session == name && (forall|j: int|
                i < j < panes.len() ==> (#[trigger] panes[j]).session != name)
                ==> sessions::pane_of(panes, name) == Some(panes[i]),
    decreases panes.len(),
{
    if panes.len() > 0 {
        let less = panes.drop_last();
        lemma_last_pane_counts(less, name);
        if panes.last().session != name {
            if sessions::pane_of(less, name) is None {
                assert forall|i: int| 0 <= i < panes.len() implies (#[trigger] panes[i]).session
                    != name by {
                    if i < less.len() {
                        assert(less[i] == panes[i]);
                    }
                }
            } else {
                let i = choose|i: int| 0 <= i < less.len() && (#[trigger] less[i]).session == name;
                assert(panes[i].session == name);
            }
            assert forall|i: int|
                0 <= i < panes.len() && (#[trigger] panes[i]).session == name && (forall|j: int|
                    i < j < panes.len() ==> (#[trigger] panes[j]).session
                        != name) implies sessions::pane_of(panes, name) == Some(panes[i]) by {
                assert(less[i] == panes[i]);
                assert forall|j: int| i < j < less.len() implies (#[trigger] less[j]).session
                    != name by {
                    assert(less[j] == panes[j]);
                }
            }
        } else {
            assert(panes[panes.len() - 1].session == name);
        }
    }
}

/// What an age is told in: how long the unit is, and what it is called.
pub open spec fn is_told_in(age: int, unit: int, called: Seq<char>) -> bool {
    exists|count: nat|
        count * unit <= age < (count + 1) * unit && sessions::age_text(age) == #[trigger]
            text::decimal_of(count) + called
}

proof fn lemma_told(age: int, unit: int, called: Seq<char>)
    requires
        age >= 0,
        unit > 0,
        sessions::age_text(age) == text::decimal_of((age / unit) as nat) + called,
    ensures
        is_told_in(age, unit, called),
{
    let count = age / unit;
    assert(count >= 0 && count * unit <= age < (count + 1) * unit) by (nonlinear_arith)
        requires
            age >= 0,
            unit > 0,
            count == age / unit,
    ;
    let c = count as nat;
    assert(sessions::age_text(age) == text::decimal_of(c) + called);
}

/// How old something is said to be: in seconds under a minute, in minutes under an hour, in hours under
/// a day, in days up to thirty, and then in months of thirty days.
pub proof fn lemma_age_is_told(age: int)
    requires
        age >= 0,
    ensures
        age < 60 ==> is_told_in(age, 1, "s ago"@),
        60 <= age < 3_600 ==> is_told_in(age, 60, "m ago"@),
        3_600 <= age < 86_400 ==> is_told_in(age, 3_600, "h ago"@),
        86_400 <= age <= 2_592_000 ==> is_told_in(age, 86_400, "d ago"@),
        age > 2_592_000 ==> is_told_in(age, 2_592_000, "mo ago"@),
{
    if age < 60 {
        lemma_told(age, 1, "s ago"@);
    } else if age < 3_600 {
        lemma_told(age, 60, "m ago"@);
    } else if age < 86_400 {
        lemma_told(age, 3_600, "h ago"@);
    } else if age <= 2_592_000 {
        lemma_told(age, 86_400, "d ago"@);
    } else {
        lemma_told(age, 2_592_000, "mo ago"@);
    }
}

/// A time is told by how long ago it was; one in the future, or where the clock cannot be read, is
/// told as just now; what is no number is not told at all.
pub proof fn lemma_time_is_told(epoch: Seq<char>, now: Option<u64>)
    ensures
        text::number_of(epoch) is None ==> sessions::time_text(epoch, now).len() == 0,
        text::number_of(epoch) is Some && now is Some && now->0 >= text::number_of(epoch)->0
            ==> sessions::time_text(epoch, now) == sessions::age_text(
            now->0 - text::number_of(epoch)->0,
        ),
        text::number_of(epoch) is Some && (now is None || now->0 < text::number_of(epoch)->0)
            ==> sessions::time_text(epoch, now) == seq!['0', 's', ' ', 'a', 'g', 'o'],
{
    reveal_strlit("s ago");
    text_laws::lemma_decimal_is_read_back(0);
    assert(seq!['0'] + "s ago"@ =~= seq!['0', 's', ' ', 'a', 'g', 'o']);
}

/// Carriage returns at the end of a line are taken away, all of them and nothing else.
pub proof fn lemma_returns_are_taken(line: Seq<char>)
    ensures
        ({
            let kept = sessions::without_returns(line);
            &&& kept.len() <= line.len()
            &&& kept == line.take(kept.len() as int)
            &&& kept.len() > 0 ==> kept.last() != '\r'
            &&& forall|i: int| kept.len() <= i < line.len() ==> #[trigger] line[i] == '\r'
        }),
    decreases line.len(),
{
    if line.len() > 0 && line.last() == '\r' {
        let less = line.drop_last();
        lemma_returns_are_taken(less);
        let n = sessions::without_returns(line).len() as int;
        assert(line.take(n) =~= less.take(n));
        assert forall|i: int| n <= i < line.len() implies #[trigger] line[i] == '\r' by {
            if i < less.len() {
                assert(less[i] == line[i]);
            }
        }
    } else {
        assert(line.take(line.len() as int) =~= line);
    }
}

/// A line shows nothing where there is only white space in it beside control sequences.
pub proof fn lemma_blank_line_shows_nothing(line: Seq<char>)
    ensures
        sessions::shows_nothing(line) <==> text_laws::is_white(ansi::plain_from(line, 0)),
        text_laws::is_white(line) ==> sessions::shows_nothing(line),
{
    let parts = text_laws::lemma_trimming_takes_white_space(ansi::plain_from(line, 0));
    if text_laws::is_white(line) {
        assert forall|i: int| 0 <= i < line.len() implies line[i] != ansi::ESC by {
            assert(text::white_space(line[i]));
        }
        ansi::lemma_plain_text_is_kept(line);
    }
}

/// A preview is put where it belongs, and nothing else changes.
pub proof fn lemma_preview_changes_one_session(
    list: Seq<sessions::SessionView>,
    index: int,
    preview: Seq<Seq<char>>,
    i: int,
)
    requires
        0 <= i < list.len(),
    ensures
        ({
            let new = sessions::with_preview(list, index, preview);
            &&& new.len() == list.len()
            &&& i != index ==> new[i] == list[i]
            &&& i == index ==> new[i].preview == preview
            &&& new[i] == (sessions::SessionView { preview: new[i].preview, ..list[i] })
        }),
{
}

/// The first pane that could not be read decides; where all could be read, nothing failed.
pub proof fn lemma_first_failure_decides(
    captured: Seq<Result<Seq<Seq<char>>, Seq<char>>>,
    from: int,
)
    requires
        0 <= from,
    ensures
        sessions::failure_of(captured, from) is None <==> forall|i: int|
            from <= i < captured.len() ==> (#[trigger] captured[i]) is Ok,
        forall|i: int|
            from <= i < captured.len() && (#[trigger] captured[i]) is Err && (forall|j: int|
                from <= j < i ==> (#[trigger] captured[j]) is Ok) ==> sessions::failure_of(
                captured,
                from,
            ) == Some(captured[i]->Err_0),
    decreases captured.len() - from,
{
    if from < captured.len() {
        lemma_first_failure_decides(captured, from + 1);
        assert(captured[from] is Ok || captured[from] is Err);
    }
}

/// The places of the sessions with a name are all of those, in order.
pub proof fn lemma_places_are_those_of_the_name(
    list: Seq<sessions::SessionView>,
    name: Option<Seq<char>>,
    i: int,
)
    ensures
        sessions::places_of_session(list, name).contains(i) <==> 0 <= i < list.len() && name is Some
            && list[i].name == name->0,
{
    let all = Seq::new(list.len(), |k: int| k);
    let named = |k: int| name == Some(list[k].name);
    if sessions::places_of_session(list, name).contains(i) {
        let k = choose|k: int| 0 <= k < all.filter(named).len() && all.filter(named)[k] == i;
        all.lemma_filter_contains_rev(named, i);
        all.lemma_filter_pred(named, k);
    } else if 0 <= i < list.len() && name == Some(list[i].name) {
        assert(all[i] == i);
        all.lemma_filter_contains(named, i);
    }
}

/// How sessions are ordered: the one that was active last comes first; of those that were active at the
/// same time the one whose name is first in alphabetical order, whatever the case of letters; and those
/// whose names do not differ in that stay as they were. The result is where each session was.
pub proof fn lemma_order_of_sessions(list: Seq<sessions::SessionView>) -> (at: Seq<int>)
    ensures
        at.len() == list.len(),
        forall|i: int| #[trigger] at.contains(i) <==> 0 <= i < list.len(),
        sessions::by_recency(list).len() == list.len(),
        forall|k: int|
            0 <= k < list.len() ==> sessions::by_recency(list)[k] == list[#[trigger] at[k]],
        forall|k: int, m: int|
            0 <= k < m < list.len() ==> {
                let x = list[#[trigger] at[k]];
                let y = list[#[trigger] at[m]];
                ||| x.activity_epoch > y.activity_epoch
                ||| x.activity_epoch == y.activity_epoch && order::text_before(
                    text::lowercase(x.name),
                    text::lowercase(y.name),
                )
                ||| x.activity_epoch == y.activity_epoch && text::lowercase(x.name)
                    == text::lowercase(y.name) && at[k] < at[m]
            },
{
    let keys = sessions::recencies(list);
    let at = order::ranking(keys);
    order::lemma_ranking(keys);
    sessions::lemma_by_recency(list);
    assert(at.len() == list.len());
    assert forall|k: int, m: int| 0 <= k < m < list.len() implies ({
        let x = list[#[trigger] at[k]];
        let y = list[#[trigger] at[m]];
        ||| x.activity_epoch > y.activity_epoch
        ||| x.activity_epoch == y.activity_epoch && order::text_before(
            text::lowercase(x.name),
            text::lowercase(y.name),
        )
        ||| x.activity_epoch == y.activity_epoch && text::lowercase(x.name) == text::lowercase(
            y.name,
        ) && at[k] < at[m]
    }) by {
        assert(at.contains(at[k]) && at.contains(at[m]));
        assert(order::entry_before(keys, at[k], at[m]));
        order::lemma_text_order(
            text::lowercase(list[at[k]].name),
            text::lowercase(list[at[m]].name),
            text::lowercase(list[at[k]].name),
        );
    }
    at
}

} // verus!
