//! The sessions that tmux runs: reading its listings, ordering them and finding one.
use crate::ansi;
use crate::fuzzy;
use crate::order;
use crate::text;
use vstd::prelude::*;

verus! {

/// A tmux session as the popup shows it.
#[derive(Clone, Debug)]
pub struct Session {
    pub name: String,
    pub windows: String,
    pub attached: bool,
    pub created: String,
    pub activity: String,
    pub active_line: String,
    pub active_pane: Option<String>,
    pub activity_epoch: u64,
    pub current: bool,
    pub preview: Vec<String>,
}

/// The value of a [`Session`].
#[verifier::ext_equal]
pub struct SessionView {
    pub name: Seq<char>,
    pub windows: Seq<char>,
    pub attached: bool,
    pub created: Seq<char>,
    pub activity: Seq<char>,
    pub active_line: Seq<char>,
    pub active_pane: Option<Seq<char>>,
    pub activity_epoch: u64,
    pub current: bool,
    pub preview: Seq<Seq<char>>,
}

impl View for Session {
    type V = SessionView;

    open spec fn view(&self) -> SessionView {
        SessionView {
            name: self.name@,
            windows: self.windows@,
            attached: self.attached,
            created: self.created@,
            activity: self.activity@,
            active_line: self.active_line@,
            active_pane: text::text_opt(self.active_pane),
            activity_epoch: self.activity_epoch,
            current: self.current,
            preview: text::texts(self.preview@),
        }
    }
}

/// The values of several sessions.
pub open spec fn session_views(sessions: Seq<Session>) -> Seq<SessionView> {
    sessions.map_values(|s: Session| s@)
}

/// How long ago something was, given in seconds.
pub open spec fn age_text(age: int) -> Seq<char> {
    if age < 60 {
        text::decimal_of(age as nat) + "s ago"@
    } else if age < 3_600 {
        text::decimal_of((age / 60) as nat) + "m ago"@
    } else if age < 86_400 {
        text::decimal_of((age / 3_600) as nat) + "h ago"@
    } else if age <= 2_592_000 {
        text::decimal_of((age / 86_400) as nat) + "d ago"@
    } else {
        text::decimal_of((age / 2_592_000) as nat) + "mo ago"@
    }
}

/// How long before `now` the written `epoch` was: nothing where it is no number, and no time at
/// all where it is not in the past or the clock is unusable.
pub open spec fn time_text(epoch: Seq<char>, now: Option<u64>) -> Seq<char> {
    match text::number_of(epoch) {
        Some(at) => match now {
            Some(now) => if now > at {
                age_text(now - at)
            } else {
                age_text(0)
            },
            None => age_text(0),
        },
        None => Seq::empty(),
    }
}

/// How long before `now` the written `epoch` was. Both count seconds since 1970; `now` is `None`
/// where the clock stands before that.
pub fn fmt_time(epoch: &str, now: Option<u64>) -> (r: String)
    ensures
        r@ == time_text(epoch@, now),
{
    let at: u64 = match text::parse_number(epoch) {
        Some(at) => at,
        None => {
            return String::new();
        },
    };
    let now: u64 = match now {
        Some(now) => now,
        None => at,
    };
    let age: u64 = if now > at {
        now - at
    } else {
        0
    };
    if age < 60 {
        text::joined(text::decimal(age).as_str(), "s ago")
    } else if age < 3_600 {
        text::joined(text::decimal(age / 60).as_str(), "m ago")
    } else if age < 86_400 {
        text::joined(text::decimal(age / 3_600).as_str(), "h ago")
    } else if age <= 2_592_000 {
        text::joined(text::decimal(age / 86_400).as_str(), "d ago")
    } else {
        text::joined(text::decimal(age / 2_592_000).as_str(), "mo ago")
    }
}

/// The pane that a session shows: a line that describes it, and its identifier.
pub struct ActivePane {
    pub session: String,
    pub line: String,
    pub pane: String,
}

/// The value of an [`ActivePane`].
#[verifier::ext_equal]
pub struct ActivePaneView {
    pub session: Seq<char>,
    pub line: Seq<char>,
    pub pane: Seq<char>,
}

impl View for ActivePane {
    type V = ActivePaneView;

    open spec fn view(&self) -> ActivePaneView {
        ActivePaneView { session: self.session@, line: self.line@, pane: self.pane@ }
    }
}

/// What a line of the pane listing says: the session, whether its window and its pane are the
/// active ones, the description and the identifier. Only an active pane of an active window counts.
pub open spec fn pane_of_line(line: Seq<char>) -> Option<ActivePaneView> {
    let f = text::fields_of(line, '\t', 5);
    if f.len() == 5 && f[1] == "1"@ && f[2] == "1"@ {
        Some(ActivePaneView { session: f[0], line: f[3], pane: f[4] })
    } else {
        None
    }
}

/// The active panes of a pane listing, in its order.
pub open spec fn panes_of(listing: Seq<char>) -> Seq<ActivePaneView> {
    text::lines_of(listing).filter_map(|line: Seq<char>| pane_of_line(line))
}

/// The last of the panes that belongs to the session.
pub open spec fn pane_of(panes: Seq<ActivePaneView>, session: Seq<char>) -> Option<ActivePaneView>
    decreases panes.len(),
{
    if panes.len() == 0 {
        None
    } else if panes.last().session == session {
        Some(panes.last())
    } else {
        pane_of(panes.drop_last(), session)
    }
}

/// What a line of the session listing says: name, number of windows, number of clients, and when
/// the session was made and last active. A line with fewer fields says nothing.
pub open spec fn session_of_line(
    line: Seq<char>,
    panes: Seq<ActivePaneView>,
    current: Option<Seq<char>>,
    now: Option<u64>,
) -> Option<SessionView> {
    let f = text::fields_of(line, '|', 5);
    let pane = pane_of(panes, f[0]);
    if f.len() < 5 {
        None
    } else {
        Some(
            SessionView {
                name: f[0],
                windows: f[1],
                attached: f[2] != "0"@,
                created: time_text(f[3], now),
                activity: time_text(f[4], now),
                active_line: match pane {
                    Some(p) => p.line,
                    None => Seq::empty(),
                },
                active_pane: match pane {
                    Some(p) => Some(p.pane),
                    None => None,
                },
                activity_epoch: match text::number_of(f[4]) {
                    Some(at) => at,
                    None => 0,
                },
                current: current == Some(f[0]),
                preview: Seq::empty(),
            },
        )
    }
}

/// The sessions of a listing, in its order.
pub open spec fn sessions_of(
    listing: Seq<char>,
    panes: Seq<ActivePaneView>,
    current: Option<Seq<char>>,
    now: Option<u64>,
) -> Seq<SessionView> {
    text::lines_of(listing).filter_map(
        |line: Seq<char>| session_of_line(line, panes, current, now),
    )
}

/// What a session is ranked by: the latest activity first, then its name.
pub open spec fn recency(session: SessionView) -> order::RankView {
    order::RankView {
        major: 0,
        minor: session.activity_epoch as int,
        text: text::lowercase(session.name),
    }
}

/// The ranks of several sessions.
pub open spec fn recencies(sessions: Seq<SessionView>) -> Seq<order::RankView> {
    sessions.map_values(|s: SessionView| recency(s))
}

/// The sessions from the latest to the earliest activity.
pub open spec fn by_recency(sessions: Seq<SessionView>) -> Seq<SessionView> {
    order::arranged_by(sessions, order::ranking(recencies(sessions)))
}

/// The active pane that a line of the pane listing describes.
fn active_pane_of(line: &str) -> (r: Option<ActivePane>)
    ensures
        r is Some <==> pane_of_line(line@) is Some,
        r matches Some(p) ==> pane_of_line(line@) == Some(p@),
{
    let f: Vec<String> = text::fields(line, '\t', 5);
    let ghost fv = text::fields_of(line@, '\t', 5);
    if f.len() == 5 {
        assert(fv[0] == f[0]@ && fv[1] == f[1]@ && fv[2] == f[2]@ && fv[3] == f[3]@ && fv[4]
            == f[4]@);
        if text::same(f[1].as_str(), "1") && text::same(f[2].as_str(), "1") {
            let pane: String = f[4].clone();
            let line: String = f[3].clone();
            let session: String = f[0].clone();
            return Some(ActivePane { session, line, pane });
        }
    }
    None
}

/// The active panes of a pane listing.
fn active_panes(listing: &str) -> (r: Vec<ActivePane>)
    ensures
        r@.map_values(|p: ActivePane| p@) == panes_of(listing@),
{
    let lines: Vec<String> = text::lines(listing);
    let ghost lv = text::lines_of(listing@);
    let ghost pick = |line: Seq<char>| pane_of_line(line);
    let mut r: Vec<ActivePane> = Vec::new();
    let mut i: usize = 0;
    assert(lv.take(0).filter_map(pick) =~= r@.map_values(|p: ActivePane| p@));
    while i < lines.len()
        invariant
            i <= lines.len(),
            lv == text::texts(lines@),
            pick == (|line: Seq<char>| pane_of_line(line)),
            r@.map_values(|p: ActivePane| p@) == lv.take(i as int).filter_map(pick),
        decreases lines.len() - i,
    {
        let ghost before = r@;
        proof {
            lv.lemma_filter_map_take_succ(pick, i as int);
            assert(lv[i as int] == lines[i as int]@);
        }
        if let Some(pane) = active_pane_of(lines[i].as_str()) {
            r.push(pane);
            assert(r@.map_values(|p: ActivePane| p@) =~= before.map_values(|p: ActivePane| p@)
                + seq![pane@]);
        }
        i = i + 1;
    }
    assert(lv.take(i as int) =~= lv);
    r
}

/// The place of the last pane that belongs to the session.
fn last_pane(panes: &Vec<ActivePane>, session: &String) -> (r: Option<usize>)
    ensures
        r is Some <==> pane_of(panes@.map_values(|p: ActivePane| p@), session@) is Some,
        r matches Some(i) ==> i < panes.len() && pane_of(
            panes@.map_values(|p: ActivePane| p@),
            session@,
        ) == Some(panes[i as int]@),
{
    let ghost pv = panes@.map_values(|p: ActivePane| p@);
    let mut i: usize = panes.len();
    assert(pv.take(i as int) =~= pv);
    while i > 0
        invariant
            i <= panes.len(),
            pv == panes@.map_values(|p: ActivePane| p@),
            pane_of(pv, session@) == pane_of(pv.take(i as int), session@),
        decreases i,
    {
        assert(pv.take(i as int).drop_last() =~= pv.take(i - 1));
        i = i - 1;
        if panes[i].session == *session {
            return Some(i);
        }
    }
    None
}

/// The session that a line of the session listing describes.
fn session_from(
    line: &str,
    panes: &Vec<ActivePane>,
    current_session: Option<&str>,
    now: Option<u64>,
) -> (r: Option<Session>)
    ensures
        ({
            let expected = session_of_line(
                line@,
                panes@.map_values(|p: ActivePane| p@),
                text::str_opt(current_session),
                now,
            );
            &&& r is Some <==> expected is Some
            &&& r matches Some(s) ==> expected == Some(s@)
        }),
{
    let f: Vec<String> = text::fields(line, '|', 5);
    let ghost fv = text::fields_of(line@, '|', 5);
    if f.len() < 5 {
        return None;
    }
    assert(fv[0] == f[0]@ && fv[1] == f[1]@ && fv[2] == f[2]@ && fv[3] == f[3]@ && fv[4] == f[4]@);
    let name: String = f[0].clone();
    let (active_line, active_pane): (String, Option<String>) = match last_pane(panes, &name) {
        Some(i) => (panes[i].line.clone(), Some(panes[i].pane.clone())),
        None => (String::new(), None),
    };
    let activity_epoch: u64 = match text::parse_number(f[4].as_str()) {
        Some(at) => at,
        None => 0,
    };
    let current: bool = match current_session {
        Some(current) => text::same(current, name.as_str()),
        None => false,
    };
    let preview: Vec<String> = Vec::new();
    let session = Session {
        name,
        windows: f[1].clone(),
        attached: !text::same(f[2].as_str(), "0"),
        created: fmt_time(f[3].as_str(), now),
        activity: fmt_time(f[4].as_str(), now),
        active_line,
        active_pane,
        activity_epoch,
        current,
        preview,
    };
    assert(session@.preview =~= Seq::<Seq<char>>::empty());
    Some(session)
}

/// The ranks of several sessions.
fn recency_ranks(sessions: &Vec<Session>) -> (r: Vec<order::Rank>)
    ensures
        order::rank_views(r@) == recencies(session_views(sessions@)),
{
    let mut r: Vec<order::Rank> = Vec::new();
    let mut i: usize = 0;
    while i < sessions.len()
        invariant
            i <= sessions.len(),
            r.len() == i,
            forall|k: int| 0 <= k < i ==> #[trigger] r[k]@ == recency(sessions[k]@),
        decreases sessions.len() - i,
    {
        let lower: String = sessions[i].name.as_str().to_lowercase();
        let rank = order::Rank {
            major: 0,
            minor: sessions[i].activity_epoch,
            text: text::chars_of(lower.as_str()),
        };
        r.push(rank);
        i = i + 1;
    }
    assert(order::rank_views(r@) =~= recencies(session_views(sessions@)));
    r
}

/// The sessions that tmux lists, those with the latest activity first. `listing` holds a line
/// `name|windows|clients|created|activity` for each session, and `pane_listing` a line of tab
/// separated fields for each pane. No preview is captured yet.
pub fn load_sessions(
    listing: &str,
    pane_listing: &str,
    current_session: Option<&str>,
    now: Option<u64>,
) -> (r: Vec<Session>)
    ensures
        session_views(r@) == by_recency(
            sessions_of(
                listing@,
                panes_of(pane_listing@),
                text::str_opt(current_session),
                now,
            ),
        ),
{
    let panes: Vec<ActivePane> = active_panes(pane_listing);
    let ghost pv = panes_of(pane_listing@);
    let ghost current = text::str_opt(current_session);
    let lines: Vec<String> = text::lines(listing);
    let ghost lv = text::lines_of(listing@);
    let ghost pick = |line: Seq<char>| session_of_line(line, pv, current, now);
    let mut sessions: Vec<Session> = Vec::new();
    let mut i: usize = 0;
    assert(lv.take(0).filter_map(pick) =~= session_views(sessions@));
    while i < lines.len()
        invariant
            i <= lines.len(),
            lv == text::texts(lines@),
            pv == panes@.map_values(|p: ActivePane| p@),
            current == text::str_opt(current_session),
            pick == (|line: Seq<char>| session_of_line(line, pv, current, now)),
            session_views(sessions@) == lv.take(i as int).filter_map(pick),
        decreases lines.len() - i,
    {
        let ghost before = sessions@;
        proof {
            lv.lemma_filter_map_take_succ(pick, i as int);
            assert(lv[i as int] == lines[i as int]@);
        }
        if let Some(session) = session_from(lines[i].as_str(), &panes, current_session, now) {
            sessions.push(session);
            assert(session_views(sessions@) =~= session_views(before) + seq![session@]);
        }
        i = i + 1;
    }
    assert(lv.take(i as int) =~= lv);
    let ranks: Vec<order::Rank> = recency_ranks(&sessions);
    let order: Vec<usize> = order::ranked(&ranks);
    let ghost all = session_views(sessions@);
    let r: Vec<Session> = order::arranged(sessions, &order);
    proof {
        assert(session_views(r@) =~= by_recency(all));
    }
    r
}

/// A line without the carriage returns that it ends with.
pub open spec fn without_returns(line: Seq<char>) -> Seq<char>
    decreases line.len(),
{
    if line.len() > 0 && line.last() == '\r' {
        without_returns(line.drop_last())
    } else {
        line
    }
}

/// Whether a captured line shows nothing.
pub open spec fn shows_nothing(line: Seq<char>) -> bool {
    text::trimmed(ansi::plain_from(line, 0)).len() == 0
}

/// Lines without those at the start that show nothing.
pub open spec fn from_first_shown(lines: Seq<Seq<char>>) -> Seq<Seq<char>>
    decreases lines.len(),
{
    if lines.len() > 0 && shows_nothing(lines[0]) {
        from_first_shown(lines.drop_first())
    } else {
        lines
    }
}

/// The lines of a preview of what tmux captured: one empty line where there is nothing to show,
/// and a remark where there was no pane to capture.
pub open spec fn preview_of(captured: Option<Seq<char>>) -> Seq<Seq<char>> {
    match captured {
        Some(out) => {
            let shown = from_first_shown(
                text::lines_of(out).map_values(|line: Seq<char>| without_returns(line)),
            );
            if shown.len() == 0 {
                seq![Seq::empty()]
            } else {
                shown
            }
        },
        None => seq!["Unable to find active pane."@],
    }
}

/// The line without the carriage returns that it ends with.
fn strip_returns(line: &str) -> (r: String)
    ensures
        r@ == without_returns(line@),
{
    let mut r: String = line.to_owned();
    let chars: Vec<char> = text::chars_of(line);
    let mut to: usize = chars.len();
    assert(line@.take(to as int) =~= line@);
    while to > 0 && chars[to - 1] == '\r'
        invariant
            to <= chars.len(),
            chars@ == line@,
            r@ == line@.take(to as int),
            without_returns(line@) == without_returns(line@.take(to as int)),
        decreases to,
    {
        assert(line@.take(to as int).drop_last() =~= line@.take(to - 1));
        r.pop();
        to = to - 1;
    }
    r
}

/// Whether a captured line shows nothing.
fn is_blank(line: &str) -> (r: bool)
    ensures
        r == shows_nothing(line@),
{
    let plain: String = ansi::strip_ansi(line);
    text::trim(plain.as_str()).as_str().is_empty()
}

/// The lines of a preview of what tmux captured, or `None` where there was no pane to capture.
pub fn capture_preview(captured: Option<&str>) -> (r: Vec<String>)
    ensures
        text::texts(r@) == preview_of(text::str_opt(captured)),
{
    let out: &str = match captured {
        Some(out) => out,
        None => {
            let mut r: Vec<String> = Vec::new();
            r.push("Unable to find active pane.".to_owned());
            assert(text::texts(r@) =~= preview_of(None));
            return r;
        },
    };
    let raw: Vec<String> = text::lines(out);
    let ghost clean = text::lines_of(out@).map_values(|line: Seq<char>| without_returns(line));
    let mut lines: Vec<String> = Vec::new();
    let mut i: usize = 0;
    while i < raw.len()
        invariant
            i <= raw.len(),
            lines.len() == i,
            forall|k: int| 0 <= k < i ==> #[trigger] lines[k]@ == without_returns(raw[k]@),
        decreases raw.len() - i,
    {
        lines.push(strip_returns(raw[i].as_str()));
        i = i + 1;
    }
    assert(text::texts(lines@) =~= clean);
    let mut from: usize = 0;
    assert(clean.skip(0) =~= clean);
    while from < lines.len() && is_blank(lines[from].as_str())
        invariant
            from <= lines.len(),
            text::texts(lines@) == clean,
            from_first_shown(clean) == from_first_shown(clean.skip(from as int)),
        decreases lines.len() - from,
    {
        assert(clean[from as int] == lines[from as int]@);
        assert(clean.skip(from as int).drop_first() =~= clean.skip(from + 1));
        from = from + 1;
    }
    assert(from < lines.len() ==> clean[from as int] == lines[from as int]@);
    let mut shown: Vec<String> = lines.split_off(from);
    assert(text::texts(shown@) =~= clean.skip(from as int));
    if shown.len() == 0 {
        shown.push(String::new());
        assert(text::texts(shown@) =~= seq![Seq::<char>::empty()]);
    }
    shown
}

/// The first place of the session of that name.
pub open spec fn place_of_session(sessions: Seq<SessionView>, name: Seq<char>, from: int) -> Option<
    int,
>
    decreases sessions.len() - from,
{
    if from < 0 || from >= sessions.len() {
        None
    } else if sessions[from].name == name {
        Some(from)
    } else {
        place_of_session(sessions, name, from + 1)
    }
}

/// The first place of the session of that name.
pub fn session_place(sessions: &Vec<Session>, name: &str) -> (r: Option<usize>)
    ensures
        r is Some <==> place_of_session(session_views(sessions@), name@, 0) is Some,
        r matches Some(i) ==> i < sessions.len() && place_of_session(
            session_views(sessions@),
            name@,
            0,
        ) == Some(i as int),
{
    let ghost sv = session_views(sessions@);
    let mut i: usize = 0;
    while i < sessions.len()
        invariant
            i <= sessions.len(),
            sv == session_views(sessions@),
            place_of_session(sv, name@, 0) == place_of_session(sv, name@, i as int),
        decreases sessions.len() - i,
    {
        assert(sv[i as int] == sessions[i as int]@);
        if text::same(sessions[i].name.as_str(), name) {
            return Some(i);
        }
        i = i + 1;
    }
    None
}

/// Sessions of which the one at `index`, if there is one, shows the given preview.
pub open spec fn with_preview(
    sessions: Seq<SessionView>,
    index: int,
    preview: Seq<Seq<char>>,
) -> Seq<SessionView> {
    if 0 <= index < sessions.len() {
        sessions.update(index, SessionView { preview, ..sessions[index] })
    } else {
        sessions
    }
}

/// Gives the session at `index`, if there is one, its preview.
pub fn load_preview(sessions: &mut Vec<Session>, index: usize, lines: Vec<String>)
    ensures
        session_views(final(sessions)@) == with_preview(
            session_views(old(sessions)@),
            index as int,
            text::texts(lines@),
        ),
{
    if index < sessions.len() {
        sessions[index].preview = lines;
    }
    assert(session_views(sessions@) =~= with_preview(
        session_views(old(sessions)@),
        index as int,
        text::texts(lines@),
    ));
}

/// The places of the sessions of that name.
pub open spec fn places_of_session(sessions: Seq<SessionView>, name: Option<Seq<char>>) -> Seq<
    int,
> {
    Seq::new(sessions.len(), |i: int| i).filter(|i: int| name == Some(sessions[i].name))
}

/// The places of the sessions to capture a preview for: those of the given name.
pub fn preview_places(sessions: &Vec<Session>, preview_for: Option<&str>) -> (r: Vec<usize>)
    ensures
        order::positions(r@) == places_of_session(
            session_views(sessions@),
            text::str_opt(preview_for),
        ),
{
    let ghost sv = session_views(sessions@);
    let ghost wanted = text::str_opt(preview_for);
    let ghost all = Seq::new(sv.len(), |i: int| i);
    let ghost pick = |i: int| wanted == Some(sv[i].name);
    let mut r: Vec<usize> = Vec::new();
    let mut i: usize = 0;
    assert(all.take(0).filter(pick) =~= order::positions(r@));
    while i < sessions.len()
        invariant
            i <= sessions.len(),
            sv == session_views(sessions@),
            wanted == text::str_opt(preview_for),
            all == Seq::new(sv.len(), |i: int| i),
            pick == (|i: int| wanted == Some(sv[i].name)),
            order::positions(r@) == all.take(i as int).filter(pick),
        decreases sessions.len() - i,
    {
        let ghost before = r@;
        proof {
            assert(all.take(i + 1) =~= all.take(i as int).push(i as int));
            all.take(i as int).lemma_filter_push(i as int, pick);
            assert(sv[i as int] == sessions[i as int]@);
        }
        let here: bool = match preview_for {
            Some(name) => text::same(sessions[i].name.as_str(), name),
            None => false,
        };
        if here {
            r.push(i);
            assert(order::positions(r@) =~= order::positions(before).push(i as int));
        }
        i = i + 1;
    }
    assert(all.take(i as int) =~= all);
    r
}

/// How well a session matches: by its name, or else, worth less, by what its active pane shows.
pub open spec fn session_score(session: SessionView, query: Seq<char>) -> Option<i64> {
    match fuzzy::score_of(session.name, query) {
        Some(score) => Some(score),
        None => fuzzy::lessened(fuzzy::score_of(session.active_line, query), 1_000),
    }
}

/// The rank of the session at `i` among the matches, if it matches: a higher score first, then a
/// later activity.
pub open spec fn session_hit(sessions: Seq<SessionView>, query: Seq<char>, i: int) -> Option<order::Hit> {
    match session_score(sessions[i], query) {
        Some(score) => Some(
            order::Hit {
                index: i,
                rank: order::RankView {
                    major: score as int,
                    minor: sessions[i].activity_epoch as int,
                    text: Seq::empty(),
                },
            },
        ),
        None => None,
    }
}

/// The sessions that match, in the order of the list.
pub open spec fn session_hits(sessions: Seq<SessionView>, query: Seq<char>) -> Seq<order::Hit> {
    Seq::new(sessions.len(), |i: int| i).filter_map(|i: int| session_hit(sessions, query, i))
}

/// The places of the sessions to list: all of them where nothing was typed, else those that match,
/// the best match first.
pub open spec fn listed_sessions(sessions: Seq<SessionView>, query: Seq<char>) -> Seq<int> {
    if query.len() == 0 {
        Seq::new(sessions.len(), |i: int| i)
    } else {
        order::best_first(session_hits(sessions, query))
    }
}

/// How well a session matches what was typed.
fn score_session(session: &Session, query: &str) -> (r: Option<i64>)
    ensures
        r == session_score(session@, query@),
{
    match fuzzy::fuzzy_score(session.name.as_str(), query) {
        Some(score) => Some(score),
        None => match fuzzy::fuzzy_score(session.active_line.as_str(), query) {
            Some(score) => Some(fuzzy::lessened_score(score, 1_000)),
            None => None,
        },
    }
}

/// The places of the sessions to list for what was typed, the best match first.
pub fn filtered_session_indices(sessions: &Vec<Session>, query: &str) -> (r: Vec<usize>)
    ensures
        order::positions(r@) == listed_sessions(session_views(sessions@), query@),
        forall|k: int| 0 <= k < r.len() ==> #[trigger] r[k] < sessions.len(),
{
    let ghost sv = session_views(sessions@);
    let mut indices: Vec<usize> = Vec::new();
    let mut i: usize = 0;
    if query.is_empty() {
        while i < sessions.len()
            invariant
                i <= sessions.len(),
                indices.len() == i,
                forall|k: int| 0 <= k < i ==> #[trigger] indices[k] == k,
            decreases sessions.len() - i,
        {
            indices.push(i);
            i = i + 1;
        }
        assert(order::positions(indices@) =~= Seq::new(sv.len(), |i: int| i));
        return indices;
    }
    let ghost all = Seq::new(sv.len(), |i: int| i);
    let ghost pick = |i: int| session_hit(sv, query@, i);
    let ghost mut hits: Seq<order::Hit> = Seq::empty();
    let mut ranks: Vec<order::Rank> = Vec::new();
    assert(all.take(0).filter_map(pick) =~= hits);
    assert(order::hit_indices(hits) =~= order::positions(indices@));
    assert(order::hit_ranks(hits) =~= order::rank_views(ranks@));
    while i < sessions.len()
        invariant
            i <= sessions.len(),
            sv == session_views(sessions@),
            all == Seq::new(sv.len(), |i: int| i),
            pick == (|i: int| session_hit(sv, query@, i)),
            hits == all.take(i as int).filter_map(pick),
            order::hit_indices(hits) == order::positions(indices@),
            order::hit_ranks(hits) == order::rank_views(ranks@),
            indices.len() == ranks.len(),
            forall|k: int| 0 <= k < indices.len() ==> #[trigger] indices[k] < sessions.len(),
        decreases sessions.len() - i,
    {
        proof {
            all.lemma_filter_map_take_succ(pick, i as int);
            assert(sv[i as int] == sessions[i as int]@);
        }
        if let Some(score) = score_session(&sessions[i], query) {
            let ghost before = (indices@, ranks@, hits);
            let text: Vec<char> = Vec::new();
            let rank = order::Rank { major: score, minor: sessions[i].activity_epoch, text };
            indices.push(i);
            ranks.push(rank);
            proof {
                let hit = session_hit(sv, query@, i as int)->0;
                hits = hits + seq![hit];
                assert(rank@ =~= hit.rank);
                assert(order::hit_indices(hits) =~= order::hit_indices(before.2).push(hit.index));
                assert(order::hit_ranks(hits) =~= order::hit_ranks(before.2).push(hit.rank));
                assert(order::positions(indices@) =~= order::positions(before.0).push(i as int));
                assert(order::rank_views(ranks@) =~= order::rank_views(before.1).push(rank@));
            }
        }
        i = i + 1;
    }
    assert(all.take(i as int) =~= all);
    let order: Vec<usize> = order::ranked(&ranks);
    let ghost places = indices@;
    let r: Vec<usize> = order::arranged(indices, &order);
    proof {
        assert(order::positions(r@) =~= listed_sessions(sv, query@));
        assert forall|k: int| 0 <= k < r.len() implies #[trigger] r[k] < sessions.len() by {
            assert(r[k] == places[order[k] as int]);
        }
    }
    r
}

/// Which sessions are listed, and in which order: exactly those that match what was typed, each
/// once; a better match first, then the one with the later activity, then the one that came first.
/// Where nothing was typed all of them are, as they came.
pub proof fn lemma_listed_sessions(sessions: Seq<SessionView>, query: Seq<char>)
    ensures
        ({
            let listed = listed_sessions(sessions, query);
            &&& forall|i: int| #[trigger]
                listed.contains(i) <==> 0 <= i < sessions.len() && session_score(
                    sessions[i],
                    query,
                ) is Some
            &&& listed.no_duplicates()
            &&& forall|a: int, b: int|
                0 <= a < b < listed.len() ==> listed_before(
                    sessions,
                    query,
                    #[trigger] listed[a],
                    #[trigger] listed[b],
                )
        }),
{
    let listed = listed_sessions(sessions, query);
    if query.len() == 0 {
        assert forall|i: int| #[trigger]
            listed.contains(i) <==> 0 <= i < sessions.len() && session_score(
                sessions[i],
                query,
            ) is Some by {
            if 0 <= i < sessions.len() {
                assert(listed[i] == i);
            }
        }
    } else {
        let pick = |i: int| session_hit(sessions, query, i);
        order::lemma_best_first(sessions.len(), pick);
        assert forall|a: int, b: int| 0 <= a < b < listed.len() implies listed_before(
            sessions,
            query,
            #[trigger] listed[a],
            #[trigger] listed[b],
        ) by {
            assert(order::hit_before(pick, listed[a], listed[b]));
            assert(listed.contains(listed[a]) && listed.contains(listed[b]));
        }
    }
}

/// Whether the session at `i` is listed before the one at `j`.
pub open spec fn listed_before(
    sessions: Seq<SessionView>,
    query: Seq<char>,
    i: int,
    j: int,
) -> bool {
    let a = session_score(sessions[i], query)->0;
    let b = session_score(sessions[j], query)->0;
    if query.len() == 0 {
        i < j
    } else if a != b {
        a > b
    } else if sessions[i].activity_epoch != sessions[j].activity_epoch {
        sessions[i].activity_epoch > sessions[j].activity_epoch
    } else {
        i < j
    }
}

/// Ordering by recency keeps every session and puts a later activity first; of two sessions with
/// the same activity the one whose lowercase name is first in alphabetical order comes first.
pub proof fn lemma_by_recency(sessions: Seq<SessionView>)
    ensures
        by_recency(sessions).len() == sessions.len(),
        by_recency(sessions).to_multiset() == sessions.to_multiset(),
        forall|a: int, b: int|
            0 <= a < b < sessions.len() ==> {
                let x = #[trigger] by_recency(sessions)[a];
                let y = #[trigger] by_recency(sessions)[b];
                x.activity_epoch > y.activity_epoch || (x.activity_epoch == y.activity_epoch
                    && !order::text_before(text::lowercase(y.name), text::lowercase(x.name)))
            },
{
    let ranks = recencies(sessions);
    let order = order::ranking(ranks);
    order::lemma_ranking(ranks);
    order::lemma_arranged_keeps_all(sessions, ranks);
    assert forall|a: int, b: int| 0 <= a < b < sessions.len() implies {
        let x = #[trigger] by_recency(sessions)[a];
        let y = #[trigger] by_recency(sessions)[b];
        x.activity_epoch > y.activity_epoch || (x.activity_epoch == y.activity_epoch
            && !order::text_before(text::lowercase(y.name), text::lowercase(x.name)))
    } by {
        let i = order[a];
        let j = order[b];
        assert(order.contains(i) && order.contains(j));
        assert(order::entry_before(ranks, i, j));
        assert(by_recency(sessions)[a] == sessions[i] && by_recency(sessions)[b] == sessions[j]);
        assert(ranks[i] == recency(sessions[i]) && ranks[j] == recency(sessions[j]));
        order::lemma_rank_order(ranks[i], ranks[j], ranks[i]);
    }
}

proof fn lemma_from_first_shown(lines: Seq<Seq<char>>)
    ensures
        from_first_shown(lines).len() <= lines.len(),
        from_first_shown(lines) == lines.skip(lines.len() - from_first_shown(lines).len()),
        from_first_shown(lines).len() > 0 ==> !shows_nothing(from_first_shown(lines)[0]),
        forall|k: int|
            0 <= k < lines.len() - from_first_shown(lines).len() ==> shows_nothing(
                #[trigger] lines[k],
            ),
    decreases lines.len(),
{
    if lines.len() > 0 && shows_nothing(lines[0]) {
        let rest = lines.drop_first();
        lemma_from_first_shown(rest);
        let n = lines.len() - from_first_shown(lines).len();
        assert(rest.skip(n - 1) =~= lines.skip(n));
        assert forall|k: int| 0 <= k < n implies shows_nothing(#[trigger] lines[k]) by {
            if k > 0 {
                assert(lines[k] == rest[k - 1]);
            }
        }
    } else {
        assert(lines.skip(0) =~= lines);
    }
}

/// A preview is never empty, and starts with the first line that shows something: nothing but lines
/// that show nothing is left out before it, and nothing behind it.
pub proof fn lemma_preview_starts_with_something(out: Seq<char>)
    ensures
        ({
            let lines = text::lines_of(out).map_values(|line: Seq<char>| without_returns(line));
            let shown = preview_of(Some(out));
            let n = lines.len() - shown.len();
            &&& shown.len() > 0
            &&& (forall|k: int| 0 <= k < lines.len() ==> shows_nothing(#[trigger] lines[k]))
                ==> shown == seq![Seq::<char>::empty()]
            &&& (exists|k: int| 0 <= k < lines.len() && !shows_nothing(#[trigger] lines[k])) ==> {
                &&& 0 <= n
                &&& shown == lines.skip(n)
                &&& !shows_nothing(shown[0])
                &&& forall|k: int| 0 <= k < n ==> shows_nothing(#[trigger] lines[k])
            }
        }),
{
    let lines = text::lines_of(out).map_values(|line: Seq<char>| without_returns(line));
    lemma_from_first_shown(lines);
    let shown = from_first_shown(lines);
    if shown.len() > 0 {
        assert(lines[lines.len() - shown.len()] == shown[0]);
    }
}

/// The value of what a command gave: a text or an error.
pub open spec fn text_result(r: Result<String, String>) -> Result<Seq<char>, Seq<char>> {
    match r {
        Ok(text) => Ok(text@),
        Err(error) => Err(error@),
    }
}

/// The sessions that tmux lists, or the error of the first listing that failed: there is no list
/// without both of them.
pub fn read_sessions(
    listing: Result<String, String>,
    pane_listing: Result<String, String>,
    current_session: Option<&str>,
    now: Option<u64>,
) -> (r: Result<Vec<Session>, String>)
    ensures
        match (text_result(listing), text_result(pane_listing)) {
            (Err(error), _) => r matches Err(e) && e@ == error,
            (Ok(_), Err(error)) => r matches Err(e) && e@ == error,
            (Ok(listing), Ok(pane_listing)) => r matches Ok(list) && session_views(list@)
                == by_recency(
                sessions_of(
                    listing,
                    panes_of(pane_listing),
                    text::str_opt(current_session),
                    now,
                ),
            ),
        },
{
    match listing {
        Ok(listing) => match pane_listing {
            Ok(pane_listing) => Ok(
                load_sessions(listing.as_str(), pane_listing.as_str(), current_session, now),
            ),
            Err(error) => Err(error),
        },
        Err(error) => Err(error),
    }
}

/// The value of a capture: the lines of a preview, or an error.
pub open spec fn capture_view(captured: Result<Vec<String>, String>) -> Result<
    Seq<Seq<char>>,
    Seq<char>,
> {
    match captured {
        Ok(lines) => Ok(text::texts(lines@)),
        Err(error) => Err(error@),
    }
}

/// The values of several captures.
pub open spec fn capture_views(captured: Seq<Result<Vec<String>, String>>) -> Seq<
    Result<Seq<Seq<char>>, Seq<char>>,
> {
    captured.map_values(|c: Result<Vec<String>, String>| capture_view(c))
}

/// The error of the first capture from `from` on that failed.
pub open spec fn failure_of(captured: Seq<Result<Seq<Seq<char>>, Seq<char>>>, from: int) -> Option<
    Seq<char>,
>
    decreases captured.len() - from,
{
    if from < 0 || from >= captured.len() {
        None
    } else {
        match captured[from] {
            Err(error) => Some(error),
            Ok(_) => failure_of(captured, from + 1),
        }
    }
}

/// Sessions without a preview.
pub open spec fn without_previews(sessions: Seq<SessionView>) -> Seq<SessionView> {
    sessions.map_values(|s: SessionView| SessionView { preview: Seq::empty(), ..s })
}

/// Sessions of which those at the first `n` of the places show what was captured for them, and all
/// others nothing.
pub open spec fn previews_filled(
    sessions: Seq<SessionView>,
    places: Seq<int>,
    captured: Seq<Result<Seq<Seq<char>>, Seq<char>>>,
    n: nat,
) -> Seq<SessionView>
    decreases n,
{
    if n == 0 {
        without_previews(sessions)
    } else {
        let before = previews_filled(sessions, places, captured, (n - 1) as nat);
        if n <= places.len() {
            with_preview(before, places[n - 1], captured[n - 1]->Ok_0)
        } else {
            before
        }
    }
}

/// Takes the previews of sessions away.
fn clear_previews(sessions: &mut Vec<Session>)
    ensures
        session_views(final(sessions)@) == without_previews(session_views(old(sessions)@)),
{
    let ghost all = session_views(sessions@);
    let mut i: usize = 0;
    while i < sessions.len()
        invariant
            i <= sessions.len(),
            sessions.len() == all.len(),
            forall|k: int|
                0 <= k < i ==> (#[trigger] sessions[k])@ == (SessionView {
                    preview: Seq::empty(),
                    ..all[k]
                }),
            forall|k: int| i <= k < sessions.len() ==> (#[trigger] sessions[k])@ == all[k],
        decreases sessions.len() - i,
    {
        sessions[i].preview = Vec::new();
        assert(text::texts(sessions[i as int].preview@) =~= Seq::<Seq<char>>::empty());
        i = i + 1;
    }
    assert(session_views(sessions@) =~= without_previews(all));
}

/// The sessions with their previews. `captured` is what was captured, one for each place that
/// [`preview_places`] names, or as far as a capture that failed: with such a one there is no list.
pub fn with_previews(
    list: Vec<Session>,
    preview_for: Option<&str>,
    captured: Vec<Result<Vec<String>, String>>,
) -> (r: Result<Vec<Session>, String>)
    ensures
        match failure_of(capture_views(captured@), 0) {
            Some(error) => r matches Err(e) && e@ == error,
            None => r matches Ok(shown) && session_views(shown@) == previews_filled(
                session_views(list@),
                places_of_session(session_views(list@), text::str_opt(preview_for)),
                capture_views(captured@),
                captured@.len(),
            ),
        },
{
    let ghost all = session_views(list@);
    let ghost cv = capture_views(captured@);
    let ghost source = captured@;
    let places: Vec<usize> = preview_places(&list, preview_for);
    let ghost pv = order::positions(places@);
    let mut shown: Vec<Session> = list;
    clear_previews(&mut shown);
    let mut j: usize = 0;
    for capture in it: captured
        invariant
            it.seq() == source,
            cv == capture_views(source),
            pv == order::positions(places@),
            j <= places.len(),
            j == (if it.index() <= places.len() {
                it.index() as int
            } else {
                places.len() as int
            }),
            failure_of(cv, 0) == failure_of(cv, it.index() as int),
            session_views(shown@) == previews_filled(all, pv, cv, it.index() as nat),
    {
        assert(cv[it.index() as int] == capture_view(capture));
        match capture {
            Ok(lines) => {
                if j < places.len() {
                    assert(pv[j as int] == places[j as int] as int);
                    load_preview(&mut shown, places[j], lines);
                    j = j + 1;
                }
            },
            Err(error) => {
                return Err(error);
            },
        }
    }
    Ok(shown)
}

proof fn lemma_places(sessions: Seq<SessionView>, name: Option<Seq<char>>, n: int)
    requires
        0 <= n <= sessions.len(),
    ensures
        ({
            let places = Seq::new(sessions.len(), |i: int| i).take(n).filter(
                |i: int| name == Some(sessions[i].name),
            );
            &&& forall|k: int|
                0 <= k < places.len() ==> 0 <= #[trigger] places[k] < n && name == Some(
                    sessions[places[k]].name,
                )
            &&& forall|a: int, b: int|
                0 <= a < b < places.len() ==> #[trigger] places[a] < #[trigger] places[b]
            &&& forall|i: int|
                0 <= i < n && name == Some(sessions[i].name) ==> #[trigger] places.contains(i)
        }),
    decreases n,
{
    let all = Seq::new(sessions.len(), |i: int| i);
    let pick = |i: int| name == Some(sessions[i].name);
    if n > 0 {
        lemma_places(sessions, name, n - 1);
        let before = all.take(n - 1).filter(pick);
        let places = all.take(n).filter(pick);
        assert(all.take(n) =~= all.take(n - 1).push(n - 1));
        all.take(n - 1).lemma_filter_push(n - 1, pick);
        assert forall|i: int|
            0 <= i < n && name == Some(sessions[i].name) implies #[trigger] places.contains(i) by {
            if i < n - 1 {
                assert(before.contains(i));
                let k = choose|k: int| 0 <= k < before.len() && before[k] == i;
                assert(places[k] == i);
            } else {
                assert(places[places.len() - 1] == i);
            }
        }
    } else {
        assert(all.take(0) =~= Seq::<int>::empty());
        reveal(Seq::filter);
    }
}

proof fn lemma_previews_filled(
    sessions: Seq<SessionView>,
    places: Seq<int>,
    captured: Seq<Result<Seq<Seq<char>>, Seq<char>>>,
    n: nat,
    i: int,
)
    requires
        n <= places.len(),
        0 <= i < sessions.len(),
        forall|k: int| 0 <= k < places.len() ==> 0 <= #[trigger] places[k] < sessions.len(),
        forall|a: int, b: int|
            0 <= a < b < places.len() ==> #[trigger] places[a] < #[trigger] places[b],
    ensures
        ({
            let filled = previews_filled(sessions, places, captured, n);
            &&& filled.len() == sessions.len()
            &&& filled[i] == (SessionView { preview: filled[i].preview, ..sessions[i] })
            &&& (forall|k: int| 0 <= k < n ==> #[trigger] places[k] != i)
                ==> filled[i].preview.len() == 0
            &&& forall|k: int|
                0 <= k < n && #[trigger] places[k] == i ==> filled[i].preview == captured[k]->Ok_0
        }),
    decreases n,
{
    if n > 0 {
        lemma_previews_filled(sessions, places, captured, (n - 1) as nat, i);
    }
}

/// Exactly the sessions that are asked for carry a preview, each the one that was captured for it;
/// nothing else of any session changes.
pub proof fn lemma_previews_are_where_asked(
    sessions: Seq<SessionView>,
    name: Option<Seq<char>>,
    captured: Seq<Result<Seq<Seq<char>>, Seq<char>>>,
    i: int,
)
    requires
        captured.len() == places_of_session(sessions, name).len(),
        forall|k: int|
            0 <= k < captured.len() ==> (#[trigger] captured[k]) is Ok && captured[k]->Ok_0.len()
                > 0,
        0 <= i < sessions.len(),
    ensures
        ({
            let places = places_of_session(sessions, name);
            let shown = previews_filled(sessions, places, captured, captured.len());
            &&& shown.len() == sessions.len()
            &&& shown[i] == (SessionView { preview: shown[i].preview, ..sessions[i] })
            &&& shown[i].preview.len() > 0 <==> name == Some(sessions[i].name)
            &&& forall|k: int|
                0 <= k < places.len() && #[trigger] places[k] == i ==> captured[k] == Ok::<
                    Seq<Seq<char>>,
                    Seq<char>,
                >(shown[i].preview)
        }),
{
    let all = Seq::new(sessions.len(), |i: int| i);
    let places = places_of_session(sessions, name);
    assert(all.take(sessions.len() as int) =~= all);
    lemma_places(sessions, name, sessions.len() as int);
    lemma_previews_filled(sessions, places, captured, captured.len(), i);
    if name == Some(sessions[i].name) {
        assert(places.contains(i));
        let k = choose|k: int| 0 <= k < places.len() && places[k] == i;
        assert(captured[k] is Ok);
    }
}

} // verus!
