//! Laws of what comes from outside: what each answer makes of the popup, and what it leaves alone.
use crate::popup;
use crate::popup::ActionView;
use crate::popup::AppView;
use crate::popup::DirInput;
use crate::popup::Focus;
use crate::popup_laws;
use crate::search;
use crate::sessions;
use crate::store;
use crate::text;
use crate::tree;
use crate::updates;
use crate::updates::ResponseView;
use vstd::prelude::*;

verus! {

/// After a session was ended the selection stays at its place as long as the list reaches that far,
/// and is on the last one where it does not. The preview is that of the session there. Nothing else
/// changes but the list and the notice.
pub proof fn lemma_selection_stays_when_one_is_killed(
    a: AppView,
    list: Seq<sessions::SessionView>,
)
    requires
        list.len() <= usize::MAX,
    ensures
        ({
            let after = updates::killed(a, list);
            &&& after == (AppView {
                sessions: list,
                sess_idx: after.sess_idx,
                preview_for: after.preview_for,
                notice: after.notice,
                ..a
            })
            &&& a.sess_idx < list.len() ==> after.sess_idx == a.sess_idx
            &&& 0 < list.len() <= a.sess_idx ==> after.sess_idx + 1 == list.len()
            &&& list.len() > 0 ==> after.preview_for == Some(list[after.sess_idx as int].name)
            &&& list.len() == 0 ==> after.sess_idx == 0 && after.preview_for is None
            &&& after.notice.len() > 0
        }),
{
    reveal_strlit("session killed");
}

/// After a session was renamed the first one of its new name is selected, or the first of all where
/// there is none. Nothing else changes but the list and the notice.
pub proof fn lemma_renamed_session_is_found(
    a: AppView,
    list: Seq<sessions::SessionView>,
    name: Seq<char>,
)
    requires
        list.len() <= usize::MAX,
    ensures
        ({
            let after = updates::renamed(a, list, name);
            &&& after == (AppView {
                sessions: list,
                sess_idx: after.sess_idx,
                notice: "session renamed"@,
                ..a
            })
            &&& (exists|i: int| 0 <= i < list.len() && (#[trigger] list[i]).name == name) ==> {
                &&& after.sess_idx < list.len()
                &&& list[after.sess_idx as int].name == name
                &&& forall|i: int| 0 <= i < after.sess_idx ==> (#[trigger] list[i]).name != name
            }
            &&& (forall|i: int| 0 <= i < list.len() ==> (#[trigger] list[i]).name != name)
                ==> after.sess_idx == 0
        }),
{
    popup_laws::lemma_place_of_session(list, name, 0);
    lemma_first_place(list, name, 0);
}

/// No session before the first place of a name has that name.
proof fn lemma_first_place(list: Seq<sessions::SessionView>, name: Seq<char>, from: int)
    requires
        0 <= from,
    ensures
        sessions::place_of_session(list, name, from) matches Some(k) ==> forall|i: int|
            from <= i < k ==> (#[trigger] list[i]).name != name,
    decreases list.len() - from,
{
    if from < list.len() && list[from].name != name {
        lemma_first_place(list, name, from + 1);
    }
}

/// When tmux has renamed a session, its preview is asked for by the new name, and the popup knows
/// that it runs in it where it ran in it before. Nothing else changes.
pub proof fn lemma_new_name_is_noted(a: AppView, old_name: Seq<char>, name: Seq<char>)
    ensures
        ({
            let after = updates::rename_accepted(a, old_name, name);
            &&& after == (AppView {
                current_session: after.current_session,
                preview_for: Some(name),
                ..a
            })
            &&& a.current_session == Some(old_name) ==> after.current_session == Some(name)
            &&& a.current_session != Some(old_name) ==> after.current_session == a.current_session
        }),
{
}

/// Reading the sessions again changes nothing but the list and the place of the selection: the first
/// row of the session that was selected, or the first row where it is gone. Where nothing was
/// selected the place stays.
pub proof fn lemma_refresh_changes_the_list(a: AppView, list: Seq<sessions::SessionView>)
    requires
        list.len() <= usize::MAX,
        sessions::listed_sessions(list, a.query).len() <= usize::MAX,
    ensures
        ({
            let after = updates::answered(a, ResponseView::Sessions(Ok(list)));
            let listed = sessions::listed_sessions(list, a.query);
            &&& after == (AppView { sessions: list, sess_idx: after.sess_idx, ..a })
            &&& a.selected() is None ==> after.sess_idx == a.sess_idx
            &&& a.selected() matches Some(s) ==> {
                let name = s.name;
                &&& (exists|k: int|
                    0 <= k < listed.len() && list[#[trigger] listed[k]].name == name) ==> {
                    &&& after.sess_idx < listed.len()
                    &&& list[listed[after.sess_idx as int]].name == name
                }
                &&& (forall|k: int|
                    0 <= k < listed.len() ==> list[#[trigger] listed[k]].name != name)
                    ==> after.sess_idx == 0
            }
        }),
{
    if a.selected() is Some {
        popup_laws::lemma_listed_place(
            sessions::listed_sessions(list, a.query),
            list,
            a.selected()->0.name,
            0,
        );
    }
}

/// A failure changes nothing but the notice, which ends with what went wrong.
pub proof fn lemma_failure_is_only_noticed(a: AppView, session: Seq<char>, error: Seq<char>)
    ensures
        ({
            let refresh = updates::answered(a, ResponseView::Sessions(Err(error)));
            let preview = updates::answered(
                a,
                ResponseView::Preview { session, lines: Err(error) },
            );
            &&& refresh == (AppView { notice: refresh.notice, ..a })
            &&& preview == (AppView { notice: preview.notice, ..a })
            &&& refresh.notice.len() > error.len() && refresh.notice.skip(
                refresh.notice.len() - error.len(),
            ) == error
            &&& preview.notice.len() > error.len() && preview.notice.skip(
                preview.notice.len() - error.len(),
            ) == error
            &&& refresh.notice != preview.notice
        }),
{
    reveal_strlit("refresh failed: ");
    reveal_strlit("preview failed: ");
    let refresh = "refresh failed: "@ + error;
    let preview = "preview failed: "@ + error;
    assert(refresh.skip(refresh.len() - error.len()) =~= error);
    assert(preview.skip(preview.len() - error.len()) =~= error);
    assert(refresh[0] == 'r' && preview[0] == 'p');
}

/// A preview that is asked for goes to the first session of its name, whose other properties stay, as
/// do all other sessions and the rest of the popup.
pub proof fn lemma_preview_reaches_its_session(
    a: AppView,
    session: Seq<char>,
    lines: Seq<Seq<char>>,
    i: int,
)
    requires
        a.preview_for == Some(session),
        0 <= i < a.sessions.len(),
        a.sessions[i].name == session,
        forall|k: int| 0 <= k < i ==> (#[trigger] a.sessions[k]).name != session,
    ensures
        ({
            let after = updates::answered(a, ResponseView::Preview { session, lines: Ok(lines) });
            &&& after == (AppView { sessions: after.sessions, ..a })
            &&& after.sessions.len() == a.sessions.len()
            &&& after.sessions[i].preview == lines
            &&& after.sessions[i] == (sessions::SessionView { preview: lines, ..a.sessions[i] })
            &&& forall|k: int|
                0 <= k < a.sessions.len() && k != i ==> (#[trigger] after.sessions[k])
                    == a.sessions[k]
        }),
{
    popup_laws::lemma_place_of_session(a.sessions, session, 0);
    lemma_first_place(a.sessions, session, 0);
}

/// A new index holds an entry for each directory, in their order, and their number is shown. The
/// directories start at the first row again; nothing else changes.
pub proof fn lemma_new_index_is_taken(a: AppView, fresh: Seq<Seq<u8>>, i: int)
    requires
        0 <= i < fresh.len(),
    ensures
        ({
            let after = updates::reindexed(a, fresh);
            &&& after == (AppView {
                dir_cache: after.dir_cache,
                cache_status: after.cache_status,
                dir_idx: 0,
                ..a
            })
            &&& after.dir_cache.len() == fresh.len()
            &&& after.dir_cache[i] == search::indexed(fresh[i])
            &&& after.dir_cache[i].path == fresh[i]
            &&& after.cache_status == "cache: "@ + text::decimal_of(fresh.len()) + " dirs"@
        }),
{
}

/// The popup opens on the sessions, with nothing typed and nothing asked, the tree open at its root,
/// and what was stored in the index, or the root alone where nothing was.
pub proof fn lemma_popup_opens_blank(
    loaded: Seq<Seq<u8>>,
    list: Seq<sessions::SessionView>,
    last: Option<Seq<char>>,
    current: Option<Seq<char>>,
    home: Option<Seq<u8>>,
)
    requires
        list.len() <= usize::MAX,
    ensures
        ({
            let a = updates::opened(loaded, list, last, current, home);
            let root = popup::root_of(home);
            &&& a.focus == Focus::Sessions && a.dir_input == DirInput::Filter
            &&& a.query.len() == 0 && a.dir_query.len() == 0 && a.new_session.len() == 0
            &&& a.notice.len() == 0 && a.action is Idle
            &&& a.sessions == list && a.current_session == current && a.home == home
            &&& a.dir_idx == 0 && a.preview_scroll == 0 && a.dir_children.len() == 0
            &&& a.dirs.len() == 1 && a.dirs[0].path == root && a.dirs[0].expanded
                && a.dirs[0].depth == 0
            &&& loaded.len() == 0 ==> a.cache_status == "cache: indexing"@
            &&& loaded.len() > 0 ==> a.cache_status == "cache: loaded"@
            &&& loaded.len() == 0 ==> a.dir_cache.len() == 1 && a.dir_cache[0] == search::indexed(
                root,
            )
            &&& loaded.len() > 0 ==> a.dir_cache.len() == loaded.len() && forall|i: int|
                0 <= i < loaded.len() ==> (#[trigger] a.dir_cache[i]) == search::indexed(loaded[i])
            &&& list.len() > 0 ==> a.sess_idx < list.len() && a.preview_for == Some(
                list[a.sess_idx as int].name,
            )
            &&& list.len() == 0 ==> a.sess_idx == 0 && a.preview_for is None
            &&& last is None ==> a.sess_idx == 0
            &&& last matches Some(name) ==> {
                &&& (exists|i: int| 0 <= i < list.len() && (#[trigger] list[i]).name == name)
                    ==> list[a.sess_idx as int].name == name && forall|i: int|
                    0 <= i < a.sess_idx ==> (#[trigger] list[i]).name != name
                &&& (forall|i: int| 0 <= i < list.len() ==> (#[trigger] list[i]).name != name)
                    ==> a.sess_idx == 0
            }
        }),
{
    if let Some(name) = last {
        popup_laws::lemma_place_of_session(list, name, 0);
        lemma_first_place(list, name, 0);
    }
}

/// The sessions are listed again once more than two seconds have passed, be it by a nanosecond.
pub proof fn lemma_list_lasts_two_seconds(since: store::Age)
    requires
        since.nanos < 1_000_000_000,
    ensures
        store::is_longer(since, updates::REFRESH_SECS) <==> since.secs * 1_000_000_000 + since.nanos
            > 2 * 1_000_000_000,
{
}

} // verus!
