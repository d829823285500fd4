//! Session names that tmux takes.
use crate::text;
use vstd::prelude::*;

verus! {

/// Whether tmux takes a character in a session name without giving it a meaning of its own.
pub open spec fn name_char(c: char) -> bool {
    ||| '0' <= c <= '9'
    ||| 'A' <= c <= 'Z'
    ||| 'a' <= c <= 'z'
    ||| c == '_'
    ||| c == '-'
}

/// What becomes of one character of a requested name: a separator turns into an underscore, and
/// what no name may hold is left out.
pub open spec fn name_char_for(c: char) -> Option<char> {
    if c == '.' || c == ' ' || c == '/' || c == ':' {
        Some('_')
    } else if name_char(c) {
        Some(c)
    } else {
        None
    }
}

/// The session name for a requested one.
pub open spec fn sanitized(s: Seq<char>) -> Seq<char> {
    let kept = s.filter_map(|c: char| name_char_for(c));
    if kept.len() == 0 {
        "session"@
    } else {
        kept
    }
}

/// The session name for a requested one.
pub fn sanitize_name(s: &str) -> (r: String)
    ensures
        r@ == sanitized(s@),
{
    let chars: Vec<char> = text::chars_of(s);
    let ghost pick = |c: char| name_char_for(c);
    let mut out: String = String::new();
    let mut i: usize = 0;
    assert(s@.take(0).filter_map(pick) =~= Seq::<char>::empty());
    while i < chars.len()
        invariant
            i <= chars.len(),
            chars@ == s@,
            pick == (|c: char| name_char_for(c)),
            out@ == s@.take(i as int).filter_map(pick),
        decreases chars.len() - i,
    {
        let c: char = chars[i];
        proof {
            s@.lemma_filter_map_take_succ(pick, i as int);
        }
        if c == '.' || c == ' ' || c == '/' || c == ':' {
            out.push('_');
        } else if ('0' <= c && c <= '9') || ('A' <= c && c <= 'Z') || ('a' <= c && c <= 'z') || c
            == '_' || c == '-' {
            out.push(c);
        }
        i = i + 1;
    }
    assert(s@.take(i as int) =~= s@);
    if out.as_str().is_empty() {
        "session".to_owned()
    } else {
        out
    }
}

/// Whether tmux takes a text as the name of a session.
pub open spec fn valid_name(s: Seq<char>) -> bool {
    s.len() > 0 && forall|i: int| 0 <= i < s.len() ==> name_char(#[trigger] s[i])
}

/// Every session name that comes of a request is one that tmux takes: it is not empty and holds
/// only letters, digits, underscores and hyphens.
pub proof fn lemma_sanitized_is_valid(s: Seq<char>)
    ensures
        valid_name(sanitized(s)),
{
    reveal_strlit("session");
    let pick = |c: char| name_char_for(c);
    let kept = s.filter_map(pick);
    assert forall|i: int| 0 <= i < kept.len() implies name_char(#[trigger] kept[i]) by {
        assert(kept.contains(kept[i]));
        s.lemma_filter_map_contains(pick, kept[i]);
    }
}

proof fn lemma_valid_name_kept(s: Seq<char>)
    requires
        forall|i: int| 0 <= i < s.len() ==> name_char(#[trigger] s[i]),
    ensures
        s.filter_map(|c: char| name_char_for(c)) == s,
    decreases s.len(),
{
    if s.len() > 0 {
        lemma_valid_name_kept(s.drop_last());
        assert(name_char(s[s.len() - 1]));
        assert(s =~= s.drop_last() + seq![s.last()]);
    }
}

/// A name that tmux takes is left as it is, so that asking for a session by its name finds it.
pub proof fn lemma_valid_name_is_kept(s: Seq<char>)
    requires
        valid_name(s),
    ensures
        sanitized(s) == s,
{
    lemma_valid_name_kept(s);
}

/// Sanitizing a name twice is sanitizing it once.
pub proof fn lemma_sanitize_twice(s: Seq<char>)
    ensures
        sanitized(sanitized(s)) == sanitized(s),
{
    lemma_sanitized_is_valid(s);
    lemma_valid_name_is_kept(sanitized(s));
}

} // verus!
