//! Terminal escape sequences and the text that is left without them.
use crate::text;
use vstd::prelude::*;

verus! {

/// The character that starts every escape sequence.
pub const ESC: char = '\x1b';

/// The character that ends an operating system command.
pub const BEL: char = '\x07';

/// Where a control sequence ends whose parameters start at `i`: behind its first character from
/// `@` to `~`, or at the end of the text.
pub open spec fn csi_end(s: Seq<char>, i: int) -> int
    decreases s.len() - i,
{
    if i >= s.len() {
        s.len() as int
    } else if '@' <= s[i] <= '~' {
        i + 1
    } else {
        csi_end(s, i + 1)
    }
}

/// Where an operating system command ends whose contents start at `i`: behind a bell, behind an
/// escape and a backslash, or at the end of the text. Any other character behind an escape belongs
/// to the contents.
pub open spec fn osc_end(s: Seq<char>, i: int) -> int
    decreases s.len() - i,
{
    if i >= s.len() {
        s.len() as int
    } else if s[i] == BEL {
        i + 1
    } else if s[i] == ESC {
        if i + 1 >= s.len() {
            s.len() as int
        } else if s[i + 1] == '\\' {
            i + 2
        } else {
            osc_end(s, i + 2)
        }
    } else {
        osc_end(s, i + 1)
    }
}

/// Where the escape sequence ends that starts at `i`.
pub open spec fn sequence_end(s: Seq<char>, i: int) -> int {
    if i + 1 >= s.len() {
        s.len() as int
    } else if s[i + 1] == '[' {
        csi_end(s, i + 2)
    } else if s[i + 1] == ']' {
        osc_end(s, i + 2)
    } else {
        i + 2
    }
}

proof fn lemma_csi_end(s: Seq<char>, i: int)
    requires
        i <= s.len(),
    ensures
        i <= csi_end(s, i) <= s.len(),
    decreases s.len() - i,
{
    if i < s.len() {
        lemma_csi_end(s, i + 1);
    }
}

proof fn lemma_osc_end(s: Seq<char>, i: int)
    requires
        i <= s.len(),
    ensures
        i <= osc_end(s, i) <= s.len(),
    decreases s.len() - i,
{
    if i < s.len() {
        lemma_osc_end(s, i + 1);
        if i + 1 < s.len() {
            lemma_osc_end(s, i + 2);
        }
    }
}

/// An escape sequence takes up at least its escape character and stays within the text.
pub proof fn lemma_sequence_end(s: Seq<char>, i: int)
    requires
        i < s.len(),
    ensures
        i < sequence_end(s, i) <= s.len(),
{
    if i + 1 < s.len() {
        lemma_csi_end(s, i + 2);
        lemma_osc_end(s, i + 2);
    }
}

/// What is left of `s` from `i` on without its escape sequences.
pub open spec fn plain_from(s: Seq<char>, i: int) -> Seq<char>
    decreases s.len() - i,
{
    if i >= s.len() {
        Seq::empty()
    } else if s[i] == ESC {
        proof {
            lemma_sequence_end(s, i);
        }
        plain_from(s, sequence_end(s, i))
    } else {
        seq![s[i]] + plain_from(s, i + 1)
    }
}

/// Where the escape sequence ends that starts at `start`.
fn end_of_sequence(s: &Vec<char>, start: usize) -> (r: usize)
    requires
        start < s.len(),
    ensures
        r == sequence_end(s@, start as int),
        start < r <= s.len(),
{
    proof {
        lemma_sequence_end(s@, start as int);
    }
    if s.len() - start <= 1 {
        return s.len();
    }
    let mut i: usize = start + 2;
    if s[start + 1] == '[' {
        while i < s.len()
            invariant
                start < i <= s.len(),
                sequence_end(s@, start as int) == csi_end(s@, i as int),
            decreases s.len() - i,
        {
            let c: char = s[i];
            i = i + 1;
            if '@' <= c && c <= '~' {
                return i;
            }
        }
        return s.len();
    }
    if s[start + 1] == ']' {
        while i < s.len()
            invariant
                start < i <= s.len(),
                sequence_end(s@, start as int) == osc_end(s@, i as int),
            decreases s.len() - i,
        {
            let c: char = s[i];
            i = i + 1;
            if c == BEL {
                return i;
            }
            if c == ESC {
                if i == s.len() {
                    return i;
                }
                let next: char = s[i];
                i = i + 1;
                if next == '\\' {
                    return i;
                }
            }
        }
        return s.len();
    }
    i
}

/// The text without its escape sequences.
pub fn strip_ansi(s: &str) -> (r: String)
    ensures
        r@ == plain_from(s@, 0),
{
    let chars: Vec<char> = text::chars_of(s);
    let mut out: String = String::new();
    let mut i: usize = 0;
    while i < chars.len()
        invariant
            i <= chars.len(),
            chars@ == s@,
            plain_from(s@, 0) == out@ + plain_from(s@, i as int),
        decreases chars.len() - i,
    {
        let c: char = chars[i];
        if c == ESC {
            i = end_of_sequence(&chars, i);
        } else {
            let ghost rest = plain_from(s@, i + 1);
            assert(out@ + (seq![c] + rest) =~= out@.push(c) + rest);
            out.push(c);
            i = i + 1;
        }
    }
    assert(out@ + Seq::<char>::empty() =~= out@);
    out
}

/// No escape character is left in stripped text.
pub proof fn lemma_stripped_has_no_escape(s: Seq<char>, i: int)
    requires
        0 <= i,
    ensures
        !plain_from(s, i).contains(ESC),
    decreases s.len() - i,
{
    if i < s.len() {
        if s[i] == ESC {
            lemma_sequence_end(s, i);
            lemma_stripped_has_no_escape(s, sequence_end(s, i));
        } else {
            lemma_stripped_has_no_escape(s, i + 1);
            let r = plain_from(s, i);
            let rest = plain_from(s, i + 1);
            if r.contains(ESC) {
                let k = choose|k: int| 0 <= k < r.len() && r[k] == ESC;
                assert(rest[k - 1] == ESC);
            }
        }
    }
}

proof fn lemma_plain_text_from(s: Seq<char>, i: int)
    requires
        !s.contains(ESC),
        0 <= i <= s.len(),
    ensures
        plain_from(s, i) == s.skip(i),
    decreases s.len() - i,
{
    if i < s.len() {
        assert(s.contains(s[i]));
        lemma_plain_text_from(s, i + 1);
        assert(seq![s[i]] + s.skip(i + 1) =~= s.skip(i));
    } else {
        assert(s.skip(i) =~= Seq::<char>::empty());
    }
}

/// Text without an escape character is left as it is.
pub proof fn lemma_plain_text_is_kept(s: Seq<char>)
    requires
        !s.contains(ESC),
    ensures
        plain_from(s, 0) == s,
{
    lemma_plain_text_from(s, 0);
    assert(s.skip(0) =~= s);
}

/// Stripping twice is stripping once.
pub proof fn lemma_strip_twice(s: Seq<char>)
    ensures
        plain_from(plain_from(s, 0), 0) == plain_from(s, 0),
{
    lemma_stripped_has_no_escape(s, 0);
    lemma_plain_text_is_kept(plain_from(s, 0));
}

/// Whether a text is what stands at some places of another, in their order.
pub open spec fn is_picked_from(s: Seq<char>, picked: Seq<char>, at: Seq<int>) -> bool {
    &&& at.len() == picked.len()
    &&& forall|k: int| 0 <= k < at.len() ==> 0 <= #[trigger] at[k] < s.len() && s[at[k]] == picked[k]
    &&& forall|j: int, k: int| 0 <= j < k < at.len() ==> #[trigger] at[j] < #[trigger] at[k]
}

/// Stripping only leaves characters out: the result stands in the text, in its order.
pub proof fn lemma_stripped_is_picked(s: Seq<char>, i: int) -> (at: Seq<int>)
    requires
        0 <= i,
    ensures
        is_picked_from(s, plain_from(s, i), at),
        forall|k: int| 0 <= k < at.len() ==> i <= #[trigger] at[k],
    decreases s.len() - i,
{
    if i >= s.len() {
        Seq::empty()
    } else if s[i] == ESC {
        lemma_sequence_end(s, i);
        lemma_stripped_is_picked(s, sequence_end(s, i))
    } else {
        let rest = lemma_stripped_is_picked(s, i + 1);
        let at = seq![i] + rest;
        let picked = plain_from(s, i);
        assert forall|k: int| 0 <= k < at.len() implies 0 <= #[trigger] at[k] < s.len() && s[at[k]]
            == picked[k] && i <= at[k] by {
            if k > 0 {
                assert(at[k] == rest[k - 1]);
                assert(picked[k] == plain_from(s, i + 1)[k - 1]);
            }
        }
        assert forall|j: int, k: int| 0 <= j < k < at.len() implies #[trigger] at[j]
            < #[trigger] at[k] by {
            assert(at[k] == rest[k - 1]);
            if j > 0 {
                assert(at[j] == rest[j - 1]);
            }
        }
        at
    }
}

proof fn lemma_csi_end_behind(a: Seq<char>, s: Seq<char>, i: int)
    requires
        0 <= i,
    ensures
        csi_end(a + s, a.len() + i) == a.len() + csi_end(s, i),
    decreases s.len() - i,
{
    if i < s.len() {
        lemma_csi_end_behind(a, s, i + 1);
    }
}

proof fn lemma_osc_end_behind(a: Seq<char>, s: Seq<char>, i: int)
    requires
        0 <= i,
    ensures
        osc_end(a + s, a.len() + i) == a.len() + osc_end(s, i),
    decreases s.len() - i,
{
    if i < s.len() {
        lemma_osc_end_behind(a, s, i + 1);
        if i + 1 < s.len() {
            lemma_osc_end_behind(a, s, i + 2);
        }
    }
}

/// What is left of a text does not depend on what stands before it.
proof fn lemma_plain_behind(a: Seq<char>, s: Seq<char>, i: int)
    requires
        0 <= i,
    ensures
        plain_from(a + s, a.len() + i) == plain_from(s, i),
    decreases s.len() - i,
{
    if i < s.len() {
        if s[i] == ESC {
            lemma_csi_end_behind(a, s, i + 2);
            lemma_osc_end_behind(a, s, i + 2);
            lemma_sequence_end(s, i);
            lemma_plain_behind(a, s, sequence_end(s, i));
        } else {
            lemma_plain_behind(a, s, i + 1);
        }
    }
}

proof fn lemma_plain_start(a: Seq<char>, s: Seq<char>, i: int)
    requires
        !a.contains(ESC),
        0 <= i <= a.len(),
    ensures
        plain_from(a + s, i) == a.skip(i) + plain_from(s, 0),
    decreases a.len() - i,
{
    if i < a.len() {
        assert(a.contains(a[i]));
        lemma_plain_start(a, s, i + 1);
        assert(seq![a[i]] + (a.skip(i + 1) + plain_from(s, 0)) =~= a.skip(i) + plain_from(s, 0));
    } else {
        lemma_plain_behind(a, s, 0);
        assert(a.skip(i) + plain_from(s, 0) =~= plain_from(s, 0));
    }
}

/// Whether a text is one whole escape sequence: it ends the sequence that it starts, whatever
/// follows.
pub open spec fn is_sequence(q: Seq<char>) -> bool {
    &&& q.len() > 0
    &&& q[0] == ESC
    &&& forall|after: Seq<char>| sequence_end(#[trigger] (q + after), 0) == q.len()
}

/// An escape sequence between two texts leaves no trace: what is left is what is left of the texts.
pub proof fn lemma_sequence_leaves_no_trace(before: Seq<char>, q: Seq<char>, after: Seq<char>)
    requires
        !before.contains(ESC),
        is_sequence(q),
    ensures
        plain_from(before + q + after, 0) == before + plain_from(after, 0),
{
    let s = q + after;
    assert(before + q + after =~= before + s);
    lemma_plain_start(before, s, 0);
    assert(before.skip(0) =~= before);
    assert(s[0] == ESC);
    lemma_plain_behind(q, after, 0);
}

/// Whether a text is a control sequence: an escape, an opening bracket, parameters, and a character
/// from `@` to `~`.
pub open spec fn is_control_sequence(q: Seq<char>) -> bool {
    &&& q.len() >= 3
    &&& q[0] == ESC
    &&& q[1] == '['
    &&& '@' <= q.last() <= '~'
    &&& forall|i: int| 2 <= i < q.len() - 1 ==> !('@' <= #[trigger] q[i] <= '~')
}

/// Whether a text is an operating system command: an escape, a closing bracket, contents without an
/// escape or a bell, and either a bell or an escape and a backslash.
pub open spec fn is_system_command(q: Seq<char>) -> bool {
    let end = if q.last() == BEL {
        q.len() - 1
    } else {
        q.len() - 2
    };
    &&& 2 <= end
    &&& q[0] == ESC
    &&& q[1] == ']'
    &&& q.last() == BEL || (q[end] == ESC && q.last() == '\\')
    &&& forall|i: int| 2 <= i < end ==> (#[trigger] q[i]) != ESC && q[i] != BEL
}

proof fn lemma_csi_end_is(s: Seq<char>, i: int, end: int)
    requires
        0 <= i <= end < s.len(),
        '@' <= s[end] <= '~',
        forall|k: int| i <= k < end ==> !('@' <= #[trigger] s[k] <= '~'),
    ensures
        csi_end(s, i) == end + 1,
    decreases end - i,
{
    if i < end {
        lemma_csi_end_is(s, i + 1, end);
    }
}

proof fn lemma_osc_end_is(s: Seq<char>, i: int, end: int)
    requires
        0 <= i <= end < s.len(),
        forall|k: int| i <= k < end ==> (#[trigger] s[k]) != ESC && s[k] != BEL,
    ensures
        osc_end(s, i) == osc_end(s, end),
    decreases end - i,
{
    if i < end {
        lemma_osc_end_is(s, i + 1, end);
    }
}

/// The kinds of escape sequence: control sequences, operating system commands, and an escape with
/// any other character than a bracket.
pub proof fn lemma_kinds_of_sequence(q: Seq<char>)
    ensures
        is_control_sequence(q) ==> is_sequence(q),
        is_system_command(q) ==> is_sequence(q),
        q.len() == 2 && q[0] == ESC && q[1] != '[' && q[1] != ']' ==> is_sequence(q),
{
    if is_control_sequence(q) {
        assert forall|after: Seq<char>| sequence_end(#[trigger] (q + after), 0) == q.len() by {
            let s = q + after;
            assert forall|k: int| 2 <= k < q.len() - 1 implies !('@' <= #[trigger] s[k] <= '~') by {
                assert(s[k] == q[k]);
            }
            lemma_csi_end_is(s, 2, q.len() - 1);
        }
    }
    if is_system_command(q) {
        let end = if q.last() == BEL {
            q.len() - 1
        } else {
            q.len() - 2
        };
        assert forall|after: Seq<char>| sequence_end(#[trigger] (q + after), 0) == q.len() by {
            let s = q + after;
            assert forall|k: int| 2 <= k < end implies (#[trigger] s[k]) != ESC && s[k] != BEL by {
                assert(s[k] == q[k]);
            }
            lemma_osc_end_is(s, 2, end);
            assert(s[end] == q[end]);
            assert(s[q.len() - 1] == q.last());
        }
    }
}

/// Inside a system command, an escape character with anything but a backslash behind it does not end
/// the command.
pub proof fn lemma_escape_inside_a_command(inside: Seq<char>, c: char, rest: Seq<char>)
    requires
        !inside.contains('\x1b'),
        !inside.contains('\x07'),
        c != '\\',
    ensures
        plain_from(seq!['\x1b', ']'] + inside + seq!['\x1b', c] + rest, 0) == plain_from(
            seq!['\x1b', ']'] + rest,
            0,
        ),
{
    let a = seq!['\x1b', ']'] + inside + seq!['\x1b', c];
    let b = seq!['\x1b', ']'];
    let n = 2 + inside.len() as int;
    let all = a + rest;
    assert(all[0] == ESC && all[1] == ']');
    assert forall|k: int| 2 <= k < n implies (#[trigger] all[k]) != ESC && all[k] != BEL by {
        assert(all[k] == inside[k - 2]);
    }
    assert(all[n] == ESC && all[n + 1] == c);
    lemma_osc_end_is(all, 2, n);
    lemma_osc_end_behind(a, rest, 0);
    lemma_osc_end_behind(b, rest, 0);
    lemma_osc_end(rest, 0);
    let end = osc_end(rest, 0);
    lemma_plain_behind(a, rest, end);
    lemma_plain_behind(b, rest, end);
    assert((b + rest)[0] == ESC && (b + rest)[1] == ']');
}

} // verus!
