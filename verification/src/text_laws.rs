//! What holds of the parts that texts are taken apart into: of white space round a text, of lines and
//! fields, of numbers, of control sequences, of names, and of which of two texts comes first.
use crate::ansi;
use crate::names;
use crate::order;
use crate::text;
use vstd::prelude::*;

verus! {

/// Whether every character is white space.
pub open spec fn is_white(s: Seq<char>) -> bool {
    forall|i: int| 0 <= i < s.len() ==> text::white_space(#[trigger] s[i])
}

/// The characters that are white space.
pub open spec fn white_characters() -> Seq<char> {
    seq![
        '\u{9}',
        '\u{a}',
        '\u{b}',
        '\u{c}',
        '\u{d}',
        '\u{20}',
        '\u{85}',
        '\u{a0}',
        '\u{1680}',
        '\u{2000}',
        '\u{2001}',
        '\u{2002}',
        '\u{2003}',
        '\u{2004}',
        '\u{2005}',
        '\u{2006}',
        '\u{2007}',
        '\u{2008}',
        '\u{2009}',
        '\u{200a}',
        '\u{2028}',
        '\u{2029}',
        '\u{202f}',
        '\u{205f}',
        '\u{3000}',
    ]
}

/// Blanks, tabs and line ends are white space; what can be seen in a plain text is not. There are
/// twenty-five characters that are.
pub proof fn lemma_white_space(c: char)
    ensures
        text::white_space(c) <==> white_characters().contains(c),
        c == ' ' || c == '\t' || c == '\n' || c == '\r' ==> text::white_space(c),
        '!' <= c <= '~' ==> !text::white_space(c),
        c < '\t' || '\r' < c < ' ' ==> !text::white_space(c),
{
    let all = white_characters();
    if '\u{9}' <= c <= '\u{d}' {
        assert(all[c as int - 0x9] == c);
    } else if '\u{2000}' <= c <= '\u{200a}' {
        assert(all[c as int - 0x2000 + 9] == c);
    } else {
        assert(all[5] == '\u{20}' && all[6] == '\u{85}' && all[7] == '\u{a0}' && all[8]
            == '\u{1680}');
        assert(all[20] == '\u{2028}' && all[21] == '\u{2029}' && all[22] == '\u{202f}' && all[23]
            == '\u{205f}' && all[24] == '\u{3000}');
    }
}

proof fn lemma_trimmed_start_parts(s: Seq<char>) -> (front: Seq<char>)
    ensures
        s == front + text::trimmed_start(s),
        is_white(front),
        text::trimmed_start(s).len() > 0 ==> !text::white_space(text::trimmed_start(s)[0]),
    decreases s.len(),
{
    if s.len() > 0 && text::white_space(s[0]) {
        let less = lemma_trimmed_start_parts(s.drop_first());
        let front = seq![s[0]] + less;
        assert(s == seq![s[0]] + s.drop_first());
        assert(s == front + text::trimmed_start(s));
        assert forall|i: int| 0 <= i < front.len() implies text::white_space(
            #[trigger] front[i],
        ) by {
            if i > 0 {
                assert(front[i] == less[i - 1]);
            }
        }
        front
    } else {
        Seq::empty()
    }
}

proof fn lemma_trimmed_end_parts(s: Seq<char>) -> (back: Seq<char>)
    ensures
        s == text::trimmed_end(s) + back,
        is_white(back),
        text::trimmed_end(s).len() > 0 ==> !text::white_space(text::trimmed_end(s).last()),
    decreases s.len(),
{
    if s.len() > 0 && text::white_space(s.last()) {
        let less = lemma_trimmed_end_parts(s.drop_last());
        let back = less.push(s.last());
        assert(s == s.drop_last().push(s.last()));
        assert(s == text::trimmed_end(s) + back);
        back
    } else {
        Seq::empty()
    }
}

/// Trimming takes white space away at both ends, all of it and nothing else. The results are what was
/// taken away in front and behind.
pub proof fn lemma_trimming_takes_white_space(s: Seq<char>) -> (r: (Seq<char>, Seq<char>))
    ensures
        s == r.0 + text::trimmed(s) + r.1,
        is_white(r.0),
        is_white(r.1),
        text::trimmed(s).len() > 0 ==> !text::white_space(text::trimmed(s)[0])
            && !text::white_space(text::trimmed(s).last()),
        text::trimmed(s).len() == 0 <==> is_white(s),
{
    let front = lemma_trimmed_start_parts(s);
    let mid = text::trimmed_start(s);
    let back = lemma_trimmed_end_parts(mid);
    let t = text::trimmed(s);
    assert(s == front + t + back);
    if t.len() > 0 {
        assert(mid[0] == t[0]);
        assert(s[front.len() as int] == t[0]);
    } else {
        assert forall|i: int| 0 <= i < s.len() implies text::white_space(#[trigger] s[i]) by {
            if i < front.len() {
                assert(s[i] == front[i]);
            } else {
                assert(s[i] == back[i - front.len()]);
            }
        }
    }
    (front, back)
}

/// A text without white space at its ends stays as it is, whatever white space stands round it.
pub proof fn lemma_white_space_makes_no_difference(front: Seq<char>, s: Seq<char>, back: Seq<char>)
    requires
        is_white(front),
        is_white(back),
        s.len() > 0,
        !text::white_space(s[0]),
        !text::white_space(s.last()),
    ensures
        text::trimmed(front + s + back) == s,
{
    let all = front + s + back;
    let parts = lemma_trimming_takes_white_space(all);
    let t = text::trimmed(all);
    let n = front.len() as int;
    let m = parts.0.len() as int;
    assert(all[n] == s[0]);
    assert(t.len() > 0);
    assert(all[m] == t[0]);
    if n < m {
        assert(all[n] == parts.0[n]);
    }
    if m < n {
        assert(all[m] == front[m]);
    }
    let last = n + s.len() - 1;
    let end = m + t.len() - 1;
    assert(all[last] == s.last());
    assert(all[end] == t.last());
    if last < end {
        assert(all[end] == back[end - last - 1]);
    }
    if end < last {
        assert(all[last] == parts.1[last - end - 1]);
    }
    assert forall|k: int| 0 <= k < s.len() implies s[k] == t[k] by {
        assert(all[n + k] == s[k]);
        assert(all[m + k] == t[k]);
    }
    assert(t =~= s);
}

proof fn lemma_place_is(s: Seq<char>, c: char, i: int, end: int)
    requires
        0 <= i <= end <= s.len(),
        end < s.len() ==> s[end] == c,
        forall|k: int| i <= k < end ==> s[k] != c,
    ensures
        text::place_of(s, c, i) == end,
    decreases end - i,
{
    if i < end {
        lemma_place_is(s, c, i + 1, end);
    }
}

proof fn lemma_place_behind(a: Seq<char>, s: Seq<char>, c: char, i: int)
    requires
        0 <= i <= s.len(),
    ensures
        text::place_of(a + s, c, a.len() + i) == a.len() + text::place_of(s, c, i),
{
    text::lemma_place_of(s, c, i);
    let end = text::place_of(s, c, i);
    let all = a + s;
    assert forall|k: int| a.len() + i <= k < a.len() + end implies all[k] != c by {
        assert(all[k] == s[k - a.len()]);
    }
    lemma_place_is(all, c, a.len() + i, a.len() + end);
}

proof fn lemma_lines_behind(a: Seq<char>, s: Seq<char>, i: int)
    requires
        0 <= i,
    ensures
        text::lines_from(a + s, a.len() + i) == text::lines_from(s, i),
    decreases s.len() - i,
{
    if i < s.len() {
        lemma_place_behind(a, s, '\n', i);
        text::lemma_place_of(s, '\n', i);
        let end = text::place_of(s, '\n', i);
        let all = a + s;
        if end == s.len() {
            assert(all.skip(a.len() + i) =~= s.skip(i));
        } else {
            lemma_lines_behind(a, s, end + 1);
            assert(all.subrange(a.len() + i, a.len() + end) =~= s.subrange(i, end));
        }
    }
}

/// How a text is taken apart into lines: nothing has no lines; a text without a line feed is one line;
/// otherwise the first line is what comes before the first line feed, without the one carriage return
/// that may stand there, and the others are those of what follows.
pub proof fn lemma_lines_by_parts(line: Seq<char>, rest: Seq<char>)
    requires
        !line.contains('\n'),
    ensures
        text::lines_of(Seq::empty()) == Seq::<Seq<char>>::empty(),
        line.len() > 0 ==> text::lines_of(line) == seq![line],
        line.len() == 0 || line.last() != '\r' ==> text::lines_of(line + seq!['\n'] + rest)
            == seq![line] + text::lines_of(rest),
        text::lines_of(line + seq!['\r', '\n'] + rest) == seq![line] + text::lines_of(rest),
{
    if line.len() > 0 {
        lemma_place_is(line, '\n', 0, line.len() as int);
        assert(line.skip(0) =~= line);
    }
    let a = line + seq!['\n'];
    let b = line + seq!['\r', '\n'];
    let n = line.len() as int;
    assert forall|k: int| 0 <= k < n implies (a + rest)[k] != '\n' by {
        assert((a + rest)[k] == line[k]);
    }
    assert((a + rest)[n] == '\n');
    lemma_place_is(a + rest, '\n', 0, n);
    lemma_lines_behind(a, rest, 0);
    assert((a + rest).subrange(0, n) =~= line);
    assert forall|k: int| 0 <= k < n + 1 implies (b + rest)[k] != '\n' by {
        if k < n {
            assert((b + rest)[k] == line[k]);
        }
    }
    assert((b + rest)[n + 1] == '\n');
    lemma_place_is(b + rest, '\n', 0, n + 1);
    lemma_lines_behind(b, rest, 0);
    assert((b + rest).subrange(0, n + 1) =~= line.push('\r'));
    assert(line.push('\r').drop_last() =~= line);
}

proof fn lemma_fields_behind(a: Seq<char>, s: Seq<char>, sep: char, i: int, n: nat)
    requires
        0 <= i <= s.len(),
    ensures
        text::fields_from(a + s, sep, a.len() + i, n) == text::fields_from(s, sep, i, n),
    decreases n,
{
    lemma_place_behind(a, s, sep, i);
    text::lemma_place_of(s, sep, i);
    let end = text::place_of(s, sep, i);
    let all = a + s;
    assert(all.skip(a.len() + i) =~= s.skip(i));
    if n > 1 && end < s.len() {
        lemma_fields_behind(a, s, sep, end + 1, (n - 1) as nat);
        assert(all.subrange(a.len() + i, a.len() + end) =~= s.subrange(i, end));
    }
}

/// How a text is taken apart into at most `n` fields: the first is what comes before the first
/// separator, the others are those of what follows; the last takes all that is left.
pub proof fn lemma_fields_by_parts(field: Seq<char>, rest: Seq<char>, sep: char, n: nat)
    requires
        !field.contains(sep),
    ensures
        text::fields_of(rest, sep, 1) == seq![rest],
        text::fields_of(field, sep, n) == seq![field],
        n >= 2 ==> text::fields_of(field + seq![sep] + rest, sep, n) == seq![field]
            + text::fields_of(rest, sep, (n - 1) as nat),
{
    assert(rest.skip(0) =~= rest);
    assert(field.skip(0) =~= field);
    lemma_place_is(field, sep, 0, field.len() as int);
    let a = field + seq![sep];
    let m = field.len() as int;
    if n >= 2 {
        assert forall|k: int| 0 <= k < m implies (a + rest)[k] != sep by {
            assert((a + rest)[k] == field[k]);
        }
        assert((a + rest)[m] == sep);
        lemma_place_is(a + rest, sep, 0, m);
        lemma_fields_behind(a, rest, sep, 0, (n - 1) as nat);
        assert((a + rest).subrange(0, m) =~= field);
    }
}

/// Whether a character is a digit.
pub open spec fn is_digit(c: char) -> bool {
    '0' <= c <= '9'
}

/// What a digit counts.
pub open spec fn digit_value(c: char) -> int {
    c as int - '0' as int
}

proof fn lemma_digits_push(s: Seq<char>, c: char)
    ensures
        text::all_digits(s.push(c)) <==> text::all_digits(s) && is_digit(c),
        text::digits_value(s.push(c)) == 10 * text::digits_value(s) + digit_value(c),
{
    assert(s.push(c).drop_last() =~= s);
    if text::all_digits(s.push(c)) {
        assert forall|i: int| 0 <= i < s.len() implies '0' <= #[trigger] s[i] <= '9' by {
            assert(s.push(c)[i] == s[i]);
        }
        assert(s.push(c)[s.len() as int] == c);
    }
}

proof fn lemma_digits_not_negative(s: Seq<char>)
    requires
        text::all_digits(s),
    ensures
        text::digits_value(s) >= 0,
    decreases s.len(),
{
    if s.len() > 0 {
        lemma_digits_push(s.drop_last(), s.last());
        assert(s.drop_last().push(s.last()) =~= s);
        lemma_digits_not_negative(s.drop_last());
    }
}

/// How a number is read: digit by digit, after one plus sign or none; a character that is no digit, and
/// a number that does not fit, end it.
pub proof fn lemma_number_by_digits(s: Seq<char>, c: char)
    ensures
        text::number_of(Seq::empty()) is None,
        text::number_of(seq!['+']) is None,
        is_digit(c) ==> text::number_of(seq![c]) == Some(digit_value(c) as u64),
        is_digit(c) ==> text::number_of(seq!['+', c]) == Some(digit_value(c) as u64),
        s.len() > 0 && !is_digit(c) ==> text::number_of(s.push(c)) is None,
        c != '+' && !is_digit(c) ==> text::number_of(seq![c]) is None,
        s.len() > 0 && s != seq!['+'] && text::number_of(s) is None ==> text::number_of(
            s.push(c),
        ) is None,
        text::number_of(s) is Some && is_digit(c) ==> ({
            let value = 10 * text::number_of(s)->0 + digit_value(c);
            text::number_of(s.push(c)) == if value <= 0xffff_ffff_ffff_ffff {
                Some(value as u64)
            } else {
                None
            }
        }),
{
    reveal_with_fuel(text::digits_value, 3);
    let none = Seq::<char>::empty();
    assert(seq!['+'].drop_first() =~= none);
    assert(seq![c] =~= none.push(c));
    lemma_digits_push(none, c);
    assert(seq!['+', c].drop_first() =~= none.push(c));
    let digits = if s.len() > 0 && s[0] == '+' {
        s.drop_first()
    } else {
        s
    };
    lemma_digits_push(digits, c);
    if s.len() > 0 {
        assert(s.push(c)[0] == s[0]);
        if s[0] == '+' {
            assert(s.push(c).drop_first() =~= digits.push(c));
            if digits.len() == 0 {
                assert(s =~= seq!['+']);
            }
        }
        if text::all_digits(digits) {
            lemma_digits_not_negative(digits);
        }
    }
}

/// A number that is written in digits is read back; it starts with a zero only if it is zero.
pub proof fn lemma_decimal_is_read_back(n: nat)
    ensures
        text::decimal_of(n).len() > 0,
        forall|i: int|
            0 <= i < text::decimal_of(n).len() ==> is_digit(#[trigger] text::decimal_of(n)[i]),
        text::decimal_of(n)[0] == '0' ==> n == 0,
        text::decimal_of(0) == seq!['0'],
        n <= 0xffff_ffff_ffff_ffff ==> text::number_of(text::decimal_of(n)) == Some(n as u64),
    decreases n,
{
    let c = text::digit_char((n % 10) as int);
    assert(is_digit(c) && digit_value(c) == n % 10);
    lemma_number_by_digits(Seq::empty(), c);
    if n >= 10 {
        lemma_decimal_is_read_back(n / 10);
        lemma_number_by_digits(text::decimal_of(n / 10), c);
    }
}

/// Which of two texts comes first: the one that is the start of the other, or else the one whose
/// character is smaller where they first differ.
pub proof fn lemma_first_difference_decides(a: Seq<char>, b: Seq<char>, k: int)
    requires
        0 <= k <= a.len(),
        k <= b.len(),
        forall|i: int| 0 <= i < k ==> #[trigger] a[i] == b[i],
        k < a.len() && k < b.len() ==> a[k] != b[k],
    ensures
        k == a.len() || k == b.len() ==> order::text_before(a, b) == (a.len() < b.len()),
        k < a.len() && k < b.len() ==> order::text_before(a, b) == (a[k] < b[k]),
    decreases k,
{
    if k > 0 {
        assert(a[0] == b[0]);
        let x = a.drop_first();
        let y = b.drop_first();
        assert forall|i: int| 0 <= i < k - 1 implies #[trigger] x[i] == y[i] by {
            assert(x[i] == a[i + 1]);
        }
        lemma_first_difference_decides(x, y, k - 1);
    }
}

/// Whether a character can stand in the name of a session.
pub open spec fn stands_in_names(c: char) -> bool {
    is_digit(c) || 'A' <= c <= 'Z' || 'a' <= c <= 'z' || c == '_' || c == '-'
}

/// Whether a character parts the words of a name.
pub open spec fn parts_words(c: char) -> bool {
    c == '.' || c == ' ' || c == '/' || c == ':'
}

/// Whether the characters of a text that can be used in a name are those at `at`, all of them and in
/// order.
pub open spec fn are_usable(s: Seq<char>, at: Seq<int>) -> bool {
    &&& forall|k: int|
        0 <= k < at.len() ==> 0 <= #[trigger] at[k] < s.len() && (stands_in_names(s[at[k]])
            || parts_words(s[at[k]]))
    &&& forall|j: int, k: int| 0 <= j < k < at.len() ==> #[trigger] at[j] < #[trigger] at[k]
    &&& forall|i: int|
        0 <= i < s.len() && (stands_in_names(#[trigger] s[i]) || parts_words(s[i]))
            ==> at.contains(i)
}

proof fn lemma_kept_is_usable(s: Seq<char>) -> (at: Seq<int>)
    ensures
        are_usable(s, at),
        ({
            let kept = s.filter_map(|c: char| names::name_char_for(c));
            &&& kept.len() == at.len()
            &&& forall|k: int|
                0 <= k < at.len() ==> kept[k] == if stands_in_names(s[#[trigger] at[k]]) {
                    s[at[k]]
                } else {
                    '_'
                }
        }),
    decreases s.len(),
{
    reveal(Seq::filter_map);
    if s.len() == 0 {
        Seq::empty()
    } else {
        let less = s.drop_last();
        let before = lemma_kept_is_usable(less);
        let n = s.len() - 1;
        let at = if stands_in_names(s.last()) || parts_words(s.last()) {
            before.push(n)
        } else {
            before
        };
        assert(s =~= less.push(s.last()));
        assert forall|k: int| 0 <= k < before.len() implies s[#[trigger] before[k]]
            == less[before[k]] by {}
        assert forall|i: int|
            0 <= i < s.len() && (stands_in_names(#[trigger] s[i]) || parts_words(
                s[i],
            )) implies at.contains(i) by {
            if i < n {
                assert(less[i] == s[i]);
                let k = choose|k: int| 0 <= k < before.len() && before[k] == i;
                assert(at[k] == i);
            } else {
                assert(at[before.len() as int] == i);
            }
        }
        at
    }
}

/// How a text becomes a name: letters of the plain alphabet, digits, underscores and hyphens stay, dots,
/// blanks, slashes and colons become underscores, and all else is left out; where nothing is left, the
/// name is a fixed one. The result is which characters were used.
pub proof fn lemma_name_is_made_of_the_text(s: Seq<char>) -> (at: Seq<int>)
    ensures
        are_usable(s, at),
        at.len() == 0 ==> names::sanitized(s) == "session"@,
        at.len() > 0 ==> {
            &&& names::sanitized(s).len() == at.len()
            &&& forall|k: int|
                0 <= k < at.len() ==> names::sanitized(s)[k] == if stands_in_names(
                    s[#[trigger] at[k]],
                ) {
                    s[at[k]]
                } else {
                    '_'
                }
        },
{
    lemma_kept_is_usable(s)
}

proof fn lemma_csi_end_is_never(s: Seq<char>, i: int)
    requires
        0 <= i,
        forall|k: int| i <= k < s.len() ==> !('@' <= #[trigger] s[k] <= '~'),
    ensures
        ansi::csi_end(s, i) == s.len(),
    decreases s.len() - i,
{
    if i < s.len() {
        lemma_csi_end_is_never(s, i + 1);
    }
}

proof fn lemma_osc_end_is_later(s: Seq<char>, i: int, end: int)
    requires
        0 <= i <= end <= s.len(),
        forall|k: int| i <= k < end ==> (#[trigger] s[k]) != '\x1b' && s[k] != '\x07',
    ensures
        ansi::osc_end(s, i) == ansi::osc_end(s, end),
    decreases end - i,
{
    if i < end {
        assert(s[i] != '\x1b');
        lemma_osc_end_is_later(s, i + 1, end);
    }
}

/// An escape character starts a sequence; one that the text breaks off in leaves no trace either.
pub proof fn lemma_broken_sequence_leaves_no_trace(inside: Seq<char>)
    ensures
        ansi::plain_from(seq!['\x1b'], 0) == Seq::<char>::empty(),
        (forall|k: int| 0 <= k < inside.len() ==> !('@' <= #[trigger] inside[k] <= '~'))
            ==> ansi::plain_from(seq!['\x1b', '['] + inside, 0) == Seq::<char>::empty(),
        (forall|k: int|
            0 <= k < inside.len() ==> (#[trigger] inside[k]) != '\x1b' && inside[k] != '\x07')
            ==> ansi::plain_from(seq!['\x1b', ']'] + inside, 0) == Seq::<char>::empty(),
{
    reveal_with_fuel(ansi::plain_from, 3);
    let a = seq!['\x1b', '['] + inside;
    let b = seq!['\x1b', ']'] + inside;
    if forall|k: int| 0 <= k < inside.len() ==> !('@' <= #[trigger] inside[k] <= '~') {
        assert forall|k: int| 2 <= k < a.len() implies !('@' <= #[trigger] a[k] <= '~') by {
            assert(a[k] == inside[k - 2]);
        }
        lemma_csi_end_is_never(a, 2);
    }
    if forall|k: int|
        0 <= k < inside.len() ==> (#[trigger] inside[k]) != '\x1b' && inside[k] != '\x07' {
        assert forall|k: int| 2 <= k < b.len() implies (#[trigger] b[k]) != '\x1b' && b[k]
            != '\x07' by {
            assert(b[k] == inside[k - 2]);
        }
        lemma_osc_end_is_later(b, 2, b.len() as int);
    }
}

} // verus!
