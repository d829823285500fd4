//! Fuzzy matching of what the user types against names and paths.
use crate::text;
use vstd::prelude::*;
use vstd::utf8::*;

verus! {

/// The length of a text in bytes.
pub open spec fn byte_len(s: Seq<char>) -> int {
    encode_utf8(s).len() as int
}

/// Whether `n` stands in `h` from character `k` on.
pub open spec fn occurs_at(h: Seq<char>, n: Seq<char>, k: int) -> bool {
    0 <= k && k + n.len() <= h.len() && h.subrange(k, k + n.len()) == n
}

/// The first place at or after character `from` at which `n` stands in `h`.
pub open spec fn found_from(h: Seq<char>, n: Seq<char>, from: int) -> Option<int>
    decreases h.len() - from,
{
    if from + n.len() > h.len() || from < 0 {
        None
    } else if occurs_at(h, n, from) {
        Some(from)
    } else if from == h.len() {
        None
    } else {
        found_from(h, n, from + 1)
    }
}

/// Where the characters of `n`, each taken as early as possible from `from` on, have all been met
/// in order in `h`: the position behind the last of them.
pub open spec fn in_order_end(h: Seq<char>, n: Seq<char>, from: int) -> Option<int>
    decreases h.len() - from,
{
    if n.len() == 0 {
        Some(from)
    } else if from >= h.len() {
        None
    } else if h[from] == n[0] {
        in_order_end(h, n.drop_first(), from + 1)
    } else {
        in_order_end(h, n, from + 1)
    }
}

/// How well `h` matches the non-empty `n`, both in lowercase: best when they are equal, then when
/// `h` starts with `n`, then when it holds `n`, then when it holds the characters of `n` in order.
/// Within each of these a shorter `h`, an earlier match and fewer skipped characters are better.
pub open spec fn match_quality(h: Seq<char>, n: Seq<char>) -> Option<int> {
    if h == n {
        Some(10_000)
    } else if occurs_at(h, n, 0) {
        Some(9_000 - byte_len(h))
    } else if found_from(h, n, 0) is Some {
        Some(8_000 - byte_len(h.take(found_from(h, n, 0)->0)) - byte_len(h))
    } else if in_order_end(h, n, 0) is Some {
        let first = found_from(h, n.take(1), 0)->0;
        let skipped = in_order_end(h, n, 0)->0 - n.len();
        Some(5_000 - first - skipped - byte_len(h))
    } else {
        None
    }
}

/// A number kept in 64 bits with a sign.
pub open spec fn wrapped(x: int) -> i64 {
    ((x + 0x8000_0000_0000_0000) % 0x1_0000_0000_0000_0000 - 0x8000_0000_0000_0000) as i64
}

/// The score of two lowercase texts.
pub open spec fn lowered_score_of(h: Seq<char>, n: Seq<char>) -> Option<i64> {
    match match_quality(h, n) {
        Some(quality) => Some(wrapped(quality)),
        None => None,
    }
}

/// The score of `haystack` for `needle`, in any case of letters.
pub open spec fn score_of(haystack: Seq<char>, needle: Seq<char>) -> Option<i64> {
    if needle.len() == 0 {
        Some(0)
    } else {
        lowered_score_of(text::lowercase(haystack), text::lowercase(needle))
    }
}

/// A score lowered by the given amount.
pub open spec fn lessened(score: Option<i64>, by: int) -> Option<i64> {
    match score {
        Some(x) => Some(wrapped(x - by)),
        None => None,
    }
}

/// `base - amount`, kept in 64 bits.
fn wrapped_difference(base: i64, amount: u128) -> (r: i64)
    requires
        amount <= 0x100_0000_0000_0000_0000,
    ensures
        r == wrapped(base - amount),
{
    let shifted: i128 = base as i128 - amount as i128 + 0x8000_0000_0000_0000
        + 0x1_0000_0000_0000_0000 * 0x1000;
    let rest: u128 = shifted as u128 % 0x1_0000_0000_0000_0000;
    assert(rest == (base - amount + 0x8000_0000_0000_0000) % 0x1_0000_0000_0000_0000);
    (rest as i128 - 0x8000_0000_0000_0000) as i64
}

/// A score lowered by the given amount.
pub fn lessened_score(score: i64, by: u64) -> (r: i64)
    ensures
        r == wrapped(score - by),
{
    wrapped_difference(score, by as u128)
}

proof fn lemma_encode_push(s: Seq<char>, c: char)
    ensures
        encode_utf8(s.push(c)) == encode_utf8(s) + encode_scalar(c as u32),
    decreases s.len(),
{
    let t = s.push(c);
    if s.len() == 0 {
        assert(t.drop_first() =~= Seq::<char>::empty());
        assert(encode_utf8(t.drop_first()) =~= Seq::<u8>::empty());
        assert(encode_utf8(s) =~= Seq::<u8>::empty());
        assert(encode_utf8(t) =~= encode_scalar(c as u32));
    } else {
        assert(t.drop_first() =~= s.drop_first().push(c));
        lemma_encode_push(s.drop_first(), c);
        assert(encode_utf8(t) =~= encode_utf8(s) + encode_scalar(c as u32));
    }
}

/// The number of bytes of the first `to` characters.
fn byte_count(chars: &Vec<char>, to: usize) -> (n: u128)
    requires
        to <= chars.len(),
    ensures
        n == byte_len(chars@.take(to as int)),
        n <= 4 * to,
{
    let mut n: u128 = 0;
    let mut i: usize = 0;
    assert(chars@.take(0) =~= Seq::<char>::empty());
    while i < to
        invariant
            i <= to <= chars.len(),
            n == byte_len(chars@.take(i as int)),
            n <= 4 * i,
        decreases to - i,
    {
        let code: u32 = chars[i] as u32;
        proof {
            char_is_scalar(chars@[i as int]);
            assert(chars@.take(i + 1) =~= chars@.take(i as int).push(chars@[i as int]));
            lemma_encode_push(chars@.take(i as int), chars@[i as int]);
        }
        if code < 0x80 {
            n = n + 1;
        } else if code < 0x800 {
            n = n + 2;
        } else if code < 0x1_0000 {
            n = n + 3;
        } else {
            n = n + 4;
        }
        i = i + 1;
    }
    n
}

/// Whether `n` stands in `h` from character `k` on.
fn stands_at(h: &Vec<char>, n: &Vec<char>, k: usize) -> (r: bool)
    ensures
        r == occurs_at(h@, n@, k as int),
{
    if k > h.len() || n.len() > h.len() - k {
        return false;
    }
    let mut i: usize = 0;
    while i < n.len()
        invariant
            k + n.len() <= h.len(),
            i <= n.len(),
            forall|j: int| 0 <= j < i ==> h@[k + j] == #[trigger] n@[j],
        decreases n.len() - i,
    {
        if h[k + i] != n[i] {
            assert(h@.subrange(k as int, k + n.len())[i as int] != n@[i as int]);
            return false;
        }
        i = i + 1;
    }
    assert(h@.subrange(k as int, k + n.len()) =~= n@);
    true
}

/// The first place at which `n` stands in `h`.
fn find(h: &Vec<char>, n: &Vec<char>) -> (r: Option<usize>)
    ensures
        r is Some <==> found_from(h@, n@, 0) is Some,
        r matches Some(k) ==> found_from(h@, n@, 0) == Some(k as int) && k <= h.len(),
{
    let mut k: usize = 0;
    while k <= h.len() && n.len() <= h.len() - k
        invariant
            k <= h.len(),
            found_from(h@, n@, 0) == found_from(h@, n@, k as int),
        decreases h.len() - k,
    {
        if stands_at(h, n, k) {
            return Some(k);
        }
        if k == h.len() {
            return None;
        }
        k = k + 1;
    }
    None
}

/// The score of two texts that are in lowercase already: `None` where `needle`'s characters do not
/// all occur in `haystack` in order. Where lengths reach 64 bits the score wraps.
pub fn lowered_score(haystack: &str, needle: &str) -> (r: Option<i64>)
    ensures
        r == lowered_score_of(haystack@, needle@),
{
    let h: Vec<char> = text::chars_of(haystack);
    let n: Vec<char> = text::chars_of(needle);
    let total: u128 = byte_count(&h, h.len());
    assert(h@.take(h.len() as int) =~= h@);
    if stands_at(&h, &n, 0) {
        if h.len() == n.len() {
            assert(h@.subrange(0, n.len() as int) =~= h@);
            return Some(wrapped_difference(10_000, 0));
        }
        return Some(wrapped_difference(9_000, total));
    }
    assert(h@ != n@) by {
        assert(h@.subrange(0, h.len() as int) =~= h@);
    }
    if let Some(k) = find(&h, &n) {
        let position: u128 = byte_count(&h, k);
        return Some(wrapped_difference(8_000, position + total));
    }
    let mut met: usize = 0;
    let mut first: usize = 0;
    let mut i: usize = 0;
    assert(n@.skip(0) =~= n@);
    if n.len() == 0 {
        assert(h@.subrange(0, 0) =~= n@);
        assert(occurs_at(h@, n@, 0));
    }
    while i < h.len()
        invariant
            i <= h.len(),
            met < n.len(),
            met <= i,
            h@ == haystack@,
            n@ == needle@,
            total == byte_len(h@),
            total <= 4 * h.len(),
            h@ != n@,
            !occurs_at(h@, n@, 0),
            found_from(h@, n@, 0) is None,
            in_order_end(h@, n@, 0) == in_order_end(h@, n@.skip(met as int), i as int),
            met == 0 ==> found_from(h@, n@.take(1), 0) == found_from(h@, n@.take(1), i as int),
            met > 0 ==> found_from(h@, n@.take(1), 0) == Some(first as int) && first < i,
        decreases h.len() - i,
    {
        let ghost one = n@.take(1);
        if h[i] == n[met] {
            if met == 0 {
                first = i;
                assert(h@.subrange(i as int, i + 1) =~= one);
            }
            assert(n@.skip(met as int).drop_first() =~= n@.skip(met + 1));
            met = met + 1;
            if met == n.len() {
                let skipped: usize = i + 1 - met;
                assert(in_order_end(h@, n@.skip(met as int), i + 1) == Some(i + 1));
                assert(in_order_end(h@, n@, 0) == Some(i + 1));
                assert(found_from(h@, n@.take(1), 0) == Some(first as int));
                return Some(
                    wrapped_difference(5_000, first as u128 + skipped as u128 + total),
                );
            }
        } else if met == 0 {
            assert(h@.subrange(i as int, i + 1)[0] != one[0]);
        }
        i = i + 1;
    }
    None
}

/// How well `haystack` matches what the user typed, in any case of letters: larger is better, and
/// `None` is no match.
pub fn fuzzy_score(haystack: &str, needle: &str) -> (r: Option<i64>)
    ensures
        r == score_of(haystack@, needle@),
{
    if needle.is_empty() {
        return Some(0);
    }
    let haystack: String = haystack.to_lowercase();
    let needle: String = needle.to_lowercase();
    lowered_score(haystack.as_str(), needle.as_str())
}

/// Whether the characters of `n` stand in `h` in order, at the places that `at` lists.
pub open spec fn stands_in_order(h: Seq<char>, n: Seq<char>, at: Seq<int>) -> bool {
    &&& at.len() == n.len()
    &&& forall|i: int| 0 <= i < at.len() ==> 0 <= #[trigger] at[i] < h.len() && h[at[i]] == n[i]
    &&& forall|i: int, j: int| 0 <= i < j < at.len() ==> #[trigger] at[i] < #[trigger] at[j]
}

proof fn lemma_in_order_complete(h: Seq<char>, n: Seq<char>, from: int, at: Seq<int>)
    requires
        stands_in_order(h, n, at),
        0 <= from,
        at.len() > 0 ==> from <= at[0],
    ensures
        in_order_end(h, n, from) is Some,
    decreases h.len() - from,
{
    if n.len() > 0 {
        let rest = at.drop_first();
        if h[from] == n[0] {
            assert(stands_in_order(h, n.drop_first(), rest)) by {
                assert forall|i: int| 0 <= i < rest.len() implies 0 <= #[trigger] rest[i]
                    < h.len() && h[rest[i]] == n.drop_first()[i] by {
                    assert(rest[i] == at[i + 1]);
                }
            }
            if rest.len() > 0 {
                assert(at[0] < at[1]);
            }
            lemma_in_order_complete(h, n.drop_first(), from + 1, rest);
        } else {
            assert(at[0] != from);
            lemma_in_order_complete(h, n, from + 1, at);
        }
    }
}

proof fn lemma_in_order_sound(h: Seq<char>, n: Seq<char>, from: int) -> (at: Seq<int>)
    requires
        in_order_end(h, n, from) is Some,
        0 <= from,
    ensures
        stands_in_order(h, n, at),
        at.len() > 0 ==> from <= at[0],
    decreases h.len() - from,
{
    if n.len() == 0 {
        Seq::empty()
    } else if h[from] == n[0] {
        let rest = lemma_in_order_sound(h, n.drop_first(), from + 1);
        let at = seq![from] + rest;
        assert forall|i: int| 0 <= i < at.len() implies 0 <= #[trigger] at[i] < h.len() && h[at[i]]
            == n[i] by {
            if i > 0 {
                assert(at[i] == rest[i - 1]);
                assert(n[i] == n.drop_first()[i - 1]);
            }
        }
        assert forall|i: int, j: int| 0 <= i < j < at.len() implies #[trigger] at[i]
            < #[trigger] at[j] by {
            assert(at[j] == rest[j - 1]);
            if i > 0 {
                assert(at[i] == rest[i - 1]);
            } else if j > 1 {
                assert(rest[0] < rest[j - 1]);
            }
        }
        at
    } else {
        lemma_in_order_sound(h, n, from + 1)
    }
}

proof fn lemma_found(h: Seq<char>, n: Seq<char>, from: int)
    requires
        0 <= from,
    ensures
        found_from(h, n, from) matches Some(k) ==> from <= k && occurs_at(h, n, k),
        found_from(h, n, from) is Some <==> exists|k: int| from <= k && #[trigger] occurs_at(h, n, k),
    decreases h.len() - from,
{
    if from + n.len() <= h.len() && !occurs_at(h, n, from) && from != h.len() {
        lemma_found(h, n, from + 1);
        if exists|k: int| from <= k && #[trigger] occurs_at(h, n, k) {
            let k = choose|k: int| from <= k && #[trigger] occurs_at(h, n, k);
            assert(from + 1 <= k);
        }
    }
}

proof fn lemma_occurrence_in_order(h: Seq<char>, n: Seq<char>, k: int) -> (at: Seq<int>)
    requires
        occurs_at(h, n, k),
    ensures
        stands_in_order(h, n, at),
{
    let at = Seq::new(n.len(), |i: int| k + i);
    assert forall|i: int| 0 <= i < at.len() implies 0 <= #[trigger] at[i] < h.len() && h[at[i]]
        == n[i] by {
        assert(h.subrange(k, k + n.len())[i] == n[i]);
    }
    at
}

/// A text matches exactly when it holds the characters asked for in order.
pub proof fn lemma_match_is_in_order(h: Seq<char>, n: Seq<char>)
    ensures
        match_quality(h, n) is Some <==> exists|at: Seq<int>| #[trigger] stands_in_order(h, n, at),
{
    lemma_found(h, n, 0);
    if h == n {
        assert(h.subrange(0, h.len() as int) =~= h);
        assert(occurs_at(h, n, 0));
        let at = lemma_occurrence_in_order(h, n, 0);
    } else if occurs_at(h, n, 0) {
        let at = lemma_occurrence_in_order(h, n, 0);
    } else if found_from(h, n, 0) is Some {
        let at = lemma_occurrence_in_order(h, n, found_from(h, n, 0)->0);
    } else if in_order_end(h, n, 0) is Some {
        let at = lemma_in_order_sound(h, n, 0);
    }
    if exists|at: Seq<int>| #[trigger] stands_in_order(h, n, at) {
        let at = choose|at: Seq<int>| #[trigger] stands_in_order(h, n, at);
        lemma_in_order_complete(h, n, 0, at);
    }
}

proof fn lemma_in_order_end_bound(h: Seq<char>, n: Seq<char>, from: int)
    requires
        0 <= from,
    ensures
        in_order_end(h, n, from) matches Some(end) ==> from + n.len() <= end && (end <= h.len()
            || n.len() == 0),
    decreases h.len() - from,
{
    if n.len() > 0 && from < h.len() {
        if h[from] == n[0] {
            lemma_in_order_end_bound(h, n.drop_first(), from + 1);
        } else {
            lemma_in_order_end_bound(h, n, from + 1);
        }
    }
}

/// Nothing scores as high as an equal text.
pub proof fn lemma_equal_text_is_best(h: Seq<char>, other: Seq<char>, n: Seq<char>)
    requires
        h == n,
        other != n,
    ensures
        match_quality(h, n) is Some,
        match_quality(other, n) matches Some(q) ==> q < match_quality(h, n)->0,
{
    lemma_found(other, n.take(1), 0);
    lemma_in_order_end_bound(other, n, 0);
    if n.len() == 0 {
        assert(other.subrange(0, 0) =~= n);
        assert(occurs_at(other, n, 0));
    } else if in_order_end(other, n, 0) is Some {
        let at = lemma_in_order_sound(other, n, 0);
        assert(other.subrange(at[0], at[0] + 1) =~= n.take(1));
        assert(occurs_at(other, n.take(1), at[0]));
    }
}

/// For one text, what it starts with scores higher than what it holds further in or what it only
/// holds scattered; and what it holds within its first three thousand bytes scores higher than what
/// it only holds scattered.
pub proof fn lemma_kinds_of_match(h: Seq<char>, start: Seq<char>, inner: Seq<char>, loose: Seq<char>)
    requires
        occurs_at(h, start, 0),
        start != h,
        found_from(h, inner, 0) is Some,
        !occurs_at(h, inner, 0),
        found_from(h, loose, 0) is None,
        in_order_end(h, loose, 0) is Some,
    ensures
        match_quality(h, start)->0 > match_quality(h, inner)->0,
        match_quality(h, start)->0 > match_quality(h, loose)->0,
        byte_len(h.take(found_from(h, inner, 0)->0)) < 3_000 ==> match_quality(h, inner)->0
            > match_quality(h, loose)->0,
{
    assert(h.subrange(0, h.len() as int) =~= h);
    assert(inner != h);
    if loose == h {
        assert(occurs_at(h, loose, 0));
        lemma_found(h, loose, 0);
    }
    if occurs_at(h, loose, 0) {
        lemma_found(h, loose, 0);
    }
    lemma_in_order_end_bound(h, loose, 0);
    if loose.len() > 0 {
        lemma_found(h, loose.take(1), 0);
        let at = lemma_in_order_sound(h, loose, 0);
        assert(h.subrange(at[0], at[0] + 1) =~= loose.take(1));
        assert(occurs_at(h, loose.take(1), at[0]));
    } else {
        assert(h.subrange(0, 0) =~= loose);
        assert(occurs_at(h, loose, 0));
        lemma_found(h, loose, 0);
    }
}

/// Of two texts that start with what was typed, the shorter one scores higher.
pub proof fn lemma_shorter_is_better(h: Seq<char>, longer: Seq<char>, n: Seq<char>)
    requires
        occurs_at(h, n, 0),
        occurs_at(longer, n, 0),
        longer != n,
        byte_len(h) < byte_len(longer),
    ensures
        match_quality(h, n)->0 > match_quality(longer, n)->0,
{
}

proof fn lemma_byte_len_of_start(s: Seq<char>, k: int)
    requires
        0 <= k <= s.len(),
    ensures
        k <= byte_len(s.take(k)) <= byte_len(s),
    decreases s.len(),
{
    if s.len() == 0 {
        assert(s.take(k) =~= s);
    } else {
        let less = s.drop_last();
        assert(s =~= less.push(s.last()));
        char_is_scalar(s.last());
        lemma_encode_push(less, s.last());
        if k < s.len() {
            lemma_byte_len_of_start(less, k);
            assert(s.take(k) =~= less.take(k));
        } else {
            lemma_byte_len_of_start(less, k - 1);
            assert(less.take(k - 1) =~= less);
            assert(s.take(k) =~= s);
        }
    }
}

/// The range of qualities.
pub proof fn lemma_quality_range(h: Seq<char>, n: Seq<char>)
    ensures
        match_quality(h, n) matches Some(quality) ==> -3 * byte_len(h) <= quality <= 10_000,
{
    lemma_byte_len_of_start(h, h.len() as int);
    assert(h.take(h.len() as int) =~= h);
    lemma_found(h, n, 0);
    if h == n || occurs_at(h, n, 0) {
    } else if found_from(h, n, 0) is Some {
        lemma_byte_len_of_start(h, found_from(h, n, 0)->0);
    } else if in_order_end(h, n, 0) is Some {
        lemma_in_order_end_bound(h, n, 0);
        if n.len() == 0 {
            assert(h.subrange(0, 0) =~= n);
            assert(occurs_at(h, n, 0));
        }
        lemma_found(h, n.take(1), 0);
        let at = lemma_in_order_sound(h, n, 0);
        assert(h.subrange(at[0], at[0] + 1) =~= n.take(1));
        assert(occurs_at(h, n.take(1), at[0]));
    }
}

/// For a text of at most 2^61 bytes the score is the quality of the match itself: it does not wrap.
pub proof fn lemma_score_is_quality(h: Seq<char>, n: Seq<char>)
    requires
        byte_len(h) <= 0x2000_0000_0000_0000,
    ensures
        lowered_score_of(h, n) matches Some(score) ==> match_quality(h, n) == Some(score as int),
        lowered_score_of(h, n) is None ==> match_quality(h, n) is None,
{
    lemma_quality_range(h, n);
    if match_quality(h, n) is Some {
        let quality = match_quality(h, n)->0;
        assert(wrapped(quality) == quality);
    }
}

/// For one thing that was typed, a text that equals it scores higher than one that starts with it,
/// one that holds it further in, and one that only holds it scattered. The other three come in this
/// order too, as long as the earlier text is not so much longer that its bytes outweigh its kind.
pub proof fn lemma_kinds_of_text(n: Seq<char>, start: Seq<char>, inner: Seq<char>, loose: Seq<char>)
    requires
        occurs_at(start, n, 0),
        start != n,
        found_from(inner, n, 0) is Some,
        !occurs_at(inner, n, 0),
        found_from(loose, n, 0) is None,
        in_order_end(loose, n, 0) is Some,
    ensures
        ({
            let place = byte_len(inner.take(found_from(inner, n, 0)->0));
            let spread = found_from(loose, n.take(1), 0)->0 + in_order_end(loose, n, 0)->0 - n.len();
            &&& match_quality(n, n)->0 > match_quality(start, n)->0
            &&& match_quality(n, n)->0 > match_quality(inner, n)->0
            &&& match_quality(n, n)->0 > match_quality(loose, n)->0
            &&& match_quality(start, n)->0 > match_quality(inner, n)->0 <==> byte_len(start) < 1_000
                + place + byte_len(inner)
            &&& match_quality(start, n)->0 > match_quality(loose, n)->0 <==> byte_len(start) < 4_000
                + spread + byte_len(loose)
            &&& match_quality(inner, n)->0 > match_quality(loose, n)->0 <==> place + byte_len(inner)
                < 3_000 + spread + byte_len(loose)
            &&& byte_len(start) < 1_000 ==> match_quality(start, n)->0 > match_quality(inner, n)->0
                && match_quality(start, n)->0 > match_quality(loose, n)->0
            &&& byte_len(inner) < 1_500 ==> match_quality(inner, n)->0 > match_quality(loose, n)->0
        }),
{
    assert(inner != n) by {
        assert(n.subrange(0, n.len() as int) =~= n);
    }
    assert(loose != n && !occurs_at(loose, n, 0)) by {
        assert(n.subrange(0, n.len() as int) =~= n);
        lemma_found(loose, n, 0);
    }
    lemma_equal_text_is_best(n, start, n);
    lemma_equal_text_is_best(n, inner, n);
    lemma_equal_text_is_best(n, loose, n);
    lemma_found(inner, n, 0);
    lemma_byte_len_of_start(inner, found_from(inner, n, 0)->0);
    lemma_in_order_end_bound(loose, n, 0);
    if n.len() == 0 {
        assert(loose.subrange(0, 0) =~= n);
    }
    lemma_found(loose, n.take(1), 0);
    let at = lemma_in_order_sound(loose, n, 0);
    assert(loose.subrange(at[0], at[0] + 1) =~= n.take(1));
    assert(occurs_at(loose, n.take(1), at[0]));
}

/// A text that equals what was typed, in any case of letters, scores higher than every other one.
pub proof fn lemma_equal_text_scores_best(h: Seq<char>, other: Seq<char>, n: Seq<char>)
    requires
        n.len() > 0,
        text::lowercase(h) == text::lowercase(n),
        text::lowercase(other) != text::lowercase(n),
        byte_len(text::lowercase(other)) <= 0x2000_0000_0000_0000,
    ensures
        score_of(h, n) == Some(10_000i64),
        score_of(other, n) matches Some(score) ==> score < 10_000,
{
    lemma_equal_text_is_best(text::lowercase(h), text::lowercase(other), text::lowercase(n));
    lemma_score_is_quality(text::lowercase(other), text::lowercase(n));
}

} // verus!
