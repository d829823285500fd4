//! Text as sequences of characters: building, trimming, cutting and reading numbers.
use vstd::prelude::*;

verus! {

/// `String::push`: appends one character.
pub assume_specification[ String::push ](s: &mut String, c: char)
    ensures
        final(s)@ == old(s)@.push(c),
;

/// `String::pop`: removes the last character and returns it, or returns `None` for empty text.
pub assume_specification[ String::pop ](s: &mut String) -> (r: Option<char>)
    ensures
        old(s)@.len() == 0 ==> r is None && final(s)@ == old(s)@,
        old(s)@.len() > 0 ==> r == Some(old(s)@.last()) && final(s)@ == old(s)@.drop_last(),
;

/// The lowercase form of a text, by Unicode's rules.
pub uninterp spec fn lowercase(s: Seq<char>) -> Seq<char>;

/// `str::to_lowercase`: the result depends on the text alone.
pub assume_specification[ str::to_lowercase ](s: &str) -> (r: String)
    ensures
        r@ == lowercase(s@),
;

/// The characters of a text.
pub fn chars_of(s: &str) -> (chars: Vec<char>)
    ensures
        chars@ == s@,
{
    let mut chars: Vec<char> = Vec::new();
    for c in it: s.chars()
        invariant
            it.seq() == s@,
            chars@ == it.seq().take(it.index() as int),
    {
        chars.push(c);
    }
    chars
}

/// The text made of the characters from `from` up to `to`.
pub fn text_of(chars: &Vec<char>, from: usize, to: usize) -> (r: String)
    requires
        from <= to <= chars.len(),
    ensures
        r@ == chars@.subrange(from as int, to as int),
{
    let mut r: String = String::new();
    let mut i: usize = from;
    while i < to
        invariant
            from <= i <= to <= chars.len(),
            r@ == chars@.subrange(from as int, i as int),
        decreases to - i,
    {
        r.push(chars[i]);
        i = i + 1;
    }
    r
}

/// The characters of each text.
pub open spec fn texts(v: Seq<String>) -> Seq<Seq<char>> {
    v.map_values(|s: String| s@)
}

/// The characters of a text that may be missing.
pub open spec fn text_opt(s: Option<String>) -> Option<Seq<char>> {
    match s {
        Some(s) => Some(s@),
        None => None,
    }
}

/// The characters of a borrowed text that may be missing.
pub open spec fn str_opt(s: Option<&str>) -> Option<Seq<char>> {
    match s {
        Some(s) => Some(s@),
        None => None,
    }
}

/// Whether a character has Unicode's `White_Space` property.
pub open spec fn white_space(c: char) -> bool {
    ||| '\u{9}' <= c <= '\u{d}'
    ||| c == '\u{20}'
    ||| c == '\u{85}'
    ||| c == '\u{a0}'
    ||| c == '\u{1680}'
    ||| '\u{2000}' <= c <= '\u{200a}'
    ||| c == '\u{2028}'
    ||| c == '\u{2029}'
    ||| c == '\u{202f}'
    ||| c == '\u{205f}'
    ||| c == '\u{3000}'
}

/// Whether a character is white space.
pub fn is_white_space(c: char) -> (r: bool)
    ensures
        r == white_space(c),
{
    ('\u{9}' <= c && c <= '\u{d}') || c == '\u{20}' || c == '\u{85}' || c == '\u{a0}' || c
        == '\u{1680}' || ('\u{2000}' <= c && c <= '\u{200a}') || c == '\u{2028}' || c == '\u{2029}'
        || c == '\u{202f}' || c == '\u{205f}' || c == '\u{3000}'
}

/// A text without the white space that it starts with.
pub open spec fn trimmed_start(s: Seq<char>) -> Seq<char>
    decreases s.len(),
{
    if s.len() > 0 && white_space(s[0]) {
        trimmed_start(s.drop_first())
    } else {
        s
    }
}

/// A text without the white space that it ends with.
pub open spec fn trimmed_end(s: Seq<char>) -> Seq<char>
    decreases s.len(),
{
    if s.len() > 0 && white_space(s.last()) {
        trimmed_end(s.drop_last())
    } else {
        s
    }
}

/// A text without the white space around it.
pub open spec fn trimmed(s: Seq<char>) -> Seq<char> {
    trimmed_end(trimmed_start(s))
}

/// The text without the white space around it.
pub fn trim(s: &str) -> (r: String)
    ensures
        r@ == trimmed(s@),
{
    let chars: Vec<char> = chars_of(s);
    let mut from: usize = 0;
    assert(s@.skip(0) =~= s@);
    while from < chars.len() && is_white_space(chars[from])
        invariant
            from <= chars.len(),
            chars@ == s@,
            trimmed_start(s@) == trimmed_start(s@.skip(from as int)),
        decreases chars.len() - from,
    {
        assert(s@.skip(from as int).drop_first() =~= s@.skip(from + 1));
        from = from + 1;
    }
    let ghost rest = s@.skip(from as int);
    assert(trimmed_start(s@) == rest);
    let mut to: usize = chars.len();
    assert(s@.subrange(from as int, to as int) =~= rest);
    while from < to && is_white_space(chars[to - 1])
        invariant
            from <= to <= chars.len(),
            chars@ == s@,
            trimmed_end(rest) == trimmed_end(s@.subrange(from as int, to as int)),
        decreases to - from,
    {
        assert(s@.subrange(from as int, to as int).drop_last() =~= s@.subrange(
            from as int,
            to - 1,
        ));
        to = to - 1;
    }
    text_of(&chars, from, to)
}

/// The first place at or after `i` at which `s` holds `c`, or the end of `s`.
pub open spec fn place_of(s: Seq<char>, c: char, i: int) -> int
    decreases s.len() - i,
{
    if i >= s.len() {
        s.len() as int
    } else if s[i] == c {
        i
    } else {
        place_of(s, c, i + 1)
    }
}

/// What [`place_of`] finds: `c` itself or the end, and no `c` before it.
pub proof fn lemma_place_of(s: Seq<char>, c: char, i: int)
    requires
        0 <= i <= s.len(),
    ensures
        i <= place_of(s, c, i) <= s.len(),
        place_of(s, c, i) < s.len() ==> s[place_of(s, c, i)] == c,
        forall|k: int| i <= k < place_of(s, c, i) ==> s[k] != c,
    decreases s.len() - i,
{
    if i < s.len() && s[i] != c {
        lemma_place_of(s, c, i + 1);
    }
}

/// The first place at or after `from` at which `c` stands, or the end.
fn place(chars: &Vec<char>, c: char, from: usize) -> (r: usize)
    requires
        from <= chars.len(),
    ensures
        r == place_of(chars@, c, from as int),
        from <= r <= chars.len(),
{
    let mut i: usize = from;
    while i < chars.len() && chars[i] != c
        invariant
            from <= i <= chars.len(),
            place_of(chars@, c, from as int) == place_of(chars@, c, i as int),
        decreases chars.len() - i,
    {
        i = i + 1;
    }
    i
}

/// A line without the carriage return that stood before its line feed.
pub open spec fn without_return(line: Seq<char>) -> Seq<char> {
    if line.len() > 0 && line.last() == '\r' {
        line.drop_last()
    } else {
        line
    }
}

/// The lines of `s` from `i` on. A line ends with a line feed, or with a carriage return and a
/// line feed; the end of the last line is optional.
pub open spec fn lines_from(s: Seq<char>, i: int) -> Seq<Seq<char>>
    decreases s.len() - i,
{
    if i < 0 || i >= s.len() {
        Seq::empty()
    } else {
        proof {
            lemma_place_of(s, '\n', i);
        }
        let end = place_of(s, '\n', i);
        if end == s.len() {
            seq![s.skip(i)]
        } else {
            seq![without_return(s.subrange(i, end))] + lines_from(s, end + 1)
        }
    }
}

/// The lines of a text.
pub open spec fn lines_of(s: Seq<char>) -> Seq<Seq<char>> {
    lines_from(s, 0)
}

/// The lines of a text.
pub fn lines(s: &str) -> (r: Vec<String>)
    ensures
        texts(r@) == lines_of(s@),
{
    let chars: Vec<char> = chars_of(s);
    let mut r: Vec<String> = Vec::new();
    let mut i: usize = 0;
    assert(texts(r@) =~= Seq::<Seq<char>>::empty());
    assert(lines_from(s@, 0) =~= texts(r@) + lines_from(s@, 0));
    while i < chars.len()
        invariant
            i <= chars.len(),
            chars@ == s@,
            lines_of(s@) == texts(r@) + lines_from(s@, i as int),
        decreases chars.len() - i,
    {
        let end: usize = place(&chars, '\n', i);
        let ghost before = texts(r@);
        if end == chars.len() {
            let line: String = text_of(&chars, i, end);
            r.push(line);
            assert(s@.subrange(i as int, end as int) =~= s@.skip(i as int));
            assert(texts(r@) =~= before + seq![s@.skip(i as int)]);
            return r;
        }
        let to: usize = if end > i && chars[end - 1] == '\r' {
            end - 1
        } else {
            end
        };
        let line: String = text_of(&chars, i, to);
        proof {
            let whole = s@.subrange(i as int, end as int);
            assert(line@ =~= without_return(whole));
            assert(texts(r@.push(line)) =~= before.push(line@));
            assert(before + (seq![line@] + lines_from(s@, end + 1)) =~= before.push(line@)
                + lines_from(s@, end + 1));
        }
        r.push(line);
        i = end + 1;
    }
    assert(texts(r@) + Seq::<Seq<char>>::empty() =~= texts(r@));
    r
}

/// The fields of `s` from `i` on that `sep` separates, of which the last one, the `n`th at most,
/// takes all that is left.
pub open spec fn fields_from(s: Seq<char>, sep: char, i: int, n: nat) -> Seq<Seq<char>>
    decreases n,
{
    let end = place_of(s, sep, i);
    if n <= 1 || end == s.len() {
        seq![s.skip(i)]
    } else {
        seq![s.subrange(i, end)] + fields_from(s, sep, end + 1, (n - 1) as nat)
    }
}

/// The at most `n` fields of a text.
pub open spec fn fields_of(s: Seq<char>, sep: char, n: nat) -> Seq<Seq<char>> {
    fields_from(s, sep, 0, n)
}

/// The at most `n` fields of a text that `sep` separates.
pub fn fields(s: &str, sep: char, n: usize) -> (r: Vec<String>)
    requires
        n >= 1,
    ensures
        texts(r@) == fields_of(s@, sep, n as nat),
        1 <= r.len() <= n,
{
    let chars: Vec<char> = chars_of(s);
    let mut r: Vec<String> = Vec::new();
    let mut i: usize = 0;
    let mut left: usize = n;
    assert(texts(r@) =~= Seq::<Seq<char>>::empty());
    assert(fields_of(s@, sep, n as nat) =~= texts(r@) + fields_from(s@, sep, 0, n as nat));
    while left > 1
        invariant
            i <= chars.len(),
            chars@ == s@,
            1 <= left <= n,
            r.len() == n - left,
            fields_of(s@, sep, n as nat) == texts(r@) + fields_from(s@, sep, i as int, left as nat),
        decreases left,
    {
        let end: usize = place(&chars, sep, i);
        let ghost before = texts(r@);
        if end == chars.len() {
            let field: String = text_of(&chars, i, end);
            r.push(field);
            assert(s@.subrange(i as int, end as int) =~= s@.skip(i as int));
            assert(texts(r@) =~= before + seq![s@.skip(i as int)]);
            return r;
        }
        let field: String = text_of(&chars, i, end);
        proof {
            let rest = fields_from(s@, sep, end + 1, (left - 1) as nat);
            assert(texts(r@.push(field)) =~= before.push(field@));
            assert(before + (seq![field@] + rest) =~= before.push(field@) + rest);
        }
        r.push(field);
        i = end + 1;
        left = left - 1;
    }
    let ghost before = texts(r@);
    let field: String = text_of(&chars, i, chars.len());
    r.push(field);
    assert(s@.subrange(i as int, s@.len() as int) =~= s@.skip(i as int));
    assert(texts(r@) =~= before + seq![s@.skip(i as int)]);
    r
}

/// Whether every character is a decimal digit.
pub open spec fn all_digits(s: Seq<char>) -> bool {
    forall|i: int| 0 <= i < s.len() ==> '0' <= #[trigger] s[i] <= '9'
}

/// The number that decimal digits write.
pub open spec fn digits_value(s: Seq<char>) -> int
    decreases s.len(),
{
    if s.len() == 0 {
        0
    } else {
        10 * digits_value(s.drop_last()) + (s.last() as int - '0' as int)
    }
}

/// The number that a text writes: digits behind at most one plus sign, within 64 bits.
pub open spec fn number_of(s: Seq<char>) -> Option<u64> {
    let digits = if s.len() > 0 && s[0] == '+' {
        s.drop_first()
    } else {
        s
    };
    if digits.len() > 0 && all_digits(digits) && digits_value(digits) <= u64::MAX {
        Some(digits_value(digits) as u64)
    } else {
        None
    }
}

proof fn lemma_digits_value_grows(s: Seq<char>, k: int)
    requires
        all_digits(s),
        0 <= k <= s.len(),
    ensures
        0 <= digits_value(s.take(k)) <= digits_value(s),
    decreases s.len(),
{
    if k < s.len() {
        assert(all_digits(s.drop_last()));
        lemma_digits_value_grows(s.drop_last(), k);
        assert(s.drop_last().take(k) =~= s.take(k));
    } else {
        assert(s.take(k) =~= s);
        if k > 0 {
            assert(all_digits(s.drop_last()));
            lemma_digits_value_grows(s.drop_last(), k - 1);
        }
    }
}

/// The number that a text writes.
pub fn parse_number(s: &str) -> (r: Option<u64>)
    ensures
        r == number_of(s@),
{
    let chars: Vec<char> = chars_of(s);
    let start: usize = if chars.len() > 0 && chars[0] == '+' {
        1
    } else {
        0
    };
    let ghost digits = s@.skip(start as int);
    proof {
        if start == 0 {
            assert(digits =~= s@);
        } else {
            assert(digits =~= s@.drop_first());
        }
    }
    if start == chars.len() {
        return None;
    }
    let mut value: u64 = 0;
    let mut i: usize = start;
    assert(digits.take(0) =~= Seq::<char>::empty());
    while i < chars.len()
        invariant
            start <= i <= chars.len(),
            start <= 1,
            chars@ == s@,
            digits == s@.skip(start as int),
            number_of(s@) == (if digits.len() > 0 && all_digits(digits) && digits_value(digits)
                <= u64::MAX {
                Some(digits_value(digits) as u64)
            } else {
                None
            }),
            all_digits(digits.take(i - start)),
            value == digits_value(digits.take(i - start)),
        decreases chars.len() - i,
    {
        let c: char = chars[i];
        assert(digits[i - start] == c);
        if c < '0' || c > '9' {
            return None;
        }
        let digit: u64 = (c as u32 - '0' as u32) as u64;
        let ghost next = digits.take(i + 1 - start);
        assert(next.drop_last() =~= digits.take(i - start));
        proof {
            if all_digits(digits) {
                lemma_digits_value_grows(digits, i + 1 - start);
            }
        }
        if value > (u64::MAX - digit) / 10 {
            return None;
        }
        value = value * 10 + digit;
        i = i + 1;
    }
    assert(digits.take(i - start) =~= digits);
    Some(value)
}

/// A decimal digit.
pub open spec fn digit_char(d: int) -> char {
    ('0' as int + d) as char
}

/// A number in decimal digits.
pub open spec fn decimal_of(n: nat) -> Seq<char>
    decreases n,
{
    if n < 10 {
        seq![digit_char(n as int)]
    } else {
        decimal_of(n / 10).push(digit_char((n % 10) as int))
    }
}

/// The number in decimal digits.
pub fn decimal(n: u64) -> (r: String)
    ensures
        r@ == decimal_of(n as nat),
    decreases n,
{
    let mut r: String = if n < 10 {
        String::new()
    } else {
        decimal(n / 10)
    };
    let digit: u8 = (n % 10) as u8;
    let c: char = (48 + digit) as char;
    r.push(c);
    assert(r@ =~= decimal_of(n as nat));
    r
}

/// One text behind another.
pub fn joined(a: &str, b: &str) -> (r: String)
    ensures
        r@ == a@ + b@,
{
    let mut r: String = a.to_owned();
    r.append(b);
    r
}

/// Whether two texts are equal.
pub fn same(a: &str, b: &str) -> (r: bool)
    ensures
        r == (a@ == b@),
{
    a.to_owned() == b.to_owned()
}

} // verus!
