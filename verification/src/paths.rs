//! Directory paths as the bytes that the file system takes.
use crate::text;
use vstd::prelude::*;
use vstd::utf8::*;

verus! {

/// A path. Its bytes need not be text.
#[derive(Debug)]
pub struct DirPath {
    pub bytes: Vec<u8>,
}

impl View for DirPath {
    type V = Seq<u8>;

    open spec fn view(&self) -> Seq<u8> {
        self.bytes@
    }
}

/// The values of several paths.
pub open spec fn path_views(paths: Seq<DirPath>) -> Seq<Seq<u8>> {
    paths.map_values(|p: DirPath| p@)
}

/// The byte that separates the names in a path.
pub const SLASH: u8 = 47;

/// The byte of a dot.
pub const DOT: u8 = 46;

/// The text of bytes that are not UTF-8, with a replacement character for what does not fit.
pub uninterp spec fn replaced_text(bytes: Seq<u8>) -> Seq<char>;

/// The text of bytes, with a replacement character for what is not UTF-8.
pub open spec fn lossy_text(bytes: Seq<u8>) -> Seq<char> {
    if valid_utf8(bytes) {
        decode_utf8(bytes)
    } else {
        replaced_text(bytes)
    }
}

/// `String::from_utf8_lossy`: bytes that are UTF-8 give the text that they encode, and otherwise
/// the result depends on the bytes alone.
#[verifier::external_body]
pub(crate) fn utf8_lossy(bytes: &Vec<u8>) -> (r: String)
    ensures
        r@ == (if valid_utf8(bytes@) {
            decode_utf8(bytes@)
        } else {
            replaced_text(bytes@)
        }),
{
    String::from_utf8_lossy(bytes.as_slice()).into_owned()
}

/// The text that bytes encode, or `None` where they are not UTF-8.
pub open spec fn utf8_text(bytes: Seq<u8>) -> Option<Seq<char>> {
    if valid_utf8(bytes) {
        Some(decode_utf8(bytes))
    } else {
        None
    }
}

/// `String::from_utf8`: the text that the bytes encode, and an error exactly where they are not
/// UTF-8.
#[verifier::external_body]
pub(crate) fn utf8(bytes: Vec<u8>) -> (r: Option<String>)
    ensures
        text::text_opt(r) == utf8_text(bytes@),
{
    String::from_utf8(bytes).ok()
}

/// The end of the name that starts at `i`: the next slash, or the end of the path.
pub open spec fn name_end(s: Seq<u8>, i: int) -> int
    decreases s.len() - i,
{
    if i >= s.len() {
        s.len() as int
    } else if s[i] == SLASH {
        i
    } else {
        name_end(s, i + 1)
    }
}

/// What [`name_end`] finds: a slash or the end, and no slash before it.
pub proof fn lemma_name_end(s: Seq<u8>, i: int)
    requires
        0 <= i <= s.len(),
    ensures
        i <= name_end(s, i) <= s.len(),
        name_end(s, i) < s.len() ==> s[name_end(s, i)] == SLASH,
        forall|k: int| i <= k < name_end(s, i) ==> s[k] != SLASH,
    decreases s.len() - i,
{
    if i < s.len() && s[i] != SLASH {
        lemma_name_end(s, i + 1);
    }
}

/// Whether a piece between slashes says nothing: two slashes in a row, or a dot.
pub open spec fn is_filler(name: Seq<u8>) -> bool {
    name.len() == 0 || name == seq![DOT]
}

/// The names of a path from `i` on.
pub open spec fn names_from(s: Seq<u8>, i: int) -> Seq<Seq<u8>>
    decreases s.len() + 1 - i,
{
    if i < 0 || i >= s.len() {
        Seq::empty()
    } else {
        proof {
            lemma_name_end(s, i);
        }
        let end = name_end(s, i);
        let name = s.subrange(i, end);
        if is_filler(name) {
            names_from(s, end + 1)
        } else {
            seq![name] + names_from(s, end + 1)
        }
    }
}

/// What a path starts from: the root for a leading slash, the current directory for a leading dot.
pub open spec fn start_of(s: Seq<u8>) -> Seq<Seq<u8>> {
    if s.len() > 0 && s[0] == SLASH {
        seq![seq![SLASH]]
    } else if s.len() > 0 && s.subrange(0, name_end(s, 0)) == seq![DOT] {
        seq![seq![DOT]]
    } else {
        Seq::empty()
    }
}

/// What a path is made of. Two paths are the same where this is equal: repeated slashes, dots
/// between them and a slash at the end make no difference.
pub open spec fn components(s: Seq<u8>) -> Seq<Seq<u8>> {
    start_of(s) + names_from(s, 0)
}

/// The name of what a path leads to, if it ends with one.
pub open spec fn file_name_of(s: Seq<u8>) -> Option<Seq<u8>> {
    let names = names_from(s, 0);
    if names.len() == 0 || names.last() == seq![DOT, DOT] {
        None
    } else {
        Some(names.last())
    }
}

/// The name of what a path leads to, where it has one that is text.
pub open spec fn name_text_of(s: Seq<u8>) -> Option<Seq<char>> {
    match file_name_of(s) {
        Some(name) => utf8_text(name),
        None => None,
    }
}

/// Whether a name can be that of a directory entry.
pub open spec fn is_entry_name(name: Seq<u8>) -> bool {
    &&& name.len() > 0
    &&& name != seq![DOT]
    &&& name != seq![DOT, DOT]
    &&& !name.contains(SLASH)
}

/// The path of an entry of a directory.
pub open spec fn joined_path(s: Seq<u8>, name: Seq<u8>) -> Seq<u8> {
    if s.len() == 0 || s.last() == SLASH {
        s + name
    } else {
        s.push(SLASH) + name
    }
}

/// Whether two names are equal.
fn same_bytes(a: &Vec<u8>, b: &Vec<u8>) -> (r: bool)
    ensures
        r == (a@ == b@),
{
    if a.len() != b.len() {
        return false;
    }
    let mut i: usize = 0;
    while i < a.len()
        invariant
            i <= a.len(),
            a.len() == b.len(),
            forall|k: int| 0 <= k < i ==> a[k] == b[k],
        decreases a.len() - i,
    {
        if a[i] != b[i] {
            return false;
        }
        i = i + 1;
    }
    assert(a@ =~= b@);
    true
}

/// The bytes from `from` up to `to`.
pub(crate) fn bytes_between(s: &Vec<u8>, from: usize, to: usize) -> (r: Vec<u8>)
    requires
        from <= to <= s.len(),
    ensures
        r@ == s@.subrange(from as int, to as int),
{
    let mut r: Vec<u8> = Vec::new();
    let mut i: usize = from;
    while i < to
        invariant
            from <= i <= to <= s.len(),
            r@ == s@.subrange(from as int, i as int),
        decreases to - i,
    {
        r.push(s[i]);
        i = i + 1;
    }
    r
}

/// The values of several names.
pub open spec fn name_views(names: Seq<Vec<u8>>) -> Seq<Seq<u8>> {
    names.map_values(|n: Vec<u8>| n@)
}

impl Clone for DirPath {
    fn clone(&self) -> (r: DirPath)
        ensures
            r@ == self@,
    {
        let bytes: Vec<u8> = bytes_between(&self.bytes, 0, self.bytes.len());
        assert(self@.subrange(0, self@.len() as int) =~= self@);
        DirPath { bytes }
    }
}

impl DirPath {
    /// The path that a text writes.
    pub fn from_text(s: &str) -> (r: DirPath)
        ensures
            r@ == encode_utf8(s@),
    {
        let source: &[u8] = s.as_bytes();
        let mut bytes: Vec<u8> = Vec::new();
        let mut i: usize = 0;
        while i < source.len()
            invariant
                i <= source.len(),
                bytes@ == source@.take(i as int),
            decreases source.len() - i,
        {
            bytes.push(source[i]);
            i = i + 1;
        }
        assert(source@.take(i as int) =~= source@);
        DirPath { bytes }
    }

    /// The path as text, with a replacement character for what is not UTF-8.
    pub fn text(&self) -> (r: String)
        ensures
            r@ == lossy_text(self@),
    {
        utf8_lossy(&self.bytes)
    }

    /// The names that the path is made of.
    fn names(&self) -> (r: Vec<Vec<u8>>)
        ensures
            name_views(r@) == names_from(self@, 0),
    {
        let mut r: Vec<Vec<u8>> = Vec::new();
        let mut i: usize = 0;
        assert(name_views(r@) + names_from(self@, 0) =~= names_from(self@, 0));
        while i < self.bytes.len()
            invariant
                i <= self.bytes.len(),
                names_from(self@, 0) == name_views(r@) + names_from(self@, i as int),
            decreases self.bytes.len() - i,
        {
            let start: usize = i;
            while i < self.bytes.len() && self.bytes[i] != SLASH
                invariant
                    start <= i <= self.bytes.len(),
                    name_end(self@, start as int) == name_end(self@, i as int),
                decreases self.bytes.len() - i,
            {
                i = i + 1;
            }
            let name: Vec<u8> = bytes_between(&self.bytes, start, i);
            let filler: bool = name.len() == 0 || (name.len() == 1 && name[0] == DOT);
            proof {
                if name.len() == 1 && name[0] == DOT {
                    assert(name@ =~= seq![DOT]);
                }
                assert(filler == is_filler(name@));
                let rest = names_from(self@, i + 1);
                let before = name_views(r@);
                assert(name_views(r@.push(name)) =~= before.push(name@));
                assert(before + (seq![name@] + rest) =~= before.push(name@) + rest);
            }
            if !filler {
                r.push(name);
            }
            if i < self.bytes.len() {
                i = i + 1;
            }
        }
        assert(name_views(r@) + Seq::<Seq<u8>>::empty() =~= name_views(r@));
        r
    }

    /// What the path starts from: a slash, a dot or nothing.
    fn start(&self) -> (r: Option<u8>)
        ensures
            start_of(self@) == (match r {
                Some(b) => seq![seq![b]],
                None => Seq::empty(),
            }),
    {
        if self.bytes.len() == 0 {
            return None;
        }
        if self.bytes[0] == SLASH {
            return Some(SLASH);
        }
        if self.bytes[0] == DOT && (self.bytes.len() == 1 || self.bytes[1] == SLASH) {
            proof {
                reveal_with_fuel(name_end, 3);
                assert(self@.subrange(0, 1) =~= seq![DOT]);
            }
            return Some(DOT);
        }
        proof {
            lemma_name_end(self@, 0);
            let first = self@.subrange(0, name_end(self@, 0));
            if first == seq![DOT] {
                assert(first.len() == 1);
                assert(first[0] == self@[0]);
            }
        }
        None
    }

    /// Whether two paths are the same.
    pub fn same(&self, other: &DirPath) -> (r: bool)
        ensures
            r == (components(self@) == components(other@)),
    {
        let a: Vec<Vec<u8>> = self.names();
        let b: Vec<Vec<u8>> = other.names();
        let start: Option<u8> = self.start();
        let other_start: Option<u8> = other.start();
        proof {
            lemma_components_parts(self@, other@);
        }
        let same_start: bool = match start {
            Some(x) => match other_start {
                Some(y) => x == y,
                None => false,
            },
            None => match other_start {
                Some(_) => false,
                None => true,
            },
        };
        assert(same_start == (start_of(self@) == start_of(other@))) by {
            if start is Some && other_start is Some {
                assert(start_of(self@)[0][0] == start->0);
                assert(start_of(other@)[0][0] == other_start->0);
            } else if start is Some {
                assert(start_of(self@).len() == 1);
                assert(start_of(other@).len() == 0);
            } else if other_start is Some {
                assert(start_of(self@).len() == 0);
                assert(start_of(other@).len() == 1);
            }
        }
        if !same_start || a.len() != b.len() {
            assert(name_views(a@).len() == a.len() && name_views(b@).len() == b.len());
            return false;
        }
        let mut i: usize = 0;
        while i < a.len()
            invariant
                i <= a.len(),
                a.len() == b.len(),
                name_views(a@) == names_from(self@, 0),
                name_views(b@) == names_from(other@, 0),
                forall|k: int| 0 <= k < i ==> (#[trigger] a[k])@ == b[k]@,
                (components(self@) == components(other@)) == (names_from(self@, 0) == names_from(
                    other@,
                    0,
                )),
            decreases a.len() - i,
        {
            if !same_bytes(&a[i], &b[i]) {
                assert(name_views(a@)[i as int] != name_views(b@)[i as int]);
                return false;
            }
            i = i + 1;
        }
        assert(name_views(a@) =~= name_views(b@));
        true
    }

    /// The name of what the path leads to, if it ends with one.
    pub fn file_name(&self) -> (r: Option<Vec<u8>>)
        ensures
            r is Some <==> file_name_of(self@) is Some,
            r matches Some(name) ==> file_name_of(self@) == Some(name@),
    {
        let mut names: Vec<Vec<u8>> = self.names();
        let ghost nv = name_views(names@);
        match names.pop() {
            Some(name) => {
                assert(nv.last() == name@);
                if name.len() == 2 && name[0] == DOT && name[1] == DOT {
                    assert(name@ =~= seq![DOT, DOT]);
                    None
                } else {
                    assert(name@ != seq![DOT, DOT]) by {
                        if name@ == seq![DOT, DOT] {
                            assert(name@.len() == 2);
                            assert(name@[0] == DOT && name@[1] == DOT);
                        }
                    }
                    Some(name)
                }
            },
            None => None,
        }
    }

    /// The name of what the path leads to, where it has one that is text.
    pub fn name_text(&self) -> (r: Option<String>)
        ensures
            text::text_opt(r) == name_text_of(self@),
    {
        match self.file_name() {
            Some(name) => utf8(name),
            None => None,
        }
    }

    /// The path of an entry of this directory.
    pub fn join(&self, name: &Vec<u8>) -> (r: DirPath)
        ensures
            r@ == joined_path(self@, name@),
    {
        let mut r: DirPath = self.clone();
        if r.bytes.len() > 0 && r.bytes[r.bytes.len() - 1] != SLASH {
            r.bytes.push(SLASH);
        }
        let ghost start = r.bytes@;
        let mut i: usize = 0;
        assert(start + name@.take(0) =~= start);
        while i < name.len()
            invariant
                i <= name.len(),
                r.bytes@ == start + name@.take(i as int),
            decreases name.len() - i,
        {
            assert((start + name@.take(i as int)).push(name@[i as int]) =~= start + name@.take(
                i + 1,
            ));
            r.bytes.push(name[i]);
            i = i + 1;
        }
        assert(name@.take(i as int) =~= name@);
        r
    }
}

proof fn lemma_names_not_filler(s: Seq<u8>, i: int)
    requires
        0 <= i,
    ensures
        forall|k: int| 0 <= k < names_from(s, i).len() ==> !is_filler(#[trigger] names_from(s, i)[k])
            && !names_from(s, i)[k].contains(SLASH),
    decreases s.len() + 1 - i,
{
    if i < s.len() {
        lemma_name_end(s, i);
        let end = name_end(s, i);
        lemma_names_not_filler(s, end + 1);
        let rest = names_from(s, end + 1);
        assert forall|k: int| 0 <= k < names_from(s, i).len() implies !is_filler(
            #[trigger] names_from(s, i)[k],
        ) && !names_from(s, i)[k].contains(SLASH) by {
            if is_filler(s.subrange(i, end)) {
                assert(!is_filler(rest[k]));
            } else if k > 0 {
                assert(names_from(s, i)[k] == rest[k - 1]);
            }
        }
    }
}

/// Two paths are made of the same where they start from the same and their names are equal.
proof fn lemma_components_parts(a: Seq<u8>, b: Seq<u8>)
    ensures
        components(a) == components(b) <==> start_of(a) == start_of(b) && names_from(a, 0)
            == names_from(b, 0),
{
    let (sa, sb) = (start_of(a), start_of(b));
    let (na, nb) = (names_from(a, 0), names_from(b, 0));
    let (ca, cb) = (components(a), components(b));
    if ca == cb {
        lemma_names_not_filler(a, 0);
        lemma_names_not_filler(b, 0);
        if sa.len() != sb.len() {
            if sa.len() > 0 {
                assert(ca[0] == sa[0]);
                assert(cb[0] == nb[0]);
                assert(nb[0].len() == 1);
                assert(sa[0] == seq![SLASH] || sa[0] == seq![DOT]);
                assert(seq![SLASH].contains(SLASH)) by {
                    assert(seq![SLASH][0] == SLASH);
                }
            } else {
                assert(cb[0] == sb[0]);
                assert(ca[0] == na[0]);
                assert(sb[0] == seq![SLASH] || sb[0] == seq![DOT]);
                assert(seq![SLASH].contains(SLASH)) by {
                    assert(seq![SLASH][0] == SLASH);
                }
            }
        }
        assert(sa =~= ca.take(sa.len() as int));
        assert(sb =~= cb.take(sb.len() as int));
        assert(na =~= ca.skip(sa.len() as int));
        assert(nb =~= cb.skip(sb.len() as int));
    }
}

proof fn lemma_name_end_is(s: Seq<u8>, i: int, end: int)
    requires
        0 <= i <= end <= s.len(),
        end < s.len() ==> s[end] == SLASH,
        forall|k: int| i <= k < end ==> s[k] != SLASH,
    ensures
        name_end(s, i) == end,
    decreases end - i,
{
    if i < end {
        lemma_name_end_is(s, i + 1, end);
    }
}

proof fn lemma_last_name(s: Seq<u8>, name: Seq<u8>, i: int)
    requires
        is_entry_name(name),
        0 <= i,
        i + name.len() == s.len(),
        s.subrange(i, s.len() as int) == name,
    ensures
        names_from(s, i) == seq![name],
{
    assert forall|k: int| i <= k < s.len() implies s[k] != SLASH by {
        assert(name[k - i] == s[k]);
        assert(name.contains(name[k - i]));
    }
    lemma_name_end_is(s, i, s.len() as int);
    assert(names_from(s, s.len() as int + 1) =~= Seq::<Seq<u8>>::empty());
    assert(seq![name] + Seq::<Seq<u8>>::empty() =~= seq![name]);
}

proof fn lemma_joined_names(p: Seq<u8>, name: Seq<u8>, i: int)
    requires
        is_entry_name(name),
        0 <= i <= p.len(),
        i < p.len() || p.len() == 0 || p.last() == SLASH,
    ensures
        names_from(joined_path(p, name), i) == names_from(p, i).push(name),
    decreases p.len() + 1 - i,
{
    let q = joined_path(p, name);
    if i == p.len() {
        assert(q.subrange(i, q.len() as int) =~= name);
        lemma_last_name(q, name, i);
        assert(names_from(p, i).push(name) =~= seq![name]);
    } else {
        lemma_name_end(p, i);
        let end = name_end(p, i);
        assert(forall|k: int| 0 <= k < p.len() ==> q[k] == p[k]);
        if end < p.len() {
            lemma_name_end_is(q, i, end);
            lemma_joined_names(p, name, end + 1);
        } else {
            assert(p[p.len() - 1] != SLASH);
            assert(q[end] == SLASH);
            lemma_name_end_is(q, i, end);
            assert(q.subrange(end + 1, q.len() as int) =~= name);
            lemma_last_name(q, name, end + 1);
            assert(names_from(p, end + 1).push(name) =~= seq![name]);
        }
        assert(q.subrange(i, end) =~= p.subrange(i, end));
        let rest = names_from(p, end + 1);
        assert(seq![p.subrange(i, end)] + rest.push(name) =~= (seq![p.subrange(i, end)]
            + rest).push(name));
    }
}

/// The entry of a directory is made of what the directory is made of and its own name.
pub proof fn lemma_joined_components(p: Seq<u8>, name: Seq<u8>)
    requires
        is_entry_name(name),
    ensures
        components(joined_path(p, name)) == components(p).push(name),
        file_name_of(joined_path(p, name)) == Some(name),
{
    let q = joined_path(p, name);
    lemma_joined_names(p, name, 0);
    assert(start_of(q) == start_of(p)) by {
        if p.len() == 0 {
            assert(q =~= name);
            assert(name.contains(name[0]));
            lemma_name_end(name, 0);
            assert forall|k: int| 0 <= k < name.len() implies name[k] != SLASH by {
                assert(name.contains(name[k]));
            }
            lemma_name_end_is(name, 0, name.len() as int);
            assert(name.subrange(0, name.len() as int) =~= name);
        } else {
            lemma_name_end(p, 0);
            let end = name_end(p, 0);
            assert(forall|k: int| 0 <= k < p.len() ==> q[k] == p[k]);
            if p[0] != SLASH {
                if end == p.len() {
                    assert(p[p.len() - 1] != SLASH);
                    assert(q[end] == SLASH);
                }
                lemma_name_end_is(q, 0, end);
                assert(q.subrange(0, end) =~= p.subrange(0, end));
            }
        }
    }
    assert(components(q) =~= components(p).push(name));
    assert(names_from(q, 0).last() == name);
}

} // verus!
