//! What is kept between runs: the index of directories and the session that was selected last.
use crate::paths;
use crate::paths::DirPath;
use crate::text;
use vstd::prelude::*;
use vstd::utf8::*;

verus! {

/// The most directories that are kept in the index.
pub const MAX_CACHE_DIRS: usize = 25_000;

/// How long the index is good for, in seconds: a day.
pub const CACHE_TTL_SECS: u64 = 86_400;

/// A path below another.
pub open spec fn below(path: Seq<u8>, name: Seq<char>) -> Seq<u8> {
    paths::joined_path(path, encode_utf8(name))
}

/// The directory that everything is kept in: below the cache directory that the environment names,
/// or else below `.cache` in the home directory.
pub open spec fn store_dir_of(xdg_cache: Option<Seq<u8>>, home: Option<Seq<u8>>) -> Seq<u8> {
    let base = match xdg_cache {
        Some(base) => base,
        None => below(
            match home {
                Some(home) => home,
                None => seq![paths::SLASH],
            },
            ".cache"@,
        ),
    };
    below(base, "tmux-jump"@)
}

/// The value of a path that may be missing.
pub open spec fn path_opt(path: Option<&DirPath>) -> Option<Seq<u8>> {
    match path {
        Some(path) => Some(path@),
        None => None,
    }
}

/// The path below another.
fn join_text(path: &DirPath, name: &str) -> (r: DirPath)
    ensures
        r@ == below(path@, name@),
{
    let name: DirPath = DirPath::from_text(name);
    path.join(&name.bytes)
}

/// The directory that everything is kept in.
pub fn store_dir(xdg_cache: Option<&DirPath>, home: Option<&DirPath>) -> (r: DirPath)
    ensures
        r@ == store_dir_of(path_opt(xdg_cache), path_opt(home)),
{
    let base: DirPath = match xdg_cache {
        Some(base) => base.clone(),
        None => {
            let home: DirPath = match home {
                Some(home) => home.clone(),
                None => {
                    let mut bytes: Vec<u8> = Vec::new();
                    bytes.push(paths::SLASH);
                    assert(bytes@ =~= seq![paths::SLASH]);
                    DirPath { bytes }
                },
            };
            join_text(&home, ".cache")
        },
    };
    join_text(&base, "tmux-jump")
}

/// The file that the index is kept in.
pub fn cache_path(xdg_cache: Option<&DirPath>, home: Option<&DirPath>) -> (r: DirPath)
    ensures
        r@ == below(store_dir_of(path_opt(xdg_cache), path_opt(home)), "dirs.txt"@),
{
    join_text(&store_dir(xdg_cache, home), "dirs.txt")
}

/// The file that a new index is written to before it takes the old one's place.
pub fn cache_draft_path(xdg_cache: Option<&DirPath>, home: Option<&DirPath>) -> (r: DirPath)
    ensures
        r@ == below(store_dir_of(path_opt(xdg_cache), path_opt(home)), "dirs.tmp"@),
{
    join_text(&store_dir(xdg_cache, home), "dirs.tmp")
}

/// The file that the session selected last is kept in.
pub fn state_path(xdg_cache: Option<&DirPath>, home: Option<&DirPath>) -> (r: DirPath)
    ensures
        r@ == below(store_dir_of(path_opt(xdg_cache), path_opt(home)), "state"@),
{
    join_text(&store_dir(xdg_cache, home), "state")
}

/// The first paths of a list, as many as the index holds.
pub open spec fn first_paths(list: Seq<Seq<u8>>) -> Seq<Seq<u8>> {
    if list.len() <= MAX_CACHE_DIRS {
        list
    } else {
        list.take(MAX_CACHE_DIRS as int)
    }
}

/// A line for each path.
pub open spec fn path_lines(list: Seq<Seq<u8>>) -> Seq<char>
    decreases list.len(),
{
    if list.len() == 0 {
        Seq::empty()
    } else {
        (path_lines(list.drop_last()) + paths::lossy_text(list.last())).push('\n')
    }
}

/// The text that keeps an index of directories.
pub fn dir_cache_text(cache: &Vec<DirPath>) -> (r: String)
    ensures
        r@ == path_lines(first_paths(paths::path_views(cache@))),
{
    let ghost all = paths::path_views(cache@);
    let count: usize = if cache.len() <= MAX_CACHE_DIRS {
        cache.len()
    } else {
        MAX_CACHE_DIRS
    };
    let mut r: String = String::new();
    let mut i: usize = 0;
    assert(all.take(0) =~= Seq::<Seq<u8>>::empty());
    while i < count
        invariant
            i <= count <= cache.len(),
            all == paths::path_views(cache@),
            r@ == path_lines(all.take(i as int)),
        decreases count - i,
    {
        let line: String = cache[i].text();
        r.append(line.as_str());
        r.push('\n');
        assert(all.take(i + 1).drop_last() =~= all.take(i as int));
        assert(all.take(i + 1).last() == cache[i as int]@);
        i = i + 1;
    }
    assert(first_paths(all) =~= all.take(count as int));
    r
}

/// The paths that the lines of a text write.
pub open spec fn lines_as_paths(s: Seq<char>) -> Seq<Seq<u8>> {
    text::lines_of(s).map_values(|line: Seq<char>| encode_utf8(line))
}

/// The paths of a kept index.
pub fn cached_paths(s: &str) -> (r: Vec<DirPath>)
    ensures
        paths::path_views(r@) == first_paths(lines_as_paths(s@)),
{
    let lines: Vec<String> = text::lines(s);
    let ghost all = lines_as_paths(s@);
    let count: usize = if lines.len() <= MAX_CACHE_DIRS {
        lines.len()
    } else {
        MAX_CACHE_DIRS
    };
    let mut r: Vec<DirPath> = Vec::new();
    let mut i: usize = 0;
    while i < count
        invariant
            i <= count <= lines.len(),
            r.len() == i,
            forall|k: int| 0 <= k < i ==> (#[trigger] r[k])@ == encode_utf8(lines[k]@),
        decreases count - i,
    {
        r.push(DirPath::from_text(lines[i].as_str()));
        i = i + 1;
    }
    proof {
        assert(text::texts(lines@).len() == lines.len());
        assert forall|k: int| 0 <= k < r.len() implies #[trigger] paths::path_views(r@)[k]
            == first_paths(all)[k] by {
            assert(text::texts(lines@)[k] == lines[k]@);
        }
        assert(paths::path_views(r@) =~= first_paths(all));
    }
    r
}

/// A length of time.
#[derive(Clone, Copy, Debug)]
pub struct Age {
    pub secs: u64,
    pub nanos: u32,
}

/// Whether a length of time is longer than a number of seconds.
pub open spec fn is_longer(age: Age, secs: u64) -> bool {
    age.secs > secs || (age.secs == secs && age.nanos > 0)
}

/// Whether the index has to be built again. `age` is how long ago it was written, and `None` where
/// there is no index or its age cannot be told.
pub fn cache_is_stale(age: Option<Age>) -> (r: bool)
    ensures
        r == (match age {
            Some(age) => is_longer(age, CACHE_TTL_SECS),
            None => true,
        }),
{
    match age {
        Some(age) => age.secs > CACHE_TTL_SECS || (age.secs == CACHE_TTL_SECS && age.nanos > 0),
        None => true,
    }
}

/// The name that a text holds between white space, if there is one.
pub open spec fn name_in(s: Seq<char>) -> Option<Seq<char>> {
    if text::trimmed(s).len() == 0 {
        None
    } else {
        Some(text::trimmed(s))
    }
}

/// The name that a text holds between white space, if there is one.
fn trimmed_name(s: &str) -> (r: Option<String>)
    ensures
        text::text_opt(r) == name_in(s@),
{
    let name: String = text::trim(s);
    if name.as_str().is_empty() {
        None
    } else {
        Some(name)
    }
}

/// The session that was selected last, by the text that is kept of it.
pub fn load_last_session(kept: &str) -> (r: Option<String>)
    ensures
        text::text_opt(r) == name_in(kept@),
{
    trimmed_name(kept)
}

/// The name of the session that the popup runs in, by what tmux prints for it.
pub fn current_session_name(printed: &str) -> (r: Option<String>)
    ensures
        text::text_opt(r) == name_in(printed@),
{
    trimmed_name(printed)
}

/// The text to keep of the session that is selected, if one is.
pub fn save_last_session(name: Option<&str>) -> (r: Option<String>)
    ensures
        text::text_opt(r) == (match name {
            Some(name) => Some(name@.push('\n')),
            None => None,
        }),
{
    match name {
        Some(name) => {
            let mut line: String = name.to_owned();
            line.push('\n');
            Some(line)
        },
        None => None,
    }
}

/// Whether a path can be kept on a line: it is text, and its end cannot be taken for the end of a
/// line or the line be cut in two.
pub open spec fn is_one_line(path: Seq<u8>) -> bool {
    &&& valid_utf8(path)
    &&& !decode_utf8(path).contains('\n')
    &&& (decode_utf8(path).len() > 0 ==> decode_utf8(path).last() != '\r')
}

proof fn lemma_place_is(s: Seq<char>, c: char, i: int, end: int)
    requires
        0 <= i <= end <= s.len(),
        end < s.len() ==> s[end] == c,
        forall|k: int| i <= k < end ==> s[k] != c,
    ensures
        text::place_of(s, c, i) == end,
    decreases end - i,
{
    if i < end {
        lemma_place_is(s, c, i + 1, end);
    }
}

proof fn lemma_lines_append(a: Seq<char>, line: Seq<char>, i: int)
    requires
        a.len() == 0 || a.last() == '\n',
        !line.contains('\n'),
        0 <= i <= a.len(),
    ensures
        text::lines_from((a + line).push('\n'), i) == text::lines_from(a, i).push(
            text::without_return(line),
        ),
    decreases a.len() - i,
{
    let s = (a + line).push('\n');
    if i == a.len() {
        let end = i + line.len();
        assert forall|k: int| i <= k < end implies s[k] != '\n' by {
            assert(line[k - i] == s[k]);
            assert(line.contains(line[k - i]));
        }
        lemma_place_is(s, '\n', i, end);
        assert(s.subrange(i, end) =~= line);
        assert(text::lines_from(s, end + 1) =~= Seq::<Seq<char>>::empty());
        assert(text::lines_from(s, i) =~= seq![text::without_return(line)]);
        assert(text::lines_from(a, i) =~= Seq::<Seq<char>>::empty());
        assert(text::lines_from(a, i).push(text::without_return(line)) =~= seq![
            text::without_return(line),
        ]);
    } else {
        text::lemma_place_of(a, '\n', i);
        let end = text::place_of(a, '\n', i);
        assert(end < a.len()) by {
            if end == a.len() {
                assert(a[a.len() - 1] != '\n');
            }
        }
        assert(forall|k: int| 0 <= k < a.len() ==> s[k] == a[k]);
        lemma_place_is(s, '\n', i, end);
        assert(s.subrange(i, end) =~= a.subrange(i, end));
        lemma_lines_append(a, line, end + 1);
        let first = seq![text::without_return(a.subrange(i, end))];
        let rest = text::lines_from(a, end + 1);
        assert(first + rest.push(text::without_return(line)) =~= (first + rest).push(
            text::without_return(line),
        ));
    }
}

proof fn lemma_path_lines(list: Seq<Seq<u8>>)
    requires
        forall|k: int| 0 <= k < list.len() ==> is_one_line(#[trigger] list[k]),
    ensures
        lines_as_paths(path_lines(list)) == list,
        path_lines(list).len() == 0 || path_lines(list).last() == '\n',
    decreases list.len(),
{
    if list.len() == 0 {
        assert(lines_as_paths(path_lines(list)) =~= list);
    } else {
        let less = list.drop_last();
        assert forall|k: int| 0 <= k < less.len() implies is_one_line(#[trigger] less[k]) by {
            assert(less[k] == list[k]);
        }
        lemma_path_lines(less);
        let path = list.last();
        assert(path == list[list.len() - 1]);
        let line = decode_utf8(path);
        lemma_lines_append(path_lines(less), line, 0);
        assert(text::without_return(line) == line);
        decode_utf8_encode_utf8(path);
        assert(lines_as_paths(path_lines(list)) =~= lines_as_paths(path_lines(less)).push(path));
        assert(list =~= less.push(path));
    }
}

/// Reading back a kept index gives the paths that were kept, each on its line.
pub proof fn lemma_index_is_read_back(list: Seq<Seq<u8>>)
    requires
        forall|k: int| 0 <= k < first_paths(list).len() ==> is_one_line(#[trigger] list[k]),
    ensures
        first_paths(lines_as_paths(path_lines(first_paths(list)))) == first_paths(list),
{
    let kept = first_paths(list);
    assert forall|k: int| 0 <= k < kept.len() implies is_one_line(#[trigger] kept[k]) by {
        assert(kept[k] == list[k]);
    }
    lemma_path_lines(kept);
}

proof fn lemma_trimmed_start_push(s: Seq<char>, w: char)
    requires
        text::white_space(w),
    ensures
        text::trimmed_start(s.push(w)) == (if text::trimmed_start(s).len() == 0 {
            Seq::empty()
        } else {
            text::trimmed_start(s).push(w)
        }),
    decreases s.len(),
{
    let t = s.push(w);
    if s.len() == 0 {
        assert(t.drop_first() =~= Seq::<char>::empty());
        assert(text::trimmed_start(t.drop_first()) =~= Seq::<char>::empty());
    } else if text::white_space(s[0]) {
        assert(t.drop_first() =~= s.drop_first().push(w));
        lemma_trimmed_start_push(s.drop_first(), w);
    }
}

/// Reading back the session that was selected last gives its name without the white space around
/// it, if anything is left; so a name without any is read back as it is.
pub proof fn lemma_last_session_is_read_back(name: Seq<char>)
    ensures
        name_in(name.push('\n')) == name_in(name),
        name.len() > 0 && text::trimmed(name) == name ==> name_in(name.push('\n')) == Some(name),
{
    lemma_trimmed_start_push(name, '\n');
    let start = text::trimmed_start(name);
    if start.len() > 0 {
        assert(start.push('\n').drop_last() =~= start);
    } else {
        assert(start =~= Seq::<char>::empty());
    }
}

} // verus!
