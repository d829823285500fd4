//! Laws of what is kept between two runs: the index of directories and the session that was left.
use crate::path_laws;
use crate::paths;
use crate::store;
use crate::text;
use crate::text_laws;
use vstd::prelude::*;
use vstd::utf8::*;

verus! {

/// An index is out of date when it is more than a day old, be it by a nanosecond.
pub proof fn lemma_index_lasts_a_day(age: store::Age)
    requires
        age.nanos < 1_000_000_000,
    ensures
        store::is_longer(age, store::CACHE_TTL_SECS) <==> age.secs * 1_000_000_000 + age.nanos > 24
            * 60 * 60 * 1_000_000_000,
{
}

/// Of an index, the first twenty-five thousand directories are kept, in order.
pub proof fn lemma_first_paths_are_kept(list: Seq<Seq<u8>>)
    ensures
        ({
            let kept = store::first_paths(list);
            &&& list.len() <= 25_000 ==> kept == list
            &&& list.len() > 25_000 ==> kept.len() == 25_000
            &&& forall|i: int| 0 <= i < kept.len() ==> #[trigger] kept[i] == list[i]
        }),
{
}

/// A directory that is written to the index adds one line to it, behind the others.
pub proof fn lemma_each_path_is_a_line(list: Seq<Seq<u8>>, path: Seq<u8>)
    ensures
        store::path_lines(Seq::empty()).len() == 0,
        store::path_lines(list.push(path)) == store::path_lines(list) + paths::lossy_text(path)
            + seq!['\n'],
{
    assert(list.push(path).drop_last() =~= list);
}

/// What is kept stands in a directory of its own: in that for caches, which is below the home
/// directory where none is set, and below the root where there is no home either.
pub proof fn lemma_store_is_below_the_cache(base: Seq<u8>, home: Seq<u8>)
    ensures
        ({
            let own = encode_utf8("tmux-jump"@);
            let hidden = encode_utf8(".cache"@);
            &&& paths::components(store::store_dir_of(Some(base), Some(home)))
                == paths::components(base).push(own)
            &&& paths::components(store::store_dir_of(Some(base), None)) == paths::components(
                base,
            ).push(own)
            &&& paths::components(store::store_dir_of(None, Some(home))) == paths::components(
                home,
            ).push(hidden).push(own)
            &&& paths::components(store::store_dir_of(None, None)) == seq![seq![47u8], hidden, own]
        }),
{
    lemma_own_names();
    let own = encode_utf8("tmux-jump"@);
    let hidden = encode_utf8(".cache"@);
    let root = seq![47u8];
    paths::lemma_joined_components(base, own);
    paths::lemma_joined_components(home, hidden);
    paths::lemma_joined_components(store::below(home, ".cache"@), own);
    paths::lemma_joined_components(root, hidden);
    paths::lemma_joined_components(store::below(root, ".cache"@), own);
    let none = Seq::<u8>::empty();
    path_laws::lemma_parts_at_the_last_slash(none, none);
    assert(none + seq![path_laws::slash()] + none =~= root);
    assert(seq![root].push(hidden).push(own) =~= seq![root, hidden, own]);
}

/// The names of the directories that are made can be those of entries.
proof fn lemma_own_names()
    ensures
        paths::is_entry_name(encode_utf8("tmux-jump"@)),
        paths::is_entry_name(encode_utf8(".cache"@)),
{
    reveal_strlit("tmux-jump");
    reveal_strlit(".cache");
    is_ascii_chars_encode_utf8("tmux-jump"@);
    is_ascii_chars_encode_utf8(".cache"@);
    let own = encode_utf8("tmux-jump"@);
    let hidden = encode_utf8(".cache"@);
    assert(own.len() == 9 && hidden.len() == 6);
    assert forall|i: int| 0 <= i < own.len() implies own[i] != paths::SLASH by {
        assert(own[i] == "tmux-jump"@[i] as u8);
    }
    assert forall|i: int| 0 <= i < hidden.len() implies hidden[i] != paths::SLASH by {
        assert(hidden[i] == ".cache"@[i] as u8);
    }
}

/// A name that was kept is read without the white space round it; where there is nothing else, there
/// is no name.
pub proof fn lemma_kept_name_is_read(s: Seq<char>)
    ensures
        store::name_in(s) is None <==> text_laws::is_white(s),
        store::name_in(s) is Some ==> store::name_in(s)->0 == text::trimmed(s),
{
    let parts = text_laws::lemma_trimming_takes_white_space(s);
}

/// The index is read line by line, each line being the path of a directory.
pub proof fn lemma_index_line_by_line(line: Seq<char>, rest: Seq<char>)
    requires
        !line.contains('\n'),
        !line.contains('\r'),
    ensures
        store::lines_as_paths(Seq::empty()).len() == 0,
        line.len() > 0 ==> store::lines_as_paths(line) == seq![encode_utf8(line)],
        store::lines_as_paths(line + seq!['\n'] + rest) == seq![encode_utf8(line)]
            + store::lines_as_paths(rest),
{
    text_laws::lemma_lines_by_parts(line, rest);
    if line.len() > 0 {
        assert(line.contains(line.last()));
        assert(store::lines_as_paths(line) =~= seq![encode_utf8(line)]);
    }
    assert(store::lines_as_paths(line + seq!['\n'] + rest) =~= seq![encode_utf8(line)]
        + store::lines_as_paths(rest));
}

} // verus!
