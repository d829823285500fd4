//! Laws of paths: how a path is taken apart at its slashes, and what its file name is.
use crate::paths;
use vstd::prelude::*;
use vstd::utf8::*;

verus! {

/// The byte of a slash.
pub open spec fn slash() -> u8 {
    47
}

/// Whether a piece between slashes says nothing: it is empty, or a single dot.
pub open spec fn says_nothing(piece: Seq<u8>) -> bool {
    piece.len() == 0 || piece == seq![46u8]
}

proof fn lemma_end_is(s: Seq<u8>, i: int, end: int)
    requires
        0 <= i <= end <= s.len(),
        end < s.len() ==> s[end] == slash(),
        forall|k: int| i <= k < end ==> s[k] != slash(),
    ensures
        paths::name_end(s, i) == end,
    decreases end - i,
{
    if i < end {
        lemma_end_is(s, i + 1, end);
    }
}

proof fn lemma_names_of_piece(piece: Seq<u8>)
    requires
        !piece.contains(slash()),
    ensures
        paths::names_from(piece, 0) == if says_nothing(piece) {
            Seq::empty()
        } else {
            seq![piece]
        },
{
    reveal_with_fuel(paths::names_from, 2);
    if piece.len() > 0 {
        lemma_end_is(piece, 0, piece.len() as int);
        assert(piece.subrange(0, piece.len() as int) =~= piece);
    }
}

proof fn lemma_names_behind(a: Seq<u8>, s: Seq<u8>, i: int)
    requires
        0 <= i,
    ensures
        paths::names_from(a + s, a.len() + i) == paths::names_from(s, i),
    decreases s.len() + 1 - i,
{
    if i < s.len() {
        paths::lemma_name_end(s, i);
        let end = paths::name_end(s, i);
        let all = a + s;
        assert forall|k: int| a.len() + i <= k < a.len() + end implies all[k] != slash() by {
            assert(all[k] == s[k - a.len()]);
        }
        if end < s.len() {
            assert(all[a.len() + end] == s[end]);
        }
        lemma_end_is(all, a.len() + i, a.len() + end);
        lemma_names_behind(a, s, end + 1);
        assert(all.subrange(a.len() + i, a.len() + end) =~= s.subrange(i, end));
    }
}

proof fn lemma_names_at_slash(p: Seq<u8>, tail: Seq<u8>, i: int)
    requires
        0 <= i <= p.len() + 1,
    ensures
        paths::names_from(p + seq![slash()] + tail, i) == paths::names_from(p, i)
            + paths::names_from(tail, 0),
    decreases p.len() + 2 - i,
{
    let front = p + seq![slash()];
    let all = front + tail;
    if i == p.len() + 1 {
        lemma_names_behind(front, tail, 0);
    } else {
        let end = if i < p.len() {
            paths::name_end(p, i)
        } else {
            i
        };
        if i < p.len() {
            paths::lemma_name_end(p, i);
        }
        assert forall|k: int| i <= k < end implies all[k] != slash() by {
            assert(all[k] == p[k]);
        }
        assert(all[end] == slash()) by {
            if end < p.len() {
                assert(all[end] == p[end]);
            }
        }
        lemma_end_is(all, i, end);
        lemma_names_at_slash(p, tail, end + 1);
        if i < p.len() {
            assert(all.subrange(i, end) =~= p.subrange(i, end));
        } else {
            assert(all.subrange(i, end).len() == 0);
        }
    }
}

proof fn lemma_start_at_slash(p: Seq<u8>, tail: Seq<u8>)
    ensures
        paths::start_of(p + seq![slash()] + tail) == if p.len() > 0 {
            paths::start_of(p)
        } else {
            seq![seq![slash()]]
        },
{
    let all = p + seq![slash()] + tail;
    if p.len() > 0 {
        assert(all[0] == p[0]);
        paths::lemma_name_end(p, 0);
        let end = paths::name_end(p, 0);
        assert forall|k: int| 0 <= k < end implies all[k] != slash() by {
            assert(all[k] == p[k]);
        }
        assert(all[end] == slash()) by {
            if end < p.len() {
                assert(all[end] == p[end]);
            }
        }
        lemma_end_is(all, 0, end);
        assert(all.subrange(0, end) =~= p.subrange(0, end));
    } else {
        assert(all[0] == slash());
    }
}

/// What the parts of a path are. A path without a slash is its own only part; an empty one has none.
/// What stands behind the last slash is one more part than those before it, unless it is empty or a
/// single dot. A slash in front is a part of its own.
pub proof fn lemma_parts_at_the_last_slash(before: Seq<u8>, piece: Seq<u8>)
    requires
        !piece.contains(slash()),
    ensures
        paths::components(piece) == if piece.len() == 0 {
            Seq::empty()
        } else {
            seq![piece]
        },
        paths::components(before + seq![slash()] + piece) == {
            let first = if before.len() == 0 {
                seq![seq![slash()]]
            } else {
                paths::components(before)
            };
            if says_nothing(piece) {
                first
            } else {
                first.push(piece)
            }
        },
{
    lemma_names_of_piece(piece);
    lemma_names_at_slash(before, piece, 0);
    lemma_start_at_slash(before, piece);
    if piece.len() > 0 {
        if piece[0] == slash() {
            assert(piece.contains(slash()));
        }
        lemma_end_is(piece, 0, piece.len() as int);
        assert(piece.subrange(0, piece.len() as int) =~= piece);
    }
    let first = if before.len() == 0 {
        seq![seq![slash()]]
    } else {
        paths::components(before)
    };
    assert(paths::components(before + seq![slash()] + piece) =~= first + paths::names_from(
        piece,
        0,
    ));
}

/// What the file name of a path is: what stands behind its last slash; where that is empty or a single
/// dot, the file name of what comes before; and nothing where it is two dots.
pub proof fn lemma_file_name_at_the_last_slash(before: Seq<u8>, piece: Seq<u8>)
    requires
        !piece.contains(slash()),
    ensures
        says_nothing(piece) ==> paths::file_name_of(piece) is None && paths::file_name_of(
            before + seq![slash()] + piece,
        ) == paths::file_name_of(before),
        piece == seq![46u8, 46u8] ==> paths::file_name_of(piece) is None && paths::file_name_of(
            before + seq![slash()] + piece,
        ) is None,
        !says_nothing(piece) && piece != seq![46u8, 46u8] ==> paths::file_name_of(piece) == Some(
            piece,
        ) && paths::file_name_of(before + seq![slash()] + piece) == Some(piece),
{
    lemma_names_of_piece(piece);
    lemma_names_at_slash(before, piece, 0);
    assert(paths::names_from(before, 0) + Seq::<Seq<u8>>::empty() =~= paths::names_from(before, 0));
}

/// The name of a path is the text of its file name, where that is a text.
pub proof fn lemma_name_is_the_text(path: Seq<u8>, name: Seq<char>)
    ensures
        paths::name_text_of(path) == Some(name) <==> paths::file_name_of(path) == Some(
            encode_utf8(name),
        ),
{
    encode_utf8_valid_utf8(name);
    encode_utf8_decode_utf8(name);
    match paths::file_name_of(path) {
        Some(bytes) => {
            if valid_utf8(bytes) {
                decode_utf8_encode_utf8(bytes);
            }
        },
        None => {},
    }
}

/// A path is shown as the text that its bytes stand for.
pub proof fn lemma_text_is_shown(s: Seq<char>)
    ensures
        paths::lossy_text(encode_utf8(s)) == s,
        paths::utf8_text(encode_utf8(s)) == Some(s),
{
    encode_utf8_valid_utf8(s);
    encode_utf8_decode_utf8(s);
}

} // verus!
