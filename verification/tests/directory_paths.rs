use std::path::Path;

use tmux_jump::paths::DirPath;

const PATHS: [&str; 22] = [
    "", "/", "//", "a", "/a", "a/", "/a/", "//a", "a//b", "a/./b", "./a", ".", "..", "/.", "/..",
    "a/..", "a/.", "../a", "/a/../b", "./.", "a/b/c", ".a",
];

#[test]
fn names_are_those_of_std() {
    for text in PATHS {
        let path = DirPath::from_text(text);
        let expected = Path::new(text).file_name().map(|name| name.as_encoded_bytes().to_vec());
        assert_eq!(path.file_name(), expected, "{text:?}");
        assert_eq!(path.name_text().as_deref(), Path::new(text).file_name().and_then(|n| n.to_str()));
    }
}

#[test]
fn paths_are_equal_where_std_says_so() {
    for a in PATHS {
        for b in PATHS {
            let expected = Path::new(a) == Path::new(b);
            assert_eq!(DirPath::from_text(a).same(&DirPath::from_text(b)), expected, "{a:?} {b:?}");
        }
    }
}

#[test]
fn joining_adds_a_slash_where_it_is_missing() {
    for text in PATHS {
        let joined = DirPath::from_text(text).join(&b"x".to_vec());
        let expected = Path::new(text).join("x");
        assert_eq!(joined.bytes, expected.as_os_str().as_encoded_bytes(), "{text:?}");
    }
}

#[test]
fn bytes_that_are_no_text_are_replaced() {
    let path = DirPath { bytes: vec![b'/', b'a', 0xff, b'b'] };
    assert_eq!(path.text(), "/a\u{fffd}b");
    assert_eq!(path.name_text(), None);
    assert_eq!(path.file_name(), Some(vec![b'a', 0xff, b'b']));
    assert_eq!(DirPath::from_text("/ä").text(), "/ä");
    assert_eq!(DirPath::from_text("/ä").name_text().as_deref(), Some("ä"));
}

#[test]
fn copies_are_equal() {
    let path = DirPath::from_text("/home/me");
    assert_eq!(path.clone().bytes, path.bytes);
}
