use std::path::{Component, Path};
use whenfs::number::{i64_text, parse_i32, parse_i64, u64_text};
use whenfs::order::{depth_order, text_order};
use whenfs::path::{depth, joined_path, path_key, strip_base};
use whenfs::text::{
    begins_with, blank, contains_part, joined, lines, padded, same_text, text_le, text_lt, white,
};

const PATHS: [&str; 24] = [
    "", "/", ".", "..", "a", "/a", "a/", "/a/", "a/b", "/a/b", "a//b", "/a//b/", "./a", "a/./b",
    "a/.", "/.", "/./a", "/..", "a/../b", "//", "///a", "/a/b/c", ".a", "a./b",
];

#[test]
fn white_space_is_what_the_standard_library_says() {
    for c in '\0'..=char::MAX {
        assert_eq!(white(c), c.is_whitespace(), "{c:?}");
    }
    assert!(blank(" \n\u{2003}"));
    assert!(!blank(" x "));
}

#[test]
fn paths_have_the_components_that_the_standard_library_sees() {
    for p in PATHS {
        let n = Path::new(p).components().count();
        assert_eq!(depth(p), n, "{p:?}");
    }
    assert_eq!(Path::new("/a").components().next(), Some(Component::RootDir));
}

#[test]
fn texts_have_the_same_key_if_they_are_the_same_path() {
    for p in PATHS {
        for q in PATHS {
            let same = Path::new(p) == Path::new(q);
            assert_eq!(path_key(p) == path_key(q), same, "{p:?} {q:?}");
        }
    }
}

#[test]
fn stripping_a_base_is_what_the_standard_library_does() {
    for p in PATHS {
        for base in PATHS {
            let own = strip_base(p, base);
            let other = Path::new(p).strip_prefix(base).ok();
            assert_eq!(own.is_some(), other.is_some(), "{p:?} {base:?}");
            if let (Some(own), Some(other)) = (own, other) {
                assert_eq!(Path::new(&own), other, "{p:?} {base:?}");
            }
        }
    }
}

#[test]
fn joining_paths_is_what_the_standard_library_does() {
    for p in PATHS {
        for rel in PATHS {
            let own = joined_path(p, rel);
            assert_eq!(own, Path::new(p).join(rel).to_str().unwrap(), "{p:?} {rel:?}");
        }
    }
}

#[test]
fn lines_are_what_the_standard_library_splits() {
    for s in [
        "", "\n", "a", "a\n", "a\nb", "a\r\nb\r\n", "\r\n", "a\r", "a\r\r\nb", "\n\na\n\n", "a\rb\n",
    ] {
        let other: Vec<String> = s.lines().map(|l| l.to_string()).collect();
        assert_eq!(lines(s), other, "{s:?}");
    }
}

#[test]
fn numbers_are_read_and_written_like_the_standard_library() {
    for n in [0u64, 1, 9, 10, 99, 100, 18446744073709551615] {
        assert_eq!(u64_text(n), n.to_string());
    }
    for n in [0i64, -1, 10, -10, i64::MIN, i64::MAX] {
        assert_eq!(i64_text(n), n.to_string());
    }
    for s in [
        "", "+", "-", "0", "-0", "+7", "007", "9223372036854775807", "9223372036854775808",
        "-9223372036854775808", "-9223372036854775809", "1 ", "1x", "--1", "2147483647",
        "2147483648", "-2147483648", "-2147483649",
    ] {
        assert_eq!(parse_i64(s), s.parse::<i64>().ok(), "{s:?}");
        assert_eq!(parse_i32(s), s.parse::<i32>().ok(), "{s:?}");
    }
}

#[test]
fn texts_compare_like_the_standard_library() {
    let list = ["", "a", "ab", "b", "B", "é", "e\u{301}", "\u{10000}", "\u{ffff}", "a\0"];
    for x in list {
        for y in list {
            assert_eq!(same_text(x, y), x == y);
            assert_eq!(text_lt(x, y), x < y, "{x:?} {y:?}");
            assert_eq!(text_le(x, y), x <= y, "{x:?} {y:?}");
            assert_eq!(contains_part(x, y), x.contains(y), "{x:?} {y:?}");
            assert_eq!(begins_with(x, y), x.starts_with(y), "{x:?} {y:?}");
        }
    }
}

#[test]
fn padding_and_joining() {
    for (s, n) in [("", 3), ("ab", 3), ("abc", 3), ("abcd", 3), ("é←", 4)] {
        assert_eq!(padded(s, n), format!("{s:<n$}"));
    }
    let list: Vec<String> = ["a", "", "b"].iter().map(|s| s.to_string()).collect();
    assert_eq!(joined(&list, "+"), "a++b");
    assert_eq!(joined(&vec![], "+"), "");
}

#[test]
fn orders_are_stable() {
    let keys: Vec<String> = ["b", "a", "b", "", "a"].iter().map(|s| s.to_string()).collect();
    assert_eq!(text_order(&keys), vec![3, 1, 4, 0, 2]);
    assert_eq!(depth_order(&vec![1, 3, 2, 3, 1]), vec![1, 3, 2, 0, 4]);
}
