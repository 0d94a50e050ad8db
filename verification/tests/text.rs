use sennit::order::{sort, text_not_after};
use sennit::path::{
    is_absolute, is_contained, parts, path_eq, path_extension, path_join, path_listed,
    path_not_after, path_within, stem,
};
use sennit::table::Table;
use sennit::text::{
    bytes_in, chars_of, cut, find, join, lines, parse_octal, replace, same_text, space, split_once,
    string_of, tail_after, to_decimal, to_hexadecimal, to_octal, trim, words, Sep,
};
use std::path::Path;

fn c(s: &str) -> Vec<char> {
    chars_of(s)
}

#[test]
fn white_space_is_what_the_standard_library_says() {
    for n in 0..=0x10ffff_u32 {
        if let Some(x) = char::from_u32(n) {
            assert_eq!(space(x), x.is_whitespace(), "{n:x}");
        }
    }
}

#[test]
fn word_characters_are_what_the_standard_library_says() {
    for x in ['a', 'Z', '0', 'é', '語', '٣', '-', '_', ' ', '.', '/', '~'] {
        let word = x.is_alphanumeric() || x == '-' || x == '_';
        assert_eq!(Sep::NonWord.hits(x), !word, "{x}");
    }
}

#[test]
fn texts_are_split_like_the_standard_library_does() {
    for s in ["", "a", "a,b", ",a,,b,", "語,é", ",", "a b\tc\n d"] {
        let pieces: Vec<&str> = s.split(',').collect();
        assert_eq!(cut(&c(s), Sep::Is(',')), pieces);
        let ws: Vec<&str> = s.split_whitespace().collect();
        assert_eq!(words(&c(s)), ws);
        assert_eq!(string_of(trim(&c(s))), s.trim());
        let once = s.split_once(',');
        let chars = c(s);
        let got = split_once(&chars, Sep::Is(','));
        assert_eq!(got.map(|(a, b)| (string_of(a), string_of(b))), once.map(|(a, b)| (a.to_string(), b.to_string())));
        let chars = c(s);
        let tail = string_of(tail_after(&chars, Sep::Is(',')));
        assert_eq!(Some(tail.as_str()), s.rsplit(',').next());
    }
}

#[test]
fn lines_are_those_of_the_standard_library() {
    for s in ["", "\n", "a", "a\n", "a\r\nb\r", "a\n\nb", "\r\n", "a\r\r\n", "x\ny\n\n"] {
        let expected: Vec<&str> = s.lines().collect();
        assert_eq!(lines(&c(s)), expected, "{s:?}");
    }
}

#[test]
fn replacing_and_finding() {
    for (s, p, to) in [
        ("{}/{}", "{}", "x"),
        ("aaa", "aa", "b"),
        ("abc", "z", "y"),
        ("a b c", " ", ""),
        ("ééé", "é", "ee"),
    ] {
        assert_eq!(replace(&c(s), p, to), s.replace(p, to));
        let at = s.find(p).map(|i| s[..i].chars().count());
        assert_eq!(find(&c(s), p), at);
    }
}

#[test]
fn numbers_are_written() {
    for n in [0, 7, 10, 99, 100, 12345, usize::MAX] {
        assert_eq!(to_decimal(n), n.to_string());
    }
    for n in [0, 1, 255, 0xdead_beef, u64::MAX] {
        assert_eq!(to_hexadecimal(n, 16), format!("{n:016x}"));
    }
    for n in [0, 7, 8, 0o600, 0o7777, u32::MAX] {
        assert_eq!(to_octal(n, 3), format!("{n:03o}"));
    }
}

#[test]
fn octal_numbers_are_read_like_the_standard_library_does() {
    for s in ["", "+", "-1", "+7", "600", "0600", "8", "6 0", "37777777777", "40000000000", "é"] {
        assert_eq!(parse_octal(s), u32::from_str_radix(s, 8).ok(), "{s:?}");
    }
}

#[test]
fn small_things() {
    assert_eq!(bytes_in("é語"), "é語".len());
    assert!(same_text("é", "é"));
    assert!(!same_text("a", "ab"));
    assert_eq!(join(&vec!["a".to_string(), "b".to_string()], ", "), "a, b");
    assert_eq!(join(&vec![], ", "), "");
}

#[test]
fn texts_are_ordered_like_strings() {
    let all = ["", "a", "ab", "b", "é", "z", "語", "\u{ffff}", "\u{10000}"];
    for a in all {
        for b in all {
            assert_eq!(text_not_after(a, b), a <= b, "{a:?} {b:?}");
        }
    }
}

#[test]
fn sorting_is_stable() {
    let v = vec![
        ("b".to_string(), 2),
        ("a".to_string(), 9),
        ("b".to_string(), 1),
    ];
    let mut expected = v.clone();
    expected.sort();
    assert_eq!(sort(v), expected);
}

fn paths() -> Vec<&'static str> {
    vec![
        "", ".", "..", "/", "//", "a", "a/", "./a", "a/.", "a/./b", "a//b", "a/b", "/a/b", "/a/../b",
        "a/..", ".config", ".config/x.y", "x.tar.gz", ".hidden", "a.", "..a", "b..", "a/b/c",
    ]
}

#[test]
fn paths_behave_like_those_of_the_standard_library() {
    for a in paths() {
        let p = Path::new(a);
        let components: Vec<String> = p
            .components()
            .map(|x| x.as_os_str().to_str().unwrap().to_string())
            .collect();
        assert_eq!(parts(a), components, "{a:?}");
        assert_eq!(is_absolute(a), p.is_absolute(), "{a:?}");
        assert_eq!(
            path_extension(a).as_deref(),
            p.extension().map(|e| e.to_str().unwrap()),
            "{a:?}"
        );
        for b in paths() {
            let q = Path::new(b);
            assert_eq!(path_eq(a, b), p == q, "{a:?} {b:?}");
            assert_eq!(path_within(a, b), p.starts_with(q), "{a:?} {b:?}");
            assert_eq!(path_not_after(a, b), p <= q, "{a:?} {b:?}");
            assert_eq!(path_join(a, b), p.join(q).to_str().unwrap(), "{a:?} {b:?}");
            assert_eq!(
                path_listed(&vec!["zz".to_string(), b.to_string()], a),
                p == q
            );
        }
    }
}

#[test]
fn stems_are_those_of_the_standard_library() {
    for name in ["a", "a.b", "a.b.c", ".a", ".a.b", "a.", "kitty.conf"] {
        assert_eq!(
            Some(stem(name).as_str()),
            Path::new(name).file_stem().map(|s| s.to_str().unwrap())
        );
    }
}

#[test]
fn a_contained_path_stays_inside() {
    for (p, inside) in [
        ("a", true),
        ("a/b", true),
        ("./a", true),
        ("", true),
        ("..a", true),
        ("..", false),
        ("a/../b", false),
        ("/a", false),
    ] {
        assert_eq!(is_contained(p), inside, "{p:?}");
    }
}

#[test]
fn a_table_keeps_its_keys_in_order() {
    let mut t = Table::new();
    for (k, v) in [("b", 1), ("a", 2), ("c", 3), ("b", 4), ("é", 5)] {
        t.insert(k.to_string(), v);
    }
    assert_eq!(t.keys(), vec!["a", "b", "c", "é"]);
    assert_eq!(t.get("b"), Some(&4));
    assert_eq!(t.get("z"), None);
    assert_eq!(t.len(), 4);
    assert!(!t.is_empty());
    assert!(t.contains_key("a"));
    assert_eq!(t.key(0), "a");
    assert_eq!(*t.value(0), 2);
}
