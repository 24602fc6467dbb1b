use gcan::number::{decimal_text, read_number};
use gcan::paths::{file_name, join_path, parent, path_at_most, read_indirect};
use gcan::sort::merge_sort;
use gcan::text::{
    align_right, contains, ends_with, join, lines, same_text, sort_and_dedup, starts_with,
    text_at_most, trim, ByText,
};

fn strings(v: &[&str]) -> Vec<String> {
    v.iter().map(|s| s.to_string()).collect()
}

#[test]
fn texts_compare_like_str() {
    let samples = ["", "a", "ab", "b", "A", "é", "\u{10000}", "\u{ffff}", "a\u{0}", "/x/-", "/x//"];
    for a in samples {
        for b in samples {
            assert_eq!(text_at_most(a, b), a <= b, "{a:?} {b:?}");
            assert_eq!(same_text(a, b), a == b);
            assert_eq!(contains(a, b), a.contains(b));
            assert_eq!(starts_with(a, b), a.starts_with(b));
            assert_eq!(ends_with(a, b), a.ends_with(b));
        }
    }
}

#[test]
fn white_space_is_trimmed() {
    for s in ["", " ", " a b\t\n", "\u{3000}x\u{a0}", "x", "\u{200b}y", "\u{85}z\u{2028}"] {
        assert_eq!(trim(s), s.trim());
    }
}

#[test]
fn texts_are_split_into_lines() {
    for s in ["", "a", "a\n", "a\nb", "a\r\nb\r", "\n\n", "\r\n", "a\rb\n", "x\r\r\n"] {
        let expected: Vec<String> = s.lines().map(|l| l.to_string()).collect();
        assert_eq!(lines(s), expected, "{s:?}");
    }
}

#[test]
fn texts_are_joined_and_aligned() {
    assert_eq!(join(&strings(&["a", "b", "c"]), "\n"), "a\nb\nc");
    assert_eq!(join(&strings(&[]), "\n"), "");
    assert_eq!(align_right("é", 3), format!("{:>3}", "é"));
    assert_eq!(align_right("long", 2), "long");
}

#[test]
fn texts_are_sorted_and_deduplicated() {
    let v = strings(&["b", "a", "b", "", "é", "a"]);
    assert_eq!(sort_and_dedup(v), strings(&["", "a", "b", "é"]));
}

#[test]
fn sorting_is_stable_and_complete() {
    let v = strings(&["b", "a", "c", "a", "b"]);
    assert_eq!(merge_sort(&ByText, v), strings(&["a", "a", "b", "b", "c"]));
    assert_eq!(merge_sort(&ByText, Vec::new()), Vec::<String>::new());
}

#[test]
fn numbers_read_back() {
    for n in [0u64, 7, 10, 99, 100, 1_000_000, u64::MAX] {
        assert_eq!(decimal_text(n), n.to_string());
        assert_eq!(read_number(&decimal_text(n)), Some(n));
    }
    for s in ["", "+", "+5", "-5", "5 ", "05", "18446744073709551616", "x", "++1"] {
        assert_eq!(read_number(s), s.parse::<u64>().ok(), "{s:?}");
    }
}

#[test]
fn paths_behave_like_std() {
    let samples = [
        "", "/", "a", "/a", "a/b", "/a/b", "/a/b/", "/a//b", "/a/./b", "/a/b/.", ".", "./a", "..",
        "/..", "/a/..", "a/../b", "//", "/a//", "./", "a/.", "...", "/.a",
    ];
    for s in samples {
        let p = std::path::Path::new(s);
        let expected = p.parent().map(|q| q.to_str().unwrap().as_bytes().to_vec());
        assert_eq!(parent(s.as_bytes()), expected, "parent of {s:?}");
        let expected = p.file_name().map(|q| q.to_str().unwrap().as_bytes().to_vec());
        assert_eq!(file_name(s.as_bytes()), expected, "file name of {s:?}");
        for t in ["", "x", "/x", "../y"] {
            let expected = p.join(t).to_str().unwrap().as_bytes().to_vec();
            assert_eq!(join_path(s.as_bytes(), t.as_bytes()), expected, "{s:?} {t:?}");
        }
    }
}

#[test]
fn paths_of_a_tree_are_ordered_part_by_part() {
    let samples = ["/g/a", "/g/a/b", "/g/a-b", "/g/a/z", "/g/ab", "/g/b", "/g/a/b/c", "/g/a.b/c"];
    for a in samples {
        for b in samples {
            let expected = std::path::Path::new(a) <= std::path::Path::new(b);
            assert_eq!(path_at_most(a.as_bytes(), b.as_bytes()), expected, "{a} {b}");
        }
    }
}

#[test]
fn symlinks_are_read_one_level() {
    let read = |link: &str, raw: &str| {
        read_indirect(link.as_bytes(), raw.as_bytes()).map(|v| String::from_utf8(v).unwrap())
    };
    assert_eq!(read("/g/auto/x", "/home/u/result").as_deref(), Some("/home/u/result"));
    assert_eq!(read("/g/auto/x", "../y").as_deref(), Some("/g/auto/../y"));
    assert_eq!(read("/", "y"), None);
}
