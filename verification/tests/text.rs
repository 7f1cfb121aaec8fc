use llm_wiki_server::order::TextSet;
use llm_wiki_server::paths::{
    extension_of, file_name_of, file_stem, sort_paths, stem_of, RelativePath,
};
use llm_wiki_server::text::{
    count_occurrences, decimal_text, find, is_ascii_letter, is_ascii_letter_or_digit,
    is_ascii_punctuation, is_whitespace, lines, replace, split_words, string_at_most, to_chars,
    to_text, trim, trim_suffixes,
};

fn chars(s: &str) -> Vec<char> {
    to_chars(s)
}

fn strings(parts: Vec<Vec<char>>) -> Vec<String> {
    parts.iter().map(|part| to_text(part)).collect()
}

#[test]
fn character_classes_are_those_of_the_standard_library() {
    for code in 0..=0x10ffff_u32 {
        if let Some(c) = char::from_u32(code) {
            assert_eq!(is_whitespace(c), c.is_whitespace(), "{code:x}");
            assert_eq!(is_ascii_punctuation(c), c.is_ascii_punctuation(), "{code:x}");
            assert_eq!(is_ascii_letter(c), c.is_ascii_alphabetic(), "{code:x}");
            assert_eq!(is_ascii_letter_or_digit(c), c.is_ascii_alphanumeric(), "{code:x}");
        }
    }
}

#[test]
fn trimming_and_searching_go_as_in_the_standard_library() {
    for s in ["", " ", "  a b\t\n", "\u{3000}x\u{85}", "aXbX", "X", "XX", "aaaa", "äXß"] {
        assert_eq!(to_text(trim(&chars(s))), s.trim());
        assert_eq!(to_text(trim_suffixes(&chars(s), &['X'])), s.trim_end_matches('X'));
        assert_eq!(count_occurrences(&chars(s), &['a', 'a']), s.matches("aa").count());
        assert_eq!(
            find(&chars(s), &['X']),
            s.chars().position(|c| c == 'X')
        );
        assert_eq!(
            to_text(&replace(&chars(s), &['a', 'a'], &['b'])),
            s.replace("aa", "b")
        );
        assert_eq!(
            strings(split_words(&chars(s))),
            s.split_whitespace().collect::<Vec<_>>()
        );
    }
    for s in ["", "a", "a\n", "a\nb", "a\r\nb\r\n", "\n\n", "a\rb\n", "\r\n"] {
        assert_eq!(strings(lines(&chars(s))), s.lines().collect::<Vec<_>>(), "{s:?}");
    }
}

#[test]
fn texts_are_ordered_as_strings_are() {
    let samples = ["", "a", "aa", "b", "B", "ä", "\u{ffff}", "\u{10000}", "知"];
    for a in samples {
        for b in samples {
            assert_eq!(string_at_most(a, b), a <= b, "{a} {b}");
        }
    }
}

#[test]
fn numbers_are_written_in_digits() {
    for n in [0, 7, 10, 42, 1_000_000, u64::MAX] {
        assert_eq!(decimal_text(n), n.to_string());
    }
}

#[test]
fn sets_of_texts_keep_them_in_order() {
    let mut set = TextSet::new();
    assert!(set.insert(chars("b")));
    assert!(set.insert(chars("a")));
    assert!(!set.insert(chars("b")));
    assert_eq!(set.len(), 2);
    assert_eq!(set.to_strings(), vec!["a", "b"]);
    assert!(set.contains(&['a']));
    assert!(!set.contains(&['c']));
    assert_eq!(set.position(&['b']), Some(1));
    let mut other = TextSet::new();
    other.insert(chars("b"));
    other.insert(chars("c"));
    assert_eq!(set.common(&other), 1);
}

#[test]
fn stems_and_extensions_go_as_in_the_standard_library() {
    for name in ["a.md", "a", ".a", "a.b.c", "a.", ".a.b", "a..b", "ä.md"] {
        let path = std::path::Path::new(name);
        assert_eq!(to_text(stem_of(&chars(name))), path.file_stem().unwrap().to_str().unwrap());
        assert_eq!(
            extension_of(&chars(name)).map(to_text),
            path.extension().map(|e| e.to_str().unwrap().to_string())
        );
    }
    for text in ["wiki/a.md", "a.md", "wiki/", "", "/", "a/b/.."] {
        let path = std::path::Path::new(text);
        assert_eq!(
            file_name_of(text),
            path.file_name().map(|name| name.to_str().unwrap().to_string()),
            "{text}"
        );
        assert_eq!(
            file_stem(text),
            path.file_stem().map_or(text.to_string(), |name| name.to_str().unwrap().to_string()),
            "{text}"
        );
    }
}

fn relative(names: &[&str]) -> RelativePath {
    let mut path = RelativePath::new();
    for name in names {
        path.push(name.to_string());
    }
    path
}

#[test]
fn paths_are_put_together_and_taken_apart() {
    let path = relative(&["wiki", "a.md"]);
    assert_eq!(path.to_text(), "wiki/a.md");
    assert_eq!(path.parent().to_text(), "wiki");
    assert_eq!(path.parent().parent().parent().to_text(), "");
    assert_eq!(path.parent().join("b").to_text(), "wiki/b");
    assert_eq!(relative(&["x"]).join_path(&path).to_text(), "x/wiki/a.md");
    assert_eq!(relative(&["a\\b", "c"]).browser_relative_path(), "a/b/c");
    assert_eq!(path.copy(), path);
}

#[test]
fn paths_are_sorted_name_by_name() {
    let sorted = sort_paths(vec![
        relative(&["wiki", "a-b.md"]),
        relative(&["wiki", "a", "c.md"]),
        relative(&["wiki", "a.md"]),
        relative(&["wiki"]),
    ]);
    let texts: Vec<String> = sorted.iter().map(|path| path.to_text()).collect();
    assert_eq!(texts, vec!["wiki", "wiki/a/c.md", "wiki/a-b.md", "wiki/a.md"]);
    let mut std_order: Vec<std::path::PathBuf> =
        texts.iter().map(std::path::PathBuf::from).collect();
    std_order.sort();
    let again: Vec<String> =
        std_order.iter().map(|path| path.to_str().unwrap().to_string()).collect();
    assert_eq!(texts, again);
}
