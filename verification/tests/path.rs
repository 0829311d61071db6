use rcat::order::chars_leq;
use rcat::path::{components_of, extension_of, is_hidden_path, split_chars, starts_with_parts};
use rcat::text::{chars_of, string_of, trim_bounds};

fn chars(s: &str) -> Vec<char> {
    s.chars().collect()
}

fn strings(parts: Vec<Vec<char>>) -> Vec<String> {
    parts.into_iter().map(|p| p.into_iter().collect()).collect()
}

#[test]
fn split_keeps_empty_pieces() {
    assert_eq!(strings(split_chars(&chars("a/b//c/"), '/')), vec!["a", "b", "", "c", ""]);
    assert_eq!(strings(split_chars(&chars(""), '/')), vec![""]);
    assert_eq!(strings(split_chars(&chars("/"), '/')), vec!["", ""]);
    assert_eq!(strings(split_chars(&chars("abc"), '/')), vec!["abc"]);
}

#[test]
fn components_drop_empty_pieces_and_inner_dots() {
    assert_eq!(strings(components_of(&chars("/a//b/./c/"))), vec!["a", "b", "c"]);
    assert_eq!(strings(components_of(&chars("./a/./b"))), vec![".", "a", "b"]);
    assert_eq!(strings(components_of(&chars("/./a"))), vec!["a"]);
    assert_eq!(strings(components_of(&chars("."))), vec!["."]);
    assert_eq!(strings(components_of(&chars("././."))), vec!["."]);
    assert_eq!(strings(components_of(&chars("a/../b"))), vec!["a", "..", "b"]);
    assert!(components_of(&chars("")).is_empty());
    assert!(components_of(&chars("///")).is_empty());
}

#[test]
fn prefix_of_components() {
    let path = components_of(&chars("/a/b/c"));
    assert!(starts_with_parts(&path, &components_of(&chars("/a/b"))));
    assert!(starts_with_parts(&path, &components_of(&chars("/a/b/c"))));
    assert!(starts_with_parts(&path, &components_of(&chars(""))));
    assert!(!starts_with_parts(&path, &components_of(&chars("/a/c"))));
    assert!(!starts_with_parts(&path, &components_of(&chars("/a/b/c/d"))));
    assert!(!starts_with_parts(&path, &components_of(&chars("/a/bb"))));
}

#[test]
fn hidden_is_a_leading_dot_of_the_file_name() {
    assert!(is_hidden_path(&chars(".git")));
    assert!(is_hidden_path(&chars("a/b/.env")));
    assert!(is_hidden_path(&chars("a/.config/")));
    assert!(is_hidden_path(&chars("a/...")));
    assert!(!is_hidden_path(&chars(".git/config")));
    assert!(!is_hidden_path(&chars(".")));
    assert!(!is_hidden_path(&chars("..")));
    assert!(!is_hidden_path(&chars("a/..")));
    assert!(!is_hidden_path(&chars("")));
    assert!(!is_hidden_path(&chars("a.b")));
}

#[test]
fn extension_of_paths() {
    let ext = |p: &str| extension_of(&chars(p)).map(|e| e.into_iter().collect::<String>());
    assert_eq!(ext("a/b.txt"), Some("txt".to_string()));
    assert_eq!(ext("a/b.tar.gz"), Some("gz".to_string()));
    assert_eq!(ext("a/.hidden"), None);
    assert_eq!(ext("a/.hidden.txt"), Some("txt".to_string()));
    assert_eq!(ext("a.d/b"), None);
    assert_eq!(ext("a/b."), Some(String::new()));
    assert_eq!(ext(".."), None);
    assert_eq!(ext(""), None);
}

#[test]
fn texts_are_ordered_character_by_character() {
    assert!(chars_leq(&chars(""), &chars("")));
    assert!(chars_leq(&chars(""), &chars("a")));
    assert!(!chars_leq(&chars("a"), &chars("")));
    assert!(chars_leq(&chars("a"), &chars("ab")));
    assert!(chars_leq(&chars("ab"), &chars("b")));
    assert!(!chars_leq(&chars("b"), &chars("ab")));
    assert!(chars_leq(&chars("Z"), &chars("a")));
    assert!(chars_leq(&chars("a.b"), &chars("a/b")));
    assert!(chars_leq(&chars("z"), &chars("\u{e9}")));
}

#[test]
fn strings_and_characters_convert_both_ways() {
    let text = "h\u{e9}llo \u{4e16}\u{754c}";
    assert_eq!(chars_of(text), chars(text));
    assert_eq!(string_of(&chars(text)), text);
    assert_eq!(string_of(&[]), "");
}

#[test]
fn trim_takes_white_space_off_both_ends() {
    let trimmed = |s: &str| {
        let c = chars(s);
        let (from, to) = trim_bounds(&c);
        c[from..to].iter().collect::<String>()
    };
    assert_eq!(trimmed("  a b \t\r\n"), "a b");
    assert_eq!(trimmed(""), "");
    assert_eq!(trimmed(" \u{a0}\u{2003}\u{3000} "), "");
    assert_eq!(trimmed("\u{feff}x"), "\u{feff}x");
    for s in ["", " x ", "\u{85}y\u{1680}", "\u{200b}z", "\u{2028}\u{2029}w\u{202f}\u{205f}"] {
        assert_eq!(trimmed(s), s.trim());
    }
}
