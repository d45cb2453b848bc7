use ruststruct::file_map::FileMap;
use ruststruct::path::{components_of, file_name, join, parent, Component};
use ruststruct::text::{chars_of, replace_all, string_from, trim_chars};
use ruststruct::UserConfig;

fn s(v: &[char]) -> String {
    v.iter().collect()
}

#[test]
fn file_map_keeps_keys_ordered_and_later_writes_win() {
    let mut m = FileMap::new();
    m.insert("b".to_string(), "1".to_string());
    m.insert("a/b".to_string(), "2".to_string());
    m.insert("a-b".to_string(), "3".to_string());
    m.insert("b".to_string(), "4".to_string());
    let keys: Vec<&str> = m.entries().iter().map(|(k, _)| k.as_str()).collect();
    assert_eq!(keys, ["a-b", "a/b", "b"]);
    assert_eq!(m.get("b").unwrap(), "4");
    assert!(m.get("c").is_none());
    assert_eq!(m.len(), 3);

    let mut other = FileMap::from_pairs(vec![("c".into(), "5".into()), ("b".into(), "6".into()), ("c".into(), "7".into())]);
    assert_eq!(other.get("c").unwrap(), "7");
    m.extend(&other);
    assert_eq!(m.get("b").unwrap(), "6");
    assert_eq!(m.get("c").unwrap(), "7");
    other.insert("é".into(), "8".into());
    let keys: Vec<&str> = other.entries().iter().map(|(k, _)| k.as_str()).collect();
    assert_eq!(keys, ["b", "c", "é"]);
}

#[test]
fn user_config_emptiness() {
    assert!(UserConfig::default().is_empty());
    let cfg = UserConfig { dirs: vec!["x".into()], files: FileMap::new() };
    assert!(!cfg.is_empty());
    assert_eq!(UserConfig::FILE_NAME, ".ruststruct.json");
}

#[test]
fn components_follow_unix_path_rules() {
    let kinds = |p: &str| -> Vec<String> {
        components_of(&chars_of(p))
            .iter()
            .map(|c| match c {
                Component::RootDir => "/".to_string(),
                Component::CurDir => ".".to_string(),
                Component::ParentDir => "..".to_string(),
                Component::Normal(n) => s(n),
            })
            .collect()
    };
    assert_eq!(kinds("/a//b/./c/"), ["/", "a", "b", "c"]);
    assert_eq!(kinds("./a/../b"), [".", "a", "..", "b"]);
    assert_eq!(kinds("a/."), ["a"]);
    assert!(kinds("").is_empty());
    assert_eq!(kinds(".a"), [".a"]);
}

#[test]
fn parent_and_file_name_match_std() {
    for p in ["a/b/c", "a//b/", "/a", "/", "./a", ".", "..", "x", "a/./b", "a/b/.", "", "//a//b//", "../a", "a/.."] {
        let std_parent = std::path::Path::new(p).parent().map(|q| q.to_str().unwrap().to_string());
        let ours = parent(&chars_of(p)).map(|q| s(&q));
        assert_eq!(ours, std_parent, "parent of {p:?}");
        let std_name = std::path::Path::new(p).file_name().map(|n| n.to_str().unwrap().to_string());
        let ours = file_name(&chars_of(p)).map(|n| s(&n));
        assert_eq!(ours, std_name, "file name of {p:?}");
    }
}

#[test]
fn join_matches_std() {
    for (a, b) in [("root", "x"), ("root/", "x"), ("", "x"), ("r", "/abs"), ("r", "")] {
        let std_join = std::path::Path::new(a).join(b).to_str().unwrap().to_string();
        assert_eq!(s(&join(&chars_of(a), &chars_of(b))), std_join, "{a:?} join {b:?}");
    }
}

#[test]
fn replace_and_trim_match_std() {
    for (text, pat, to) in [("a-b-c", "-", "_"), ("aaa", "aa", "b"), ("{{x}}{{x}}", "{{x}}", "y"), ("none", "z", "q")] {
        let ours = string_from(&replace_all(&chars_of(text), &chars_of(pat), &chars_of(to)));
        assert_eq!(ours, text.replace(pat, to));
    }
    for text in ["  a b  ", "\u{3000}x\u{85}", "", " \t\n", "x"] {
        assert_eq!(s(&trim_chars(&chars_of(text))), text.trim());
    }
}

#[test]
fn cloned_file_map_has_the_same_entries() {
    let mut m = FileMap::new();
    m.insert("src/lib.rs".to_string(), "pub fn f() {}\n".to_string());
    m.insert("README.md".to_string(), "# x\n".to_string());
    let c = m.clone();
    m.insert("extra".to_string(), String::new());
    assert_eq!(c.entries(), &vec![
        ("README.md".to_string(), "# x\n".to_string()),
        ("src/lib.rs".to_string(), "pub fn f() {}\n".to_string()),
    ]);
    assert_eq!(m.len(), 3);
}

#[test]
fn configs_and_options_compare_by_value() {
    let mut a = UserConfig::default();
    a.dirs.push("scripts".to_string());
    a.files.insert("x".to_string(), "1".to_string());
    let b = a.clone();
    assert_eq!(a, b);
    a.files.insert("x".to_string(), "2".to_string());
    assert_ne!(a, b);
    let o = ruststruct::ScaffoldOptions::new("demo");
    assert_eq!(o.clone(), o);
    assert_ne!(ruststruct::ScaffoldOptions::new("other"), o);
}
