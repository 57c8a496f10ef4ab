use bliss::text::{contains_text, file_stem, join_lines, split_on};
use bliss::{Cache, Gitignore};

fn sorted(mut v: Vec<String>) -> Vec<String> {
    v.sort();
    v
}

#[test]
fn document_from_string_splits_lines() {
    let g = Gitignore::from_string("a\n\nb\n");
    assert_eq!(g.lines(), &vec!["a".to_string(), "".to_string(), "b".to_string(), "".to_string()]);
    assert_eq!(g.text(), "a\n\nb\n");
    assert_eq!(g.to_string(), "a\n\nb\n\n");
}

#[test]
fn empty_document_has_one_empty_line() {
    let g = Gitignore::from_string("");
    assert_eq!(g.lines(), &vec![String::new()]);
    assert_eq!(g.to_string(), "\n");
}

#[test]
fn save_then_load_round_trip() {
    let mut cache = Cache::new("c,go\nrust");
    cache.insert("rust", Gitignore::from_string("target/\nCargo.lock"));
    cache.insert("go", Gitignore::from_string("*.exe"));
    let files = cache.save();
    let loaded = Cache::from(&files.langs, &files.ignores);
    assert_eq!(loaded.supported_langs(), cache.supported_langs());
    assert_eq!(sorted(loaded.cached_langs()), vec!["go".to_string(), "rust".to_string()]);
    for lang in ["rust", "go"] {
        assert_eq!(
            loaded.lookup(lang).unwrap().lines(),
            cache.lookup(lang).unwrap().lines()
        );
    }
}

#[test]
fn save_twice_gives_identical_files() {
    let mut cache = Cache::new("c,go");
    cache.insert("go", Gitignore::from_string("*.exe\nvendor/"));
    cache.insert("c", Gitignore::from_string("*.o"));
    let first = cache.save();
    let second = cache.save();
    assert_eq!(first.langs, second.langs);
    assert_eq!(first.ignores, second.ignores);
}

#[test]
fn load_keys_by_stem_and_later_file_wins() {
    let files = vec![
        ("go.gitignore".to_string(), "one".to_string()),
        ("c.gitignore".to_string(), "*.o".to_string()),
        ("go.old.txt".to_string(), "two".to_string()),
    ];
    let cache = Cache::from("go\nc", &files);
    assert_eq!(cache.lookup("go").unwrap().text(), "two");
    assert_eq!(cache.lookup("c").unwrap().text(), "*.o");
    assert_eq!(sorted(cache.cached_langs()), vec!["c".to_string(), "go".to_string()]);
    assert!(cache.lookup("go.old").is_none());
}

#[test]
fn load_list_keeps_empty_lines() {
    let cache = Cache::from("", &Vec::new());
    assert_eq!(cache.supported_langs(), vec![String::new()]);
    let cache = Cache::from("a\n\nb", &Vec::new());
    assert_eq!(cache.supported_langs(), vec!["a", "", "b"]);
}

#[test]
fn text_helpers() {
    assert_eq!(split_on("a,,b", ','), vec!["a", "", "b"]);
    assert_eq!(split_on("", ','), vec![""]);
    assert_eq!(join_lines(&vec!["x".to_string(), "y".to_string()]), "x\ny");
    assert_eq!(join_lines(&Vec::new()), "");
    assert!(contains_text("is undefined.", "undefined"));
    assert!(!contains_text("undefine", "undefined"));
    assert!(contains_text("abc", ""));
    assert_eq!(file_stem("rust.gitignore"), "rust");
    assert_eq!(file_stem("a.b.c"), "a");
    assert_eq!(file_stem("noext"), "noext");
    assert_eq!(file_stem(".hidden"), "");
}
