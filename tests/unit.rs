use bliss::client::requested_langs;
use bliss::remote::{lang_url, list_url};
use bliss::{Bliss, Cache, Lookup};

const LIST_ANSWER: &str = "\"ruby\",\n\"rust\",\n\"go\"";

fn setup() -> Bliss {
    Bliss::new(Cache::new(LIST_ANSWER))
}

#[test]
/// Supported languages come from the cache once the list is known
fn web_supported_languages() {
    let bliss = setup();

    let result = bliss.supported_langs();

    assert_eq!(result, Some(vec!["ruby".to_string(), "rust".to_string(), "go".to_string()]));
}

#[test]
/// Test pulling get_lang_gitignore with the rust language
fn web_gitignore_rust() {
    let mut bliss = setup();

    let result = match bliss.get_lang_gitignore("rust") {
        Lookup::Cached(g) => Some(g),
        Lookup::Fetch(url) => {
            assert_eq!(url, "https://www.gitignore.io/api/rust");
            bliss.accept_gitignore("rust", "/target\nCargo.lock\n**/*.rs.bk")
        }
    };

    let sucess = match result {
        None => false,
        Some(_) => true,
    };

    assert!(sucess);
}

#[test]
fn list_answer_drops_quotes_and_empty_names() {
    let langs = Bliss::get_lang_list("\"ruby\",\n\"rust\",\n\"go\"");
    assert_eq!(langs, vec!["ruby", "rust", "go"]);
}

#[test]
fn list_answer_plain_lines() {
    let langs = Bliss::get_lang_list("1c,a-frame\nada,rust");
    assert_eq!(langs, vec!["1c", "a-frame", "ada", "rust"]);
}

#[test]
fn list_answer_empty_gives_no_languages() {
    assert!(Bliss::get_lang_list("").is_empty());
    assert!(Bliss::get_lang_list("\"\",\n").is_empty());
}

#[test]
fn list_answer_keeps_duplicates() {
    assert_eq!(Bliss::get_lang_list("go,go"), vec!["go", "go"]);
}

#[test]
fn unknown_language_gives_none() {
    let mut bliss = setup();
    match bliss.get_lang_gitignore("nonexistent-language-xyz") {
        Lookup::Fetch(url) => {
            assert_eq!(url, "https://www.gitignore.io/api/nonexistent-language-xyz")
        }
        Lookup::Cached(_) => panic!("nothing was cached"),
    }
    assert!(bliss.accept_gitignore("nonexistent-language-xyz", "undefined").is_none());
    assert!(bliss.cache.cached_langs().is_empty());
}

#[test]
fn marker_inside_body_counts_as_unknown() {
    let mut bliss = setup();
    let answer = "#!! ERROR: nonexistent-language-xyz is undefined. !!#";
    assert!(bliss.accept_gitignore("nonexistent-language-xyz", answer).is_none());
    assert!(bliss.cache.lookup("nonexistent-language-xyz").is_none());
}

#[test]
fn rust_template_is_cached_and_saved() {
    let mut bliss = setup();
    let doc = bliss.accept_gitignore("rust", "target/\nCargo.lock").unwrap();
    assert_eq!(doc.lines(), &vec!["target/".to_string(), "Cargo.lock".to_string()]);
    let files = bliss.cache.save();
    assert_eq!(
        files.ignores,
        vec![("rust.gitignore".to_string(), "target/\nCargo.lock".to_string())]
    );
    assert_eq!(files.langs, "ruby\nrust\ngo");
}

#[test]
fn cached_document_is_served_without_fetch() {
    let mut bliss = setup();
    bliss.accept_gitignore("go", "*.exe\nvendor/");
    match bliss.get_lang_gitignore("go") {
        Lookup::Cached(g) => assert_eq!(g.text(), "*.exe\nvendor/"),
        Lookup::Fetch(_) => panic!("the document was cached"),
    }
}

#[test]
fn loaded_document_is_served_without_fetch() {
    let files = vec![("go.gitignore".to_string(), "*.exe".to_string())];
    let bliss = Bliss::new(Cache::from("go", &files));
    match bliss.get_lang_gitignore("go") {
        Lookup::Cached(g) => assert_eq!(g.lines(), &vec!["*.exe".to_string()]),
        Lookup::Fetch(_) => panic!("the document was loaded"),
    }
}

#[test]
fn refetch_replaces_document() {
    let mut bliss = setup();
    bliss.accept_gitignore("go", "old");
    bliss.accept_gitignore("go", "new\nlines");
    assert_eq!(bliss.cache.lookup("go").unwrap().text(), "new\nlines");
    assert_eq!(bliss.cache.cached_langs(), vec!["go".to_string()]);
}

#[test]
fn is_supported_matches_list_exactly() {
    let bliss = setup();
    let listed = bliss.supported_langs().unwrap();
    for lang in ["ruby", "rust", "go", "Rust", "ru", "", "python"] {
        assert_eq!(bliss.is_supported(lang), listed.contains(&lang.to_string()));
    }
    assert!(bliss.is_supported("rust"));
    assert!(!bliss.is_supported("Rust"));
}

#[test]
fn empty_list_asks_for_fetch_then_refresh_replaces() {
    let mut bliss = Bliss::new(Cache::new(""));
    assert_eq!(bliss.supported_langs(), None);
    assert!(!bliss.is_supported("rust"));
    let langs = bliss.refresh_langs("c,rust");
    assert_eq!(langs, vec!["c", "rust"]);
    assert_eq!(bliss.supported_langs(), Some(vec!["c".to_string(), "rust".to_string()]));
    assert!(bliss.is_supported("rust"));
    bliss.refresh_langs("go");
    assert!(!bliss.is_supported("rust"));
}

#[test]
fn service_addresses() {
    assert_eq!(list_url(), "https://www.gitignore.io/api/list");
    assert_eq!(lang_url("rust"), "https://www.gitignore.io/api/rust");
}

#[test]
fn command_line_languages() {
    assert_eq!(requested_langs("rust, go,c"), vec!["rust", "go", "c"]);
    assert_eq!(requested_langs("rust"), vec!["rust"]);
    assert_eq!(requested_langs(""), vec![""]);
}
