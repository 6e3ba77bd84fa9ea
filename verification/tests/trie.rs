use rust_trie::Trie;

// returns a new trie with some default values
fn new_trie() -> Trie {
    let mut trie = Trie::new();
    trie.insert("a");
    trie.insert("to");
    trie.insert("tea");
    trie.insert("apples");
    trie.insert("an");
    trie.insert("test");
    trie.insert("tea");
    trie.insert("anna");
    trie.insert("annabelle");
    trie
}

#[test]
fn display_trie() {
    let trie = new_trie();
    println!("{}", trie.to_display_string());
}

#[test]
fn exists_finds_existing_string() {
    let trie = new_trie();
    assert!(trie.contains("tea"));
}

#[test]
fn exists_returns_false_for_empty_trie() {
    let trie = new_trie();
    assert_eq!(trie.contains("testing"), false);
}

#[test]
fn string_exists() {
    let trie = new_trie();
    assert!(trie.contains("a"));
}

#[test]
fn search_returns_three_words() {
    let trie = new_trie();
    let res = trie.search("an");
    assert_eq!(res.len(), 3);
    assert!(res.contains(&"an".to_string()));
    assert!(res.contains(&"anna".to_string()));
    assert!(res.contains(&"annabelle".to_string()));
}

#[test]
fn search_returns_empty_vec() {
    let trie = new_trie();
    let res = trie.search("zebra");
    assert_eq!(res.len(), 0);
}

#[test]
fn search_with_empty_string_returns_false() {
    let trie = new_trie();
    let res = trie.search("");
    assert_eq!(res.len(), 0);
}

#[test]
fn should_delete() {
    let mut trie = Trie::new();
    trie.insert("tab");
    trie.insert("teb");
    trie.insert("tec");
    trie.delete("teb");

    assert_eq!(trie.contains("teb"), false)
}

#[test]
fn round_trip_word_found_under_every_prefix() {
    let mut trie = new_trie();
    trie.insert("hello");
    assert!(trie.contains("hello"));
    for p in ["h", "he", "hel", "hell", "hello"] {
        assert!(trie.search(p).contains(&"hello".to_string()));
    }
}

#[test]
fn insert_twice_changes_nothing() {
    let mut trie = new_trie();
    let before = trie.search("te");
    trie.insert("tea");
    assert_eq!(trie.search("te"), before);
    assert!(trie.contains("tea"));
}

#[test]
fn never_inserted_is_absent() {
    let trie = new_trie();
    assert_eq!(trie.contains("te"), false);
    assert_eq!(trie.contains("annab"), false);
    assert_eq!(trie.contains("zebra"), false);
}

#[test]
fn delete_spares_prefixes_and_extensions() {
    let mut trie = Trie::new();
    trie.insert("a");
    trie.insert("an");
    trie.insert("anna");
    assert!(trie.delete("an"));
    assert_eq!(trie.contains("an"), false);
    assert!(trie.contains("a"));
    assert!(trie.contains("anna"));
}

#[test]
fn delete_then_reinsert_restores_word() {
    let mut trie = new_trie();
    assert!(trie.delete("tea"));
    assert_eq!(trie.contains("tea"), false);
    trie.insert("tea");
    assert!(trie.contains("tea"));
}

#[test]
fn delete_reports_absence() {
    let mut trie = new_trie();
    assert_eq!(trie.delete("zebra"), false);
    assert_eq!(trie.delete("te"), false);
    assert!(trie.delete("tea"));
    assert_eq!(trie.delete("tea"), false);
}

#[test]
fn search_orders_descending() {
    let mut trie = Trie::new();
    trie.insert("an");
    trie.insert("anna");
    trie.insert("annabelle");
    let res = trie.search("an");
    assert_eq!(
        res,
        vec![
            "annabelle".to_string(),
            "anna".to_string(),
            "an".to_string(),
        ]
    );
}

#[test]
fn full_scenario() {
    let mut trie = new_trie();
    assert!(trie.contains("tea"));
    assert_eq!(trie.contains("testing"), false);
    let res = trie.search("an");
    assert_eq!(res.len(), 3);
    assert!(res.contains(&"an".to_string()));
    assert!(res.contains(&"anna".to_string()));
    assert!(res.contains(&"annabelle".to_string()));
    assert_eq!(trie.delete("teb"), false);
    trie.insert("tab");
    trie.insert("teb");
    trie.insert("tec");
    assert!(trie.delete("teb"));
    assert_eq!(trie.contains("teb"), false);
    assert!(trie.contains("tab"));
    assert!(trie.contains("tec"));
}

#[test]
fn empty_word_round_trip() {
    let mut trie = Trie::new();
    assert_eq!(trie.contains(""), false);
    trie.insert("");
    assert!(trie.contains(""));
    assert_eq!(trie.search("").len(), 0);
    assert!(trie.delete(""));
    assert_eq!(trie.contains(""), false);
}

#[test]
fn multibyte_characters_traverse_per_code_point() {
    let mut trie = Trie::new();
    trie.insert("hé");
    trie.insert("héllo");
    assert!(trie.contains("hé"));
    assert!(trie.contains("héllo"));
    assert_eq!(trie.contains("h"), false);
    let res = trie.search("h");
    assert_eq!(res, vec!["héllo".to_string(), "hé".to_string()]);
}

#[test]
fn display_shows_levels_and_flags() {
    let mut trie = Trie::new();
    trie.insert("ab");
    trie.insert("ac");
    assert_eq!(trie.to_display_string(), "a(false) \nb(true) c(true) ");
}

#[test]
fn display_of_empty_trie_is_empty() {
    let trie = Trie::new();
    assert_eq!(trie.to_display_string(), "");
    let mut one = Trie::new();
    one.insert("x");
    assert_eq!(one.to_display_string(), "x(true) ");
}
