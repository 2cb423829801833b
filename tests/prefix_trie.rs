use searchdex::trie::Triee;

fn chars(s: &str) -> Vec<char> {
    s.chars().collect()
}

fn lookup(t: &Triee, p: &str) -> Option<Vec<String>> {
    t.paths_for_prefix(&chars(p)).map(|v| {
        let mut out: Vec<String> = v.iter().map(|p| p.iter().collect()).collect();
        out.sort();
        out
    })
}

#[test]
fn prefix_lookup_over_two_documents() {
    let mut t = Triee::new();
    t.insert_word(&chars("CAT"), chars("doc1.txt"));
    t.insert_word(&chars("CATALOG"), chars("doc2.txt"));
    assert_eq!(lookup(&t, "CAT"), Some(vec!["doc1.txt".to_string(), "doc2.txt".to_string()]));
    assert_eq!(lookup(&t, "CATA"), Some(vec!["doc2.txt".to_string()]));
    assert_eq!(lookup(&t, "C"), Some(vec!["doc1.txt".to_string(), "doc2.txt".to_string()]));
    assert_eq!(lookup(&t, "CATALOGS"), None);
    assert_eq!(lookup(&t, "DOG"), None);
}

#[test]
fn every_prefix_of_an_inserted_word_is_found() {
    let mut t = Triee::new();
    t.insert_word(&chars("HELLO"), chars("a"));
    for n in 1..=5 {
        assert_eq!(lookup(&t, &"HELLO"[..n]), Some(vec!["a".to_string()]));
    }
    assert_eq!(lookup(&t, "HELP"), None);
}

#[test]
fn repeated_insertion_keeps_one_path() {
    let mut t = Triee::new();
    t.insert_word(&chars("AB"), chars("x"));
    t.insert_word(&chars("AB"), chars("x"));
    t.insert_word(&chars("A"), chars("x"));
    assert_eq!(lookup(&t, "A"), Some(vec!["x".to_string()]));
    assert_eq!(lookup(&t, "AB"), Some(vec!["x".to_string()]));
}

#[test]
fn empty_prefix_and_empty_word() {
    let mut t = Triee::new();
    assert_eq!(lookup(&t, ""), Some(vec![]));
    t.insert_word(&chars(""), chars("x"));
    assert_eq!(lookup(&t, ""), Some(vec![]));
    assert_eq!(lookup(&t, "A"), None);
}

#[test]
fn end_words_list_each_inserted_word_once() {
    let mut t = Triee::new();
    t.insert_word(&chars("CAT"), chars("a"));
    t.insert_word(&chars("CATALOG"), chars("b"));
    t.insert_word(&chars("CAT"), chars("c"));
    let mut words: Vec<(String, Vec<String>)> = t
        .end_words()
        .iter()
        .map(|(w, ps)| {
            let mut ps: Vec<String> = ps.iter().map(|p| p.iter().collect()).collect();
            ps.sort();
            (w.iter().collect(), ps)
        })
        .collect();
    words.sort();
    assert_eq!(
        words,
        vec![
            ("CAT".to_string(), vec!["a".to_string(), "b".to_string(), "c".to_string()]),
            ("CATALOG".to_string(), vec!["b".to_string()]),
        ]
    );
}
