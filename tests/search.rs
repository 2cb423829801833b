use searchdex::indexer::{has_extension, index, Folder, SourceFile};
use searchdex::ranking::{document_frequency, query_terms, rank_order, term_counts};

fn chars(s: &str) -> Vec<char> {
    s.chars().collect()
}

fn file(path: &str, content: &str) -> SourceFile {
    SourceFile { path: chars(path), content: chars(content) }
}

fn rank(query: &str, folders: &Vec<Folder>, join: bool) -> Vec<(String, f64)> {
    let (ix, _) = index(folders, join);
    let n = ix.len() as f64;
    let mut scores = vec![0.0f64; ix.len()];
    for term in query_terms(&chars(query)) {
        let df = document_frequency(&ix, &term) as f64;
        let idf = (n / (df + 1.0)).ln() + 1.0;
        for (i, c) in term_counts(&ix, &term).iter().enumerate() {
            let tf = if *c > 0 { (*c as f64 + 1.0).ln() } else { 0.0 };
            scores[i] += tf * idf;
        }
    }
    let keys: Vec<i64> = scores.iter().map(|s| (s * 100000.0) as i64).collect();
    rank_order(&keys)
        .into_iter()
        .map(|i| (ix[i].0.iter().collect(), scores[i]))
        .collect()
}

#[test]
fn query_ranks_the_matching_file_last() {
    let folders = vec![Folder {
        path: chars("docs"),
        files: vec![file("a.txt", "cat dog cat"), file("b.txt", "dog dog dog")],
    }];
    let r = rank("cat", &folders, false);
    assert_eq!(r.len(), 2);
    assert_eq!(r[1].0, "a.txt");
    assert_eq!(r[0].0, "b.txt");
    assert!(r[1].1 > r[0].1);
    assert!((r[1].1 - 3.0f64.ln()).abs() < 1e-9);
}

#[test]
fn absent_term_scores_every_document_zero_in_order() {
    let folders = vec![Folder {
        path: chars("d"),
        files: vec![file("x", "one two"), file("y", "three"), file("z", "four four")],
    }];
    let r = rank("zebra", &folders, false);
    let names: Vec<&str> = r.iter().map(|(p, _)| p.as_str()).collect();
    assert_eq!(names, vec!["x", "y", "z"]);
    assert!(r.iter().all(|(_, s)| *s == 0.0));
}

#[test]
fn query_terms_are_uppercase_and_distinct() {
    let t: Vec<String> = query_terms(&chars("cat Dog CAT cat"))
        .iter()
        .map(|t| t.iter().collect())
        .collect();
    assert_eq!(t, vec!["CAT", "DOG"]);
}

#[test]
fn indexing_counts_uppercase_terms_and_fills_the_trie() {
    let folders = vec![Folder {
        path: chars("d"),
        files: vec![file("d/a.txt", "cat dog cat"), file("d/b.txt", "Dog")],
    }];
    let (ix, trie) = index(&folders, false);
    assert_eq!(ix.len(), 2);
    assert_eq!(ix[0].1.count_of(&chars("CAT")), 2);
    assert_eq!(ix[0].1.count_of(&chars("cat")), 0);
    assert_eq!(ix[1].1.count_of(&chars("DOG")), 1);
    let docs = trie.paths_for_prefix(&chars("DO")).unwrap();
    assert_eq!(docs.len(), 2);
    assert!(trie.paths_for_prefix(&chars("CAT")).unwrap().iter().all(|p| p == &chars("d/a.txt")));
}

#[test]
fn join_mode_merges_a_folder_into_one_document() {
    let folders = vec![
        Folder { path: chars("d"), files: vec![file("d/a.txt", "cat"), file("d/b.txt", "cat dog")] },
        Folder { path: chars("d/e"), files: vec![] },
    ];
    let (ix, trie) = index(&folders, true);
    assert_eq!(ix.len(), 2);
    assert_eq!(ix[0].0, chars("d"));
    assert_eq!(ix[0].1.count_of(&chars("CAT")), 2);
    assert_eq!(ix[1].1.count_of(&chars("CAT")), 0);
    let docs = trie.paths_for_prefix(&chars("CAT")).unwrap();
    assert_eq!(docs.len(), 2);
}

#[test]
fn document_frequency_and_counts() {
    let folders = vec![Folder {
        path: chars("d"),
        files: vec![file("a", "x y x"), file("b", "y"), file("c", "z")],
    }];
    let (ix, _) = index(&folders, false);
    assert_eq!(document_frequency(&ix, &chars("Y")), 2);
    assert_eq!(document_frequency(&ix, &chars("Q")), 0);
    assert_eq!(term_counts(&ix, &chars("X")), vec![2, 0, 0]);
}

#[test]
fn stable_order_by_key() {
    assert_eq!(rank_order(&vec![5, 1, 5, 0, 1]), vec![3, 1, 4, 0, 2]);
    assert!(rank_order(&vec![]).is_empty());
}

#[test]
fn extension_filter() {
    assert!(has_extension(&chars("a.txt"), &chars("txt")));
    assert!(has_extension(&chars("a.b.txt"), &chars("txt")));
    assert!(!has_extension(&chars("a.TXT"), &chars("txt")));
    assert!(!has_extension(&chars(".txt"), &chars("txt")));
    assert!(!has_extension(&chars("txt"), &chars("txt")));
    assert!(has_extension(&chars("a."), &chars("")));
}
