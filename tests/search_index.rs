use lorchestre::grammar::{Grammar, VectorInput};
use lorchestre::index::Di;
use lorchestre::text::tokenize;

fn strings(xs: &[&str]) -> Vec<String> {
    xs.iter().map(|x| x.to_string()).collect()
}

#[test]
fn tokenize_splits_and_lowercases() {
    assert_eq!(tokenize("Hello, World!"), strings(&["hello", "world"]));
    assert_eq!(tokenize("a-b  c"), strings(&["a", "b", "c"]));
    assert_eq!(tokenize("  --  "), Vec::<String>::new());
    assert_eq!(tokenize(""), Vec::<String>::new());
    assert_eq!(tokenize("ÉTÉ 2024"), strings(&["été", "2024"]));
}

#[test]
fn insert_token_returns_stable_indices() {
    let mut g = Grammar::new();
    assert_eq!(g.insert_token("rock"), 0);
    assert_eq!(g.insert_token("pop"), 1);
    assert_eq!(g.insert_token("rock"), 0);
    assert_eq!(g.len(), 2);
    assert_eq!(g.tokens[0], ("rock".to_string(), 2));
    assert_eq!(g.tokens[1], ("pop".to_string(), 1));
}

#[test]
fn transform_grows_vocabulary_and_counts() {
    let mut g = Grammar::new();
    g.insert_token("la");
    let v = g.transform(&VectorInput::Text("La la land".to_string()));
    assert_eq!(g.len(), 2);
    assert_eq!(v.counts, vec![2, 1]);
    assert_eq!(v.total, 3);
    assert_eq!(g.tokens[0].1, 3);
}

#[test]
fn transform_flat_ignores_unknown_tokens() {
    let mut g = Grammar::new();
    g.insert_token("blue");
    g.insert_token("moon");
    let v = g.transform_flat(&VectorInput::Text("Blue Monday blue".to_string()));
    assert_eq!(v.counts, vec![2, 0]);
    assert_eq!(v.total, 2);
    assert_eq!(g.len(), 2);
    let e = g.transform_flat(&VectorInput::Tokens(strings(&["nothing"])));
    assert_eq!(e.counts, vec![0, 0]);
    assert_eq!(e.total, 0);
}

#[test]
fn search_before_finalize_is_empty() {
    let mut di: Di<u32> = Di::new(9, 10);
    di.insert("Le temps", 1);
    assert!(di.search("temps", 10).is_empty());
    di.finalize();
    assert_eq!(di.search("temps", 10).len(), 1);
}

#[test]
fn finalize_on_empty_queue_changes_nothing() {
    let mut di: Di<u32> = Di::new(9, 10);
    di.finalize();
    assert!(di.keys.is_empty());
    assert!(di.values.is_empty());
    di.insert("Song", 1);
    di.finalize();
    di.finalize();
    assert_eq!(di.keys.len(), 1);
    assert_eq!(di.values, vec![vec![1]]);
}

#[test]
fn search_recall_le() {
    let mut di: Di<u32> = Di::new(9, 10);
    di.insert("Le temps", 1);
    di.insert("Lemon tree", 2);
    di.insert("La mer", 3);
    di.finalize();
    let hits = di.search("le", 10);
    let groups: Vec<Vec<u32>> = hits.iter().map(|(g, _)| (*g).clone()).collect();
    assert!(groups.contains(&vec![1]));
    assert!(groups.contains(&vec![2]));
    assert_eq!(groups[0], vec![1]);
    assert_eq!(groups[1], vec![2]);
    assert!(!groups.contains(&vec![3]));
}

#[test]
fn near_duplicates_share_a_group() {
    let mut di: Di<u32> = Di::new(9, 10);
    di.insert("Hello World", 1);
    di.insert("world, hello!", 2);
    di.insert("Goodbye", 3);
    di.finalize();
    assert_eq!(di.values, vec![vec![1, 2], vec![3]]);
    let hits = di.search("hello", 5);
    assert_eq!(hits.len(), 1);
    assert_eq!(*hits[0].0, vec![1, 2]);
}

#[test]
fn distinct_spellings_stay_apart() {
    let mut di: Di<u32> = Di::new(9, 10);
    di.insert("Bjork", 1);
    di.insert("Björk", 2);
    di.finalize();
    assert_eq!(di.values, vec![vec![1], vec![2]]);
}

#[test]
fn search_ranks_by_cosine_and_truncates() {
    let mut di: Di<u32> = Di::new(9, 10);
    di.insert("rain", 1);
    di.insert("rain rain go away", 2);
    di.insert("purple rain", 3);
    di.finalize();
    let hits = di.search("rain", 10);
    let order: Vec<u32> = hits.iter().map(|(g, _)| g[0]).collect();
    assert_eq!(order, vec![1, 2, 3]);
    let first = hits[0].1;
    assert_eq!(first.dot, 1);
    assert_eq!(first.query_norm_sq, 1);
    assert_eq!(first.key_norm_sq, 1);
    let second = hits[1].1;
    assert_eq!(second.dot, 2);
    assert_eq!(second.key_norm_sq, 6);
    let third = hits[2].1;
    assert_eq!(third.dot, 1);
    assert_eq!(third.key_norm_sq, 2);
    assert_eq!(di.search("rain", 2).len(), 2);
    assert_eq!(di.search("rain", 0).len(), 0);
}

#[test]
fn search_without_matching_words_is_empty() {
    let mut di: Di<u32> = Di::new(9, 10);
    di.insert("alpha", 1);
    di.finalize();
    assert!(di.search("zzz", 10).is_empty());
    assert!(di.search("", 10).is_empty());
}

#[test]
fn search_tolerates_typos() {
    let mut di: Di<u32> = Di::new(9, 10);
    di.insert("Bohemian Rhapsody", 1);
    di.insert("Yesterday", 2);
    di.finalize();
    let hits = di.search("rhpsdy", 10);
    assert_eq!(hits.len(), 1);
    assert_eq!(*hits[0].0, vec![1]);
}

#[test]
fn search_is_repeatable_across_cycles() {
    let mut di: Di<u32> = Di::new(9, 10);
    di.insert("first song", 1);
    di.finalize();
    di.insert("second song", 2);
    di.finalize();
    let hits = di.search("song", 10);
    let order: Vec<u32> = hits.iter().map(|(g, _)| g[0]).collect();
    assert_eq!(order, vec![1, 2]);
}

#[test]
fn best_matches_keeps_every_top_score() {
    assert_eq!(lorchestre::fuzzy::best_matches(&vec![0, 5, 3, 5, -1]), vec![1, 3]);
    assert_eq!(lorchestre::fuzzy::best_matches(&vec![0, -2]), Vec::<usize>::new());
    assert_eq!(lorchestre::fuzzy::best_matches(&vec![]), Vec::<usize>::new());
    assert_eq!(lorchestre::fuzzy::best_matches(&vec![7]), vec![0]);
}

#[test]
fn rank_orders_by_cosine_then_insertion() {
    let mut di: Di<u32> = Di::new(9, 10);
    di.insert("a b", 1);
    di.insert("a", 2);
    di.insert("c", 3);
    di.finalize();
    let q = di.grammar.transform_flat(&VectorInput::Text("a".to_string()));
    let ranked = di.rank(&q, 10);
    let keys: Vec<usize> = ranked.iter().map(|(k, _)| *k).collect();
    assert_eq!(keys, vec![1, 0]);
    assert_eq!(ranked[1].1.dot, 1);
    assert_eq!(ranked[1].1.key_norm_sq, 2);
    let ranked = di.rank(&q, 1);
    assert_eq!(ranked.len(), 1);
    assert_eq!(ranked[0].0, 1);
}
