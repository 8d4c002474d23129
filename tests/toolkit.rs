use regex_fsm::grammar::{add_prod, Grammar};
use regex_fsm::trie::Trie;

fn has(v: &[String], w: &str) -> bool {
    v.iter().any(|s| s == w)
}

fn alternatives(g: &Grammar, nt: &str) -> Vec<String> {
    g.productions.iter().find(|(k, _)| k == nt).map(|(_, v)| v.clone()).unwrap_or_default()
}

#[test]
fn test_grammar() {
    let mut g = Grammar::new();
    g.add_production("S", vec!["AB"], true);
    g.add_production("A", vec!["a", "ε"], false);
    g.add_production("B", vec!["b"], false);
    assert_eq!(g.start_symbol, Some("S".to_string()));
    assert_eq!(g.non_terminals, vec!["S".to_string(), "A".to_string(), "B".to_string()]);
    assert_eq!(alternatives(&g, "A"), vec!["a".to_string(), "ε".to_string()]);
    for t in ["$", "a", "b", "ε"] {
        assert!(has(&g.terminals, t), "{}", t);
    }
    for nt in ["S", "A", "B"] {
        assert!(!has(&g.terminals, nt), "{}", nt);
    }
    assert_eq!(g.terminals.len(), 4);
}

#[test]
fn grammar_new_is_empty() {
    let g = Grammar::new();
    assert!(g.non_terminals.is_empty());
    assert!(g.terminals.is_empty());
    assert!(g.productions.is_empty());
    assert_eq!(g.start_symbol, None);
}

#[test]
fn add_production_appends_alternatives() {
    let mut g = Grammar::new();
    g.add_production("S", vec!["S+T"], false);
    g.add_production("S", vec!["T"], false);
    assert_eq!(alternatives(&g, "S"), vec!["S+T".to_string(), "T".to_string()]);
    assert_eq!(g.productions.len(), 1);
    assert_eq!(g.start_symbol, None);
    assert!(has(&g.terminals, "+"));
    assert!(has(&g.terminals, "T"));
    g.add_production("T", vec!["id"], false);
    assert!(!has(&g.terminals, "T"));
}

#[test]
fn add_production_skips_blanks() {
    let mut g = Grammar::new();
    g.add_production("E", vec!["T X"], false);
    assert!(!has(&g.terminals, " "));
    assert!(has(&g.terminals, "X"));
}

#[test]
fn add_prod_orders_start_first() {
    let mut g = Grammar::new();
    add_prod(
        &mut g,
        vec!["S".to_string(), "A".to_string()],
        vec![
            ("A".to_string(), vec!["a".to_string()]),
            ("S".to_string(), vec!["Ab".to_string()]),
        ],
    );
    assert_eq!(g.start_symbol, Some("S".to_string()));
    assert_eq!(alternatives(&g, "S"), vec!["Ab".to_string()]);
    assert_eq!(alternatives(&g, "A"), vec!["a".to_string()]);
}

#[test]
fn trie_common_prefix_with_ending_children() {
    let mut t = Trie::new();
    t.insert("ab");
    t.insert("ac");
    assert_eq!(
        t.extract_longest_common_prefix(),
        vec![("a".to_string(), vec!["ab".to_string(), "ac".to_string()])]
    );
}

#[test]
fn trie_prefix_that_is_a_word() {
    let mut t = Trie::new();
    t.insert("bat");
    t.insert("bath");
    assert_eq!(
        t.extract_longest_common_prefix(),
        vec![("bat".to_string(), vec!["bath".to_string()])]
    );
}

#[test]
fn trie_searches_children_last_first() {
    let mut t = Trie::new();
    for w in ["apple", "apply", "ball", "bat"] {
        t.insert(w);
    }
    assert_eq!(
        t.extract_longest_common_prefix(),
        vec![
            ("ba".to_string(), vec!["bal".to_string(), "bat".to_string()]),
            ("appl".to_string(), vec!["apple".to_string(), "apply".to_string()]),
        ]
    );
}

#[test]
fn trie_single_word_has_no_branch() {
    let mut t = Trie::new();
    t.insert("abc");
    assert!(t.extract_longest_common_prefix().is_empty());
    assert!(Trie::new().extract_longest_common_prefix().is_empty());
}

#[test]
fn trie_display_text() {
    let mut t = Trie::new();
    t.insert("ab");
    t.insert("ac");
    assert_eq!(
        t.display(),
        "|--  [0]\n|   `-- a [2]\n|       |-- b (end) [1]\n|       `-- c (end) [1]\n"
    );
}

#[test]
fn trie_counts_repeated_words() {
    let mut t = Trie::new();
    for _ in 0..12 {
        t.insert("x");
    }
    assert_eq!(t.display(), "|--  [0]\n|   `-- x (end) [12]\n");
}
