use regex_fsm::grammar::Grammar;

fn alternatives(g: &Grammar, nt: &str) -> Vec<String> {
    g.productions.iter().find(|(k, _)| k == nt).map(|(_, v)| v.clone()).unwrap_or_default()
}

fn set_of(g: &[(String, Vec<String>)], nt: &str) -> Vec<String> {
    let mut v = g.iter().find(|(k, _)| k == nt).map(|(_, v)| v.clone()).unwrap_or_default();
    v.sort();
    v
}

fn strings(v: &[&str]) -> Vec<String> {
    v.iter().map(|s| s.to_string()).collect()
}

fn first_follow_grammar(a_alts: Vec<&str>) -> Grammar {
    let mut g = Grammar::new();
    g.add_production("S", vec!["AB"], true);
    g.add_production("A", a_alts, false);
    g.add_production("B", vec!["b"], false);
    g.first_sets = g.calculate_first_sets();
    g.calculate_follow_sets();
    g
}

#[test]
fn left_recursion_is_removed() {
    let mut g = Grammar::new();
    g.add_production("S", vec!["S+T", "T"], false);
    g.add_production("T", vec!["T*F", "F"], false);
    g.add_production("F", vec!["(E)", "id"], false);
    g.eliminate_left_recursion();
    assert_eq!(alternatives(&g, "S"), strings(&["TS'"]));
    assert_eq!(alternatives(&g, "S'"), strings(&["+TS'", "ε"]));
    assert_eq!(alternatives(&g, "T"), strings(&["FT'"]));
    assert_eq!(alternatives(&g, "T'"), strings(&["*FT'", "ε"]));
    assert_eq!(alternatives(&g, "F"), strings(&["(E)", "id"]));
    assert!(g.non_terminals.contains(&"S'".to_string()));
    assert!(g.non_terminals.contains(&"T'".to_string()));
}

#[test]
fn indirect_left_recursion_is_substituted() {
    let mut g = Grammar::new();
    g.add_production("A", vec!["Ba", "c"], false);
    g.add_production("B", vec!["Ab", "d"], false);
    g.eliminate_left_recursion();
    assert_eq!(alternatives(&g, "A"), strings(&["Ba", "c"]));
    assert_eq!(alternatives(&g, "B"), strings(&["cbB'", "dB'"]));
    assert_eq!(alternatives(&g, "B'"), strings(&["abB'", "ε"]));
}

#[test]
fn first_sets_of_nullable_prefix() {
    let g = first_follow_grammar(vec!["a", "ε"]);
    let first = g.calculate_first_sets();
    assert_eq!(set_of(&first, "S"), strings(&["a", "b"]));
    assert_eq!(set_of(&first, "A"), strings(&["a", "ε"]));
    assert_eq!(set_of(&first, "B"), strings(&["b"]));
    let mut e = g.eliminate_first("A");
    e.sort();
    assert_eq!(e, strings(&["a", "ε"]));
    assert_eq!(g.eliminate_first("b"), strings(&["b"]));
}

#[test]
fn follow_sets_reach_a_fixed_point() {
    let mut g = first_follow_grammar(vec!["a", "ε"]);
    let follow = g.calculate_follow_sets();
    assert_eq!(set_of(&follow, "S"), strings(&["$"]));
    assert_eq!(set_of(&follow, "A"), strings(&["b"]));
    assert_eq!(set_of(&follow, "B"), strings(&["$"]));
    assert_eq!(set_of(&g.follow_sets, "A"), strings(&["b"]));
}

#[test]
fn first_of_productions() {
    let g = first_follow_grammar(vec!["aA", "ε"]);
    let mut f = g.first_of("AB");
    f.sort();
    assert_eq!(f, strings(&["a", "b"]));
    assert_eq!(g.first_of("b"), strings(&["b"]));
    assert_eq!(g.first_of(""), strings(&["ε"]));
}

#[test]
fn ll1_check() {
    let g = first_follow_grammar(vec!["aA", "ε"]);
    assert!(g.is_ll1());
    let mut h = Grammar::new();
    h.add_production("S", vec!["aS", "ab"], true);
    h.first_sets = h.calculate_first_sets();
    h.calculate_follow_sets();
    assert!(!h.is_ll1());
}

#[test]
fn predictive_table_cells() {
    let g = first_follow_grammar(vec!["aA", "ε"]);
    let table = g.create_predictive_parsing_table();
    let cell = |nt: &str, t: &str| {
        table
            .iter()
            .find(|((n, x), _)| n == nt && x == t)
            .map(|(_, v)| v.clone())
    };
    assert_eq!(cell("S", "a"), Some(strings(&["AB"])));
    assert_eq!(cell("S", "b"), Some(strings(&["AB"])));
    assert_eq!(cell("A", "a"), Some(strings(&["aA"])));
    assert_eq!(cell("A", "b"), Some(strings(&["ε"])));
    assert_eq!(cell("B", "b"), Some(strings(&["b"])));
    assert_eq!(cell("B", "a"), None);
    assert_eq!(table.len(), 5);
}

#[test]
fn ll1_parse_accepts_and_rejects() {
    let g = first_follow_grammar(vec!["aA", "ε"]);
    assert_eq!(g.ll1_parse("aab"), Ok(()));
    assert_eq!(g.ll1_parse("b"), Ok(()));
    assert_eq!(
        g.ll1_parse("aac"),
        Err("Syntax error: no rule for A when seeing c".to_string())
    );
    assert_eq!(
        g.ll1_parse("ba"),
        Err("Syntax error: expected $, found a".to_string())
    );
    let mut h = Grammar::new();
    h.add_production("S", vec!["a"], false);
    assert_eq!(h.ll1_parse("a"), Err("Start symbol is not defined".to_string()));
}

#[test]
fn ll1_parse_reports_mismatch() {
    let mut g = Grammar::new();
    g.add_production("S", vec!["ab"], true);
    g.first_sets = g.calculate_first_sets();
    g.calculate_follow_sets();
    assert_eq!(g.ll1_parse("ab"), Ok(()));
    assert_eq!(
        g.ll1_parse("aa"),
        Err("Syntax error: expected b, found a".to_string())
    );
}

#[test]
fn left_common_factor_of_two_alternatives() {
    let mut g = Grammar::new();
    g.add_production("A", vec!["ab", "ac"], false);
    g.eliminate_left_common_factor();
    assert_eq!(alternatives(&g, "A"), strings(&["aA'"]));
    assert_eq!(alternatives(&g, "A'"), strings(&["b", "c"]));
    assert!(g.non_terminals.contains(&"A'".to_string()));
}

#[test]
fn left_common_factor_with_word_prefix() {
    let mut g = Grammar::new();
    g.add_production("A", vec!["bat", "bath", "x"], false);
    g.eliminate_left_common_factor();
    assert_eq!(alternatives(&g, "A"), strings(&["A'"]));
    assert_eq!(alternatives(&g, "A'"), strings(&["bat", "bath", "x"]));
    let mut h = Grammar::new();
    h.add_production("A", vec!["bat", "bath"], false);
    h.eliminate_left_common_factor();
    assert_eq!(alternatives(&h, "A"), strings(&["batA'"]));
    assert_eq!(alternatives(&h, "A'"), strings(&["ε", "h"]));
}

#[test]
fn trie_for_non_terminal() {
    let mut g = Grammar::new();
    g.add_production("A", vec!["ab", "ac"], false);
    let t = g.build_trie_for_nonterminal("A").unwrap();
    assert_eq!(
        t.extract_longest_common_prefix(),
        vec![("a".to_string(), strings(&["ab", "ac"]))]
    );
    assert!(g.build_trie_for_nonterminal("B").is_none());
}

#[test]
fn table_rows_split_at_blanks() {
    let mut g = Grammar::new();
    g.add_production("E", vec!["T X"], true);
    g.add_production("T", vec!["d"], false);
    g.add_production("X", vec!["+", "ε"], false);
    g.first_sets = g.calculate_first_sets();
    g.calculate_follow_sets();
    let table = g.create_predictive_parsing_table();
    let row = table
        .iter()
        .find(|((n, x), _)| n == "E" && x == "d")
        .map(|(_, v)| v.clone());
    assert_eq!(row, Some(strings(&["T", "X"])));
}
