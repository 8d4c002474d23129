use regex_fsm::builder::{build_nfa, MalformedExpression};
use regex_fsm::dfa::DFA;
use regex_fsm::nfa::NFA;
use regex_fsm::postfix::{tokens_to_string, translate_to_postfix, SyntaxError, Token};

fn postfix(s: &str) -> String {
    tokens_to_string(&translate_to_postfix(s).unwrap())
}

fn nfa_of(s: &str) -> NFA {
    build_nfa(&translate_to_postfix(s).unwrap()).unwrap()
}

fn min_dfa_of(s: &str) -> DFA {
    let mut d = nfa_of(s).to_dfa();
    d.minimize();
    d
}

/// Every string over `alphabet` of length at most `n`.
fn strings_up_to(alphabet: &[char], n: usize) -> Vec<String> {
    let mut all = vec![String::new()];
    let mut layer = vec![String::new()];
    for _ in 0..n {
        let mut next = Vec::new();
        for s in &layer {
            for &c in alphabet {
                let mut t = s.clone();
                t.push(c);
                next.push(t);
            }
        }
        all.extend(next.iter().cloned());
        layer = next;
    }
    all
}

const REGEXES: [&str; 10] = ["a", "ab", "a|b", "a*", "a(bc)*", "(a|b)*abb", "a(b|c)*", "(ab|a)*b", "((a))", "a*b*|c"];

#[test]
fn postfix_precedence() {
    assert_eq!(postfix("ab"), "ab.");
    assert_eq!(postfix("a|b"), "ab|");
    assert_eq!(postfix("a|b*"), "ab*|");
    assert_eq!(postfix("a(b|c)*"), "abc|*.");
}

#[test]
fn postfix_tokens() {
    assert_eq!(
        translate_to_postfix("ab").unwrap(),
        vec![Token::Literal('a'), Token::Literal('b'), Token::Concat]
    );
    assert_eq!(postfix("(a|b)*abb"), "ab|*a.b.b.");
    assert_eq!(postfix("a b"), "ab.");
    assert_eq!(postfix("a*b"), "a*b.");
    assert_eq!(postfix("ab|cd"), "ab.cd.|");
    assert_eq!(postfix(""), "");
}

#[test]
fn postfix_unmatched_parentheses() {
    assert_eq!(translate_to_postfix("(ab"), Err(SyntaxError::UnmatchedOpen));
    assert_eq!(translate_to_postfix("ab)"), Err(SyntaxError::UnmatchedClose));
    assert_eq!(translate_to_postfix(")("), Err(SyntaxError::UnmatchedClose));
    assert_eq!(translate_to_postfix("((a)"), Err(SyntaxError::UnmatchedOpen));
}

#[test]
fn build_rejects_malformed_streams() {
    assert_eq!(build_nfa(&vec![]).err(), Some(MalformedExpression));
    assert_eq!(build_nfa(&vec![Token::Concat]).err(), Some(MalformedExpression));
    assert_eq!(build_nfa(&vec![Token::Literal('a'), Token::Alt]).err(), Some(MalformedExpression));
    assert_eq!(build_nfa(&vec![Token::Star]).err(), Some(MalformedExpression));
    assert_eq!(
        build_nfa(&vec![Token::Literal('a'), Token::Literal('b')]).err(),
        Some(MalformedExpression)
    );
    assert!(build_nfa(&vec![Token::Literal('a'), Token::Star, Token::Star]).is_ok());
}

#[test]
fn literal_fragment_shape() {
    let n = nfa_of("a");
    assert_eq!(n.states.len(), 2);
    assert_eq!(n.start_state, 0);
    assert!(!n.states[0].is_accepting);
    assert!(n.states[1].is_accepting);
    assert_eq!(n.states[0].transitions.len(), 1);
    assert_eq!(n.states[0].transitions[0].symbol, Some('a'));
    assert_eq!(n.states[0].transitions[0].to_state, 1);
}

#[test]
fn fragments_have_one_accepting_state() {
    for r in REGEXES {
        let n = nfa_of(r);
        let accepting = n.states.iter().filter(|s| s.is_accepting).count();
        assert_eq!(accepting, 1, "{}", r);
        assert_eq!(n.states[n.accept_state()].is_accepting, true);
    }
}

#[test]
fn fragment_sizes() {
    assert_eq!(nfa_of("ab").states.len(), 3);
    assert_eq!(nfa_of("a|b").states.len(), 6);
    assert_eq!(nfa_of("a*").states.len(), 4);
}

#[test]
fn nfa_and_dfa_agree() {
    let words = strings_up_to(&['a', 'b', 'c'], 5);
    for r in REGEXES {
        let n = nfa_of(r);
        let d = n.to_dfa();
        for w in &words {
            assert_eq!(n.matches(w), d.matches(w), "regex {} on {:?}", r, w);
        }
    }
}

#[test]
fn minimization_keeps_language() {
    let words = strings_up_to(&['a', 'b', 'c'], 5);
    for r in REGEXES {
        let d = nfa_of(r).to_dfa();
        let mut m = d.clone();
        m.minimize();
        assert!(m.states.len() <= d.states.len());
        assert_eq!(m.start_state, 0);
        for w in &words {
            assert_eq!(d.matches(w), m.matches(w), "regex {} on {:?}", r, w);
        }
    }
}

fn accepting(d: &DFA, q: usize) -> bool {
    d.accept_states.contains(&q)
}

#[test]
fn minimized_states_are_distinct() {
    for r in REGEXES {
        let m = min_dfa_of(r);
        for i in 0..m.states.len() {
            for j in 0..m.states.len() {
                if i != j {
                    let same = accepting(&m, i) == accepting(&m, j)
                        && m.states[i].transitions == m.states[j].transitions;
                    assert!(!same, "regex {}: states {} and {}", r, i, j);
                }
            }
        }
    }
}

/// The states of `d` renumbered in breadth-first order from the start, with their
/// acceptance and edges.
fn canonical(d: &DFA) -> Vec<(bool, Vec<(char, usize)>)> {
    let mut order = vec![d.start_state];
    let mut index = vec![usize::MAX; d.states.len()];
    index[d.start_state] = 0;
    let mut k = 0;
    while k < order.len() {
        let q = order[k];
        for &(_, t) in &d.states[q].transitions {
            if index[t] == usize::MAX {
                index[t] = order.len();
                order.push(t);
            }
        }
        k += 1;
    }
    order
        .iter()
        .map(|&q| {
            let mut ts: Vec<(char, usize)> = d.states[q].transitions.iter().map(|&(c, t)| (c, index[t])).collect();
            ts.sort();
            (accepting(d, q), ts)
        })
        .collect()
}

#[test]
fn minimization_is_idempotent() {
    for r in REGEXES {
        let once = min_dfa_of(r);
        let mut twice = once.clone();
        twice.minimize();
        assert_eq!(once.states.len(), twice.states.len(), "{}", r);
        assert_eq!(canonical(&once), canonical(&twice), "{}", r);
    }
}

#[test]
fn scenario_a_bc_star() {
    let n = nfa_of("a(bc)*");
    let d = n.to_dfa();
    let m = min_dfa_of("a(bc)*");
    for (w, expected) in [("a", true), ("abc", true), ("abcbc", true), ("ab", false), ("", false)] {
        assert_eq!(n.matches(w), expected, "{}", w);
        assert_eq!(d.matches(w), expected, "{}", w);
        assert_eq!(m.matches(w), expected, "{}", w);
    }
}

#[test]
fn scenario_a_or_b() {
    let m = min_dfa_of("a|b");
    assert_eq!(m.states.len(), 2);
    assert!(!accepting(&m, 0));
    assert!(accepting(&m, 1));
    assert!(m.matches("a"));
    assert!(m.matches("b"));
    assert!(!m.matches("ab"));
    assert!(!m.matches(""));
}

#[test]
fn minimize_merges_equivalent_states() {
    // Two accepting states that behave alike collapse into one.
    let mut d = DFA::new();
    d.states.push(regex_fsm::dfa::DFAState { id: 0, transitions: vec![('a', 1), ('b', 2)] });
    d.states.push(regex_fsm::dfa::DFAState { id: 1, transitions: vec![] });
    d.states.push(regex_fsm::dfa::DFAState { id: 2, transitions: vec![] });
    d.states.push(regex_fsm::dfa::DFAState { id: 3, transitions: vec![('a', 0)] });
    d.accept_states = vec![1, 2];
    d.minimize();
    assert_eq!(d.states.len(), 2);
    assert_eq!(d.start_state, 0);
    assert_eq!(d.states[0].transitions, vec![('a', 1), ('b', 1)]);
    assert_eq!(d.accept_states, vec![1]);
}

#[test]
fn minimize_numbers_start_block_first() {
    // The start state is state 2; after minimization it becomes state 0.
    let mut d = DFA::new();
    d.states.push(regex_fsm::dfa::DFAState { id: 0, transitions: vec![] });
    d.states.push(regex_fsm::dfa::DFAState { id: 1, transitions: vec![('x', 0)] });
    d.states.push(regex_fsm::dfa::DFAState { id: 2, transitions: vec![('y', 1)] });
    d.start_state = 2;
    d.accept_states = vec![0];
    d.minimize();
    assert_eq!(d.states.len(), 3);
    assert_eq!(d.start_state, 0);
    assert!(d.matches("yx"));
    assert!(!d.matches("y"));
    assert!(!d.matches("x"));
}

#[test]
fn empty_dfa() {
    let d = DFA::new();
    assert!(d.states.is_empty());
    assert!(d.accept_states.is_empty());
    assert_eq!(d.start_state, 0);
}

#[test]
fn alphabet_is_sorted_and_distinct() {
    assert_eq!(nfa_of("(c|a)*bca").alphabet(), vec!['a', 'b', 'c']);
    assert_eq!(nfa_of("a*").alphabet(), vec!['a']);
}

#[test]
fn move_and_closure_follows_one_symbol() {
    let n = nfa_of("ab");
    let mut s = n.move_and_closure(&vec![0], 'a');
    s.sort();
    assert_eq!(s, vec![1]);
    assert!(n.move_and_closure(&vec![0], 'b').is_empty());
    let star = nfa_of("a*");
    let mut t = star.move_and_closure(&vec![1], 'a');
    t.sort();
    assert_eq!(t, vec![1, 2, 3]);
}

#[test]
fn nfa_union_links_both_operands() {
    let a = nfa_of("a");
    let b = nfa_of("b");
    let mut u = NFA::new();
    u.union(&a, &b);
    assert_eq!(u.states.len(), 6);
    assert!(u.matches("a"));
    assert!(u.matches("b"));
    assert!(!u.matches("ab"));
}

#[test]
fn nfa_dot_text() {
    assert_eq!(
        nfa_of("a").to_dot(),
        "digraph NFA {\n    rankdir=LR;\n    node [shape = circle];\n    0 -> 1 [label=\"a\"];\n    1 [shape = doublecircle];\n}\n"
    );
    assert!(nfa_of("a*").to_dot().contains("[label=\"ε\"]"));
    assert!(nfa_of("abcdefghijk").to_dot().contains("    10 -> 11 [label=\"k\"];\n"));
}

#[test]
fn dfa_dot_text() {
    assert_eq!(
        min_dfa_of("a").to_dot(),
        "digraph DFA {\n    rankdir=LR;\n    node [shape = circle];\n    1 [shape = doublecircle];\n    0 [shape = circle];\n    0 -> 1 [label=\"a\"];\n    0 [color=red];\n}\n"
    );
}
