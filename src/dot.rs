use vstd::prelude::*;
use crate::dfa::{DFA, DFAState};
use crate::nfa::{NFA, State, Transition};
use crate::text::{decimal, push_char, push_decimal, push_text};

verus! {

/// The label of an NFA edge: its symbol, or `ε` for an epsilon edge.
pub open spec fn label_text(symbol: Option<char>) -> Seq<char> {
    match symbol {
        Some(c) => seq![c],
        None => seq!['ε'],
    }
}

/// One DOT edge line.
pub open spec fn edge_line(from: nat, to: nat, label: Seq<char>) -> Seq<char> {
    "    "@ + decimal(from) + " -> "@ + decimal(to) + " [label=\""@ + label + "\"];\n"@
}

/// One DOT node line with the given attributes.
pub open spec fn node_line(id: nat, attr: Seq<char>) -> Seq<char> {
    "    "@ + decimal(id) + attr
}

pub open spec fn nfa_edges_text(from: nat, ts: Seq<Transition>) -> Seq<char>
    decreases ts.len(),
{
    if ts.len() == 0 {
        Seq::empty()
    } else {
        nfa_edges_text(from, ts.drop_last()) + edge_line(from, ts.last().to_state as nat, label_text(ts.last().symbol))
    }
}

pub open spec fn nfa_state_text(st: State) -> Seq<char> {
    (if st.is_accepting {
        node_line(st.id as nat, " [shape = doublecircle];\n"@)
    } else {
        Seq::empty()
    }) + nfa_edges_text(st.id as nat, st.transitions@)
}

pub open spec fn nfa_states_text(s: Seq<State>) -> Seq<char>
    decreases s.len(),
{
    if s.len() == 0 {
        Seq::empty()
    } else {
        nfa_states_text(s.drop_last()) + nfa_state_text(s.last())
    }
}

/// The DOT description of an NFA: accepting states drawn as double circles, one
/// line per edge.
pub open spec fn nfa_dot(nfa: NFA) -> Seq<char> {
    "digraph NFA {\n    rankdir=LR;\n    node [shape = circle];\n"@ + nfa_states_text(nfa.states@) + "}\n"@
}

fn push_edge_line(s: &mut String, from: usize, to: usize, label: Option<char>)
    ensures
        final(s)@ == old(s)@ + edge_line(from as nat, to as nat, label_text(label)),
{
    push_text(s, "    ");
    push_decimal(s, from);
    push_text(s, " -> ");
    push_decimal(s, to);
    push_text(s, " [label=\"");
    match label {
        Some(c) => push_char(s, c),
        None => push_char(s, 'ε'),
    }
    push_text(s, "\"];\n");
    assert(final(s)@ =~= old(s)@ + edge_line(from as nat, to as nat, label_text(label)));
}

fn push_node_line(s: &mut String, id: usize, attr: &str)
    ensures
        final(s)@ == old(s)@ + node_line(id as nat, attr@),
{
    push_text(s, "    ");
    push_decimal(s, id);
    push_text(s, attr);
    assert(final(s)@ =~= old(s)@ + node_line(id as nat, attr@));
}

impl NFA {
    /// The automaton in Graphviz DOT form.
    pub fn to_dot(&self) -> (r: String)
        ensures
            r@ == nfa_dot(*self),
    {
        let mut dot = String::new();
        push_text(&mut dot, "digraph NFA {\n    rankdir=LR;\n    node [shape = circle];\n");
        let ghost head = dot@;
        let mut i: usize = 0;
        while i < self.states.len()
            invariant
                i <= self.states@.len(),
                dot@ == head + nfa_states_text(self.states@.subrange(0, i as int)),
            decreases self.states.len() - i,
        {
            let st = &self.states[i];
            if st.is_accepting {
                push_node_line(&mut dot, st.id, " [shape = doublecircle];\n");
            }
            let ghost mid = dot@;
            let mut k: usize = 0;
            while k < st.transitions.len()
                invariant
                    k <= st.transitions@.len(),
                    dot@ == mid + nfa_edges_text(st.id as nat, st.transitions@.subrange(0, k as int)),
                decreases st.transitions.len() - k,
            {
                let t = st.transitions[k];
                push_edge_line(&mut dot, st.id, t.to_state, t.symbol);
                proof {
                    let ts = st.transitions@.subrange(0, k as int + 1);
                    assert(ts.drop_last() =~= st.transitions@.subrange(0, k as int));
                    assert(dot@ =~= mid + nfa_edges_text(st.id as nat, ts));
                }
                k += 1;
            }
            proof {
                assert(st.transitions@.subrange(0, k as int) =~= st.transitions@);
                let ss = self.states@.subrange(0, i as int + 1);
                assert(ss.drop_last() =~= self.states@.subrange(0, i as int));
                assert(dot@ =~= head + nfa_states_text(ss));
            }
            i += 1;
        }
        push_text(&mut dot, "}\n");
        proof {
            assert(self.states@.subrange(0, i as int) =~= self.states@);
            assert(dot@ =~= nfa_dot(*self));
        }
        dot
    }
}

pub open spec fn dfa_edges_text(from: nat, ts: Seq<(char, usize)>) -> Seq<char>
    decreases ts.len(),
{
    if ts.len() == 0 {
        Seq::empty()
    } else {
        dfa_edges_text(from, ts.drop_last()) + edge_line(from, ts.last().1 as nat, seq![ts.last().0])
    }
}

pub open spec fn accept_lines(a: Seq<usize>) -> Seq<char>
    decreases a.len(),
{
    if a.len() == 0 {
        Seq::empty()
    } else {
        accept_lines(a.drop_last()) + node_line(a.last() as nat, " [shape = doublecircle];\n"@)
    }
}

pub open spec fn dfa_state_text(d: DFA, st: DFAState) -> Seq<char> {
    (if d.accept_states@.contains(st.id) {
        Seq::empty()
    } else {
        node_line(st.id as nat, " [shape = circle];\n"@)
    }) + dfa_edges_text(st.id as nat, st.transitions@)
}

pub open spec fn dfa_states_text(d: DFA, s: Seq<DFAState>) -> Seq<char>
    decreases s.len(),
{
    if s.len() == 0 {
        Seq::empty()
    } else {
        dfa_states_text(d, s.drop_last()) + dfa_state_text(d, s.last())
    }
}

/// The DOT description of a DFA: accepting states first as double circles, then each
/// state (as a circle unless accepting) with its edges, then the start state in red.
pub open spec fn dfa_dot(d: DFA) -> Seq<char> {
    "digraph DFA {\n    rankdir=LR;\n    node [shape = circle];\n"@ + accept_lines(d.accept_states@) + dfa_states_text(d, d.states@)
        + node_line(d.start_state as nat, " [color=red];\n"@) + "}\n"@
}

fn contains_id(v: &Vec<usize>, x: usize) -> (r: bool)
    ensures
        r == v@.contains(x),
{
    let mut k: usize = 0;
    while k < v.len()
        invariant
            k <= v@.len(),
            forall|j: int| 0 <= j < k ==> v@[j] != x,
        decreases v.len() - k,
    {
        if v[k] == x {
            return true;
        }
        k += 1;
    }
    false
}

impl DFA {
    /// The automaton in Graphviz DOT form.
    pub fn to_dot(&self) -> (r: String)
        ensures
            r@ == dfa_dot(*self),
    {
        let mut dot = String::new();
        push_text(&mut dot, "digraph DFA {\n    rankdir=LR;\n    node [shape = circle];\n");
        let ghost head = dot@;
        let mut i: usize = 0;
        while i < self.accept_states.len()
            invariant
                i <= self.accept_states@.len(),
                dot@ == head + accept_lines(self.accept_states@.subrange(0, i as int)),
            decreases self.accept_states.len() - i,
        {
            push_node_line(&mut dot, self.accept_states[i], " [shape = doublecircle];\n");
            proof {
                let ss = self.accept_states@.subrange(0, i as int + 1);
                assert(ss.drop_last() =~= self.accept_states@.subrange(0, i as int));
                assert(dot@ =~= head + accept_lines(ss));
            }
            i += 1;
        }
        assert(self.accept_states@.subrange(0, i as int) =~= self.accept_states@);
        let ghost head2 = dot@;
        let mut i: usize = 0;
        while i < self.states.len()
            invariant
                i <= self.states@.len(),
                dot@ == head2 + dfa_states_text(*self, self.states@.subrange(0, i as int)),
            decreases self.states.len() - i,
        {
            let st = &self.states[i];
            if !contains_id(&self.accept_states, st.id) {
                push_node_line(&mut dot, st.id, " [shape = circle];\n");
            }
            let ghost mid = dot@;
            let mut k: usize = 0;
            while k < st.transitions.len()
                invariant
                    k <= st.transitions@.len(),
                    dot@ == mid + dfa_edges_text(st.id as nat, st.transitions@.subrange(0, k as int)),
                decreases st.transitions.len() - k,
            {
                let (c, to) = st.transitions[k];
                push_edge_line(&mut dot, st.id, to, Some(c));
                proof {
                    let ts = st.transitions@.subrange(0, k as int + 1);
                    assert(ts.drop_last() =~= st.transitions@.subrange(0, k as int));
                    assert(label_text(Some(c)) == seq![c]);
                    assert(dot@ =~= mid + dfa_edges_text(st.id as nat, ts));
                }
                k += 1;
            }
            proof {
                assert(st.transitions@.subrange(0, k as int) =~= st.transitions@);
                let ss = self.states@.subrange(0, i as int + 1);
                assert(ss.drop_last() =~= self.states@.subrange(0, i as int));
                assert(dot@ =~= head2 + dfa_states_text(*self, ss));
            }
            i += 1;
        }
        assert(self.states@.subrange(0, i as int) =~= self.states@);
        push_node_line(&mut dot, self.start_state, " [color=red];\n");
        push_text(&mut dot, "}\n");
        assert(dot@ =~= dfa_dot(*self));
        dot
    }
}

} // verus!
