use vstd::prelude::*;

verus! {

/// A state of a DFA: its index and its edges as (symbol, target) pairs.
#[derive(Clone, Debug)]
pub struct DFAState {
    pub id: usize,
    pub transitions: Vec<(char, usize)>,
}

/// A deterministic finite automaton; a missing edge rejects.
#[derive(Clone, Debug)]
pub struct DFA {
    pub states: Vec<DFAState>,
    pub start_state: usize,
    pub accept_states: Vec<usize>,
}

impl DFA {
    #[verifier::inline]
    /// The number of states.
    pub open spec fn len(&self) -> int {
        self.states@.len() as int
    }

    #[verifier::inline]
    pub open spec fn n_trans(&self, i: int) -> int {
        self.states@[i].transitions@.len() as int
    }

    #[verifier::inline]
    /// Edge `k` of state `i`.
    pub open spec fn trans(&self, i: int, k: int) -> (char, usize) {
        self.states@[i].transitions@[k]
    }

    /// State `q` is listed as accepting.
    pub open spec fn is_accept(&self, q: int) -> bool {
        exists|k: int| 0 <= k < self.accept_states@.len() && self.accept_states@[k] == q
    }

    /// No state has two edges on one symbol.
    pub open spec fn deterministic(&self) -> bool {
        forall|i: int, k1: int, k2: int|
            0 <= i < self.len() && 0 <= k1 < self.n_trans(i) && 0 <= k2 < self.n_trans(i) && k1 != k2
                ==> (#[trigger] self.trans(i, k1)).0 != (#[trigger] self.trans(i, k2)).0
    }

    /// Indices, edges and accepting states stay inside the arena, and the automaton is
    /// deterministic.
    pub open spec fn wf(&self) -> bool {
        &&& self.start_state < self.len()
        &&& forall|i: int| 0 <= i < self.len() ==> (#[trigger] self.states@[i]).id == i
        &&& forall|i: int, k: int|
            0 <= i < self.len() && 0 <= k < self.n_trans(i) ==> (#[trigger] self.trans(i, k)).1 < self.len()
        &&& forall|k: int| 0 <= k < self.accept_states@.len() ==> #[trigger] self.accept_states@[k] < self.len()
        &&& self.deterministic()
    }
}

/// The target of the edge from `q` on `a`, if there is one.
pub open spec fn dfa_next(d: DFA, q: int, a: char) -> Option<int> {
    if exists|k: int| 0 <= k < d.n_trans(q) && (#[trigger] d.trans(q, k)).0 == a {
        let k = choose|k: int| 0 <= k < d.n_trans(q) && (#[trigger] d.trans(q, k)).0 == a;
        Some(d.trans(q, k).1 as int)
    } else {
        None
    }
}

/// The state reached from `q` by reading `w`, if no edge is missing on the way.
pub open spec fn dfa_run(d: DFA, q: int, w: Seq<char>) -> Option<int>
    decreases w.len(),
{
    if w.len() == 0 {
        Some(q)
    } else {
        match dfa_next(d, q, w[0]) {
            Some(p) => dfa_run(d, p, w.drop_first()),
            None => None,
        }
    }
}

/// The language of the DFA.
pub open spec fn dfa_accepts(d: DFA, w: Seq<char>) -> bool {
    match dfa_run(d, d.start_state as int, w) {
        Some(q) => d.is_accept(q),
        None => false,
    }
}

/// Each state's edges are in strictly increasing order of symbol.
pub open spec fn edges_sorted(d: DFA) -> bool {
    forall|i: int, k1: int, k2: int| 0 <= i < d.len() && 0 <= k1 < k2 < d.n_trans(i) ==> (#[trigger] d.trans(i, k1)).0 < (#[trigger] d.trans(i, k2)).0
}

/// Some input leads from the start state to `q`.
pub open spec fn reachable(d: DFA, q: int) -> bool {
    exists|w: Seq<char>| #[trigger] dfa_run(d, d.start_state as int, w) == Some(q)
}

/// The states that some input leads to from the start state.
pub open spec fn reach_set(d: DFA) -> Set<int> {
    Set::new(|x: int| 0 <= x < d.len() && reachable(d, x))
}

/// Reading one more symbol takes one more step.
pub proof fn lemma_run_push(d: DFA, q: int, w: Seq<char>, a: char)
    ensures
        dfa_run(d, q, w.push(a)) == match dfa_run(d, q, w) {
            Some(p) => dfa_next(d, p, a),
            None => None,
        },
    decreases w.len(),
{
    if w.len() == 0 {
        assert(w.push(a).drop_first() =~= Seq::<char>::empty());
        assert(w.push(a)[0] == a);
        match dfa_next(d, q, a) {
            Some(p) => {
                assert(dfa_run(d, p, Seq::<char>::empty()) == Some(p));
            },
            None => {},
        }
    } else {
        assert(w.push(a).drop_first() =~= w.drop_first().push(a));
        assert(w.push(a)[0] == w[0]);
        match dfa_next(d, q, w[0]) {
            Some(p) => lemma_run_push(d, p, w.drop_first(), a),
            None => {},
        }
    }
}

/// In a deterministic automaton the edge on `a` is the one found at index `k`.
pub proof fn lemma_next_at(d: DFA, q: int, k: int)
    requires
        d.wf(),
        0 <= q < d.len(),
        0 <= k < d.n_trans(q),
    ensures
        dfa_next(d, q, d.trans(q, k).0) == Some(d.trans(q, k).1 as int),
{
    let a = d.trans(q, k).0;
    let j = choose|j: int| 0 <= j < d.n_trans(q) && (#[trigger] d.trans(q, j)).0 == a;
    if j != k {
        assert(d.trans(q, j).0 != d.trans(q, k).0);
    }
}

impl DFA {
    /// An automaton with no states.
    pub fn new() -> (r: DFA)
        ensures
            r.states@.len() == 0,
            r.start_state == 0,
            r.accept_states@.len() == 0,
    {
        DFA { states: Vec::new(), start_state: 0, accept_states: Vec::new() }
    }

    /// The edge from `q` on `a`.
    pub fn next_state(&self, q: usize, a: char) -> (r: Option<usize>)
        requires
            self.wf(),
            q < self.len(),
        ensures
            match r {
                Some(p) => dfa_next(*self, q as int, a) == Some(p as int),
                None => dfa_next(*self, q as int, a) is None,
            },
    {
        let ts = &self.states[q].transitions;
        let mut k: usize = 0;
        while k < ts.len()
            invariant
                self.wf(),
                q < self.len(),
                ts == &self.states@[q as int].transitions,
                k <= ts@.len(),
                forall|j: int| 0 <= j < k ==> (#[trigger] self.trans(q as int, j)).0 != a,
            decreases ts.len() - k,
        {
            if ts[k].0 == a {
                proof {
                    lemma_next_at(*self, q as int, k as int);
                }
                return Some(ts[k].1);
            }
            k += 1;
        }
        None
    }

    /// Whether `q` is an accepting state.
    pub fn is_accepting(&self, q: usize) -> (r: bool)
        ensures
            r == self.is_accept(q as int),
    {
        let mut k: usize = 0;
        while k < self.accept_states.len()
            invariant
                k <= self.accept_states@.len(),
                forall|j: int| 0 <= j < k ==> self.accept_states@[j] != q,
            decreases self.accept_states.len() - k,
        {
            if self.accept_states[k] == q {
                return true;
            }
            k += 1;
        }
        false
    }

    /// Whether the DFA accepts `input`: edges are followed one symbol at a time, and a
    /// missing edge rejects at once.
    pub fn matches(&self, input: &str) -> (r: bool)
        requires
            self.wf(),
        ensures
            r == dfa_accepts(*self, input@),
    {
        let n = input.unicode_len();
        let mut q = self.start_state;
        let mut i: usize = 0;
        assert(input@.subrange(0, n as int) =~= input@);
        while i < n
            invariant
                self.wf(),
                n == input@.len(),
                i <= n,
                q < self.len(),
                dfa_run(*self, q as int, input@.subrange(i as int, n as int)) == dfa_run(
                    *self,
                    self.start_state as int,
                    input@,
                ),
            decreases n - i,
        {
            let c = input.get_char(i);
            proof {
                let w = input@.subrange(i as int, n as int);
                assert(w.drop_first() =~= input@.subrange(i as int + 1, n as int));
                assert(w[0] == c);
            }
            match self.next_state(q, c) {
                Some(p) => {
                    proof {
                        let k = choose|k: int| 0 <= k < self.n_trans(q as int) && (#[trigger] self.trans(q as int, k)).0 == c;
                    }
                    q = p;
                },
                None => return false,
            }
            i += 1;
        }
        proof {
            assert(input@.subrange(n as int, n as int) =~= Seq::<char>::empty());
        }
        self.is_accepting(q)
    }
}

} // verus!
