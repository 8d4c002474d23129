use vstd::prelude::*;
use crate::util::{lemma_distinct_bounded, lemma_ids_push, ids, falses};

verus! {

/// An edge of an NFA; `symbol` is `None` for an epsilon transition.
#[derive(PartialEq, Eq, Structural, Clone, Copy, Debug)]
pub struct Transition {
    pub symbol: Option<char>,
    pub to_state: usize,
}

/// A state of an NFA: its index, its outgoing edges and whether it accepts.
#[derive(Clone, Debug)]
pub struct State {
    pub id: usize,
    pub transitions: Vec<Transition>,
    pub is_accepting: bool,
}

/// A nondeterministic finite automaton over an arena of states.
#[derive(Clone, Debug)]
pub struct NFA {
    pub states: Vec<State>,
    pub start_state: usize,
}

impl NFA {
    #[verifier::inline]
    /// The number of states.
    pub open spec fn len(&self) -> int {
        self.states@.len() as int
    }

    #[verifier::inline]
    /// Edge `k` of state `i`.
    pub open spec fn edge(&self, i: int, k: int) -> Transition {
        self.states@[i].transitions@[k]
    }

    #[verifier::inline]
    pub open spec fn n_edges(&self, i: int) -> int {
        self.states@[i].transitions@.len() as int
    }

    #[verifier::inline]
    pub open spec fn accepting(&self, i: int) -> bool {
        self.states@[i].is_accepting
    }

    /// Every state knows its index and every edge stays inside the arena.
    pub open spec fn wf(&self) -> bool {
        &&& self.start_state < self.len()
        &&& forall|i: int| 0 <= i < self.len() ==> (#[trigger] self.states@[i]).id == i
        &&& forall|i: int, k: int|
            0 <= i < self.len() && 0 <= k < self.n_edges(i) ==> (#[trigger] self.edge(i, k)).to_state
                < self.len()
    }
}

/// An epsilon edge from `i` to `j`.
pub open spec fn eps_edge(nfa: NFA, i: int, j: int) -> bool {
    0 <= i < nfa.len() && exists|k: int|
        0 <= k < nfa.n_edges(i) && (#[trigger] nfa.edge(i, k)).symbol is None && nfa.edge(i, k).to_state
            == j
}

/// `p` is a walk along epsilon edges.
pub open spec fn eps_path(nfa: NFA, p: Seq<int>) -> bool {
    p.len() >= 1 && forall|k: int| 0 <= k < p.len() - 1 ==> #[trigger] eps_edge(nfa, p[k], p[k + 1])
}

/// The states reached from `s` by epsilon edges alone.
pub open spec fn eps_closure(nfa: NFA, s: Set<int>) -> Set<int> {
    Set::new(|j: int| exists|p: Seq<int>| #[trigger] eps_path(nfa, p) && s.contains(p[0]) && p.last() == j)
}

/// The states reached from `s` by exactly one edge labelled `a`.
pub open spec fn move_set(nfa: NFA, s: Set<int>, a: char) -> Set<int> {
    Set::new(
        |j: int|
            exists|i: int, k: int|
                s.contains(i) && 0 <= i < nfa.len() && 0 <= k < nfa.n_edges(i) && (#[trigger] nfa.edge(i, k)).symbol
                    == Some(a) && nfa.edge(i, k).to_state == j,
    )
}

/// The set of states after reading `a` from `s`.
pub open spec fn nfa_step(nfa: NFA, s: Set<int>, a: char) -> Set<int> {
    eps_closure(nfa, move_set(nfa, s, a))
}

/// The set of states after reading `w` from `s`.
pub open spec fn nfa_run(nfa: NFA, s: Set<int>, w: Seq<char>) -> Set<int>
    decreases w.len(),
{
    if w.len() == 0 {
        s
    } else {
        nfa_run(nfa, nfa_step(nfa, s, w[0]), w.drop_first())
    }
}

/// The states before any input: the closure of the start state.
pub open spec fn nfa_initial(nfa: NFA) -> Set<int> {
    eps_closure(nfa, set![nfa.start_state as int])
}

/// Some state of `s` accepts.
pub open spec fn has_accepting(nfa: NFA, s: Set<int>) -> bool {
    exists|j: int| s.contains(j) && 0 <= j < nfa.len() && #[trigger] nfa.accepting(j)
}

/// The language of the NFA.
pub open spec fn nfa_accepts(nfa: NFA, w: Seq<char>) -> bool {
    has_accepting(nfa, nfa_run(nfa, nfa_initial(nfa), w))
}

/// `a` labels some edge of the NFA.
pub open spec fn is_label(nfa: NFA, a: char) -> bool {
    exists|i: int, k: int|
        0 <= i < nfa.len() && 0 <= k < nfa.n_edges(i) && (#[trigger] nfa.edge(i, k)).symbol == Some(a)
}

/// A set that holds `s` and is closed under epsilon edges holds the closure of `s`.
pub proof fn lemma_closure_least(nfa: NFA, s: Set<int>, c: Set<int>)
    requires
        s.subset_of(c),
        forall|x: int, y: int| c.contains(x) && #[trigger] eps_edge(nfa, x, y) ==> c.contains(y),
    ensures
        eps_closure(nfa, s).subset_of(c),
{
    assert forall|j: int| eps_closure(nfa, s).contains(j) implies c.contains(j) by {
        let p = choose|p: Seq<int>| #[trigger] eps_path(nfa, p) && s.contains(p[0]) && p.last() == j;
        lemma_path_in_closed(nfa, c, p, p.len() - 1);
    }
}

proof fn lemma_path_in_closed(nfa: NFA, c: Set<int>, p: Seq<int>, k: int)
    requires
        eps_path(nfa, p),
        c.contains(p[0]),
        0 <= k < p.len(),
        forall|x: int, y: int| c.contains(x) && #[trigger] eps_edge(nfa, x, y) ==> c.contains(y),
    ensures
        c.contains(p[k]),
    decreases k,
{
    if k > 0 {
        lemma_path_in_closed(nfa, c, p, k - 1);
        assert(eps_edge(nfa, p[k - 1], p[(k - 1) + 1]));
    }
}

/// The closure holds its argument and is closed under epsilon edges.
pub proof fn lemma_closure_closed(nfa: NFA, s: Set<int>)
    ensures
        s.subset_of(eps_closure(nfa, s)),
        forall|x: int, y: int|
            eps_closure(nfa, s).contains(x) && #[trigger] eps_edge(nfa, x, y) ==> eps_closure(nfa, s).contains(y),
{
    assert forall|x: int| s.contains(x) implies eps_closure(nfa, s).contains(x) by {
        assert(eps_path(nfa, seq![x]));
    }
    assert forall|x: int, y: int|
        eps_closure(nfa, s).contains(x) && #[trigger] eps_edge(nfa, x, y) implies eps_closure(nfa, s).contains(y) by {
        let p = choose|p: Seq<int>| #[trigger] eps_path(nfa, p) && s.contains(p[0]) && p.last() == x;
        let q = p.push(y);
        assert forall|k: int| 0 <= k < q.len() - 1 implies #[trigger] eps_edge(nfa, q[k], q[k + 1]) by {
            if k < p.len() - 1 {
                assert(eps_edge(nfa, p[k], p[k + 1]));
            }
        }
        assert(eps_path(nfa, q));
    }
}

impl NFA {
    /// The epsilon closure of `states`, each state once.
    pub fn epsilon_closure(&self, states: Vec<usize>) -> (r: Vec<usize>)
        requires
            self.wf(),
            forall|k: int| 0 <= k < states@.len() ==> states@[k] < self.len(),
        ensures
            ids(r@) == eps_closure(*self, ids(states@)),
            r@.no_duplicates(),
            forall|k: int| 0 <= k < r@.len() ==> r@[k] < self.len(),
    {
        let n = self.states.len();
        let ghost s = ids(states@);
        let mut mark = falses(n);
        let mut closure: Vec<usize> = Vec::new();
        let mut stack: Vec<usize> = Vec::new();
        let mut p: usize = 0;
        while p < states.len()
            invariant
                self.wf(),
                n == self.len(),
                s == ids(states@),
                p <= states@.len(),
                forall|k: int| 0 <= k < states@.len() ==> states@[k] < n,
                mark@.len() == n,
                forall|i: int| 0 <= i < n ==> (mark@[i] <==> ids(closure@).contains(i)),
                closure@.no_duplicates(),
                forall|k: int| 0 <= k < closure@.len() ==> closure@[k] < n,
                forall|k: int| 0 <= k < p ==> ids(closure@).contains(states@[k] as int),
                ids(closure@).subset_of(s),
                stack@ == closure@,
            decreases states.len() - p,
        {
            let x = states[p];
            if !mark[x] {
                mark.set(x, true);
                proof {
                    lemma_ids_push(closure@, x);
                    assert(s.contains(x as int)) by { assert(states@[p as int] == x); }
                }
                closure.push(x);
                stack.push(x);
            }
            p += 1;
        }
        proof {
            lemma_closure_closed(*self, s);
        }
        while stack.len() > 0
            invariant
                self.wf(),
                n == self.len(),
                mark@.len() == n,
                forall|i: int| 0 <= i < n ==> (mark@[i] <==> ids(closure@).contains(i)),
                closure@.no_duplicates(),
                forall|k: int| 0 <= k < closure@.len() ==> closure@[k] < n,
                s.subset_of(ids(closure@)),
                ids(closure@).subset_of(eps_closure(*self, s)),
                forall|k: int| 0 <= k < stack@.len() ==> stack@[k] < n,
                ids(stack@).subset_of(ids(closure@)),
                forall|x: int, y: int|
                    ids(closure@).contains(x) && !ids(stack@).contains(x) && #[trigger] eps_edge(*self, x, y)
                        ==> ids(closure@).contains(y),
                s.subset_of(eps_closure(*self, s)),
                forall|x: int, y: int|
                    eps_closure(*self, s).contains(x) && #[trigger] eps_edge(*self, x, y) ==> eps_closure(
                        *self,
                        s,
                    ).contains(y),
            decreases n - closure@.len(), stack@.len(),
        {
            proof {
                lemma_distinct_bounded(closure@, n as int);
            }
            let ghost stack0_full = stack@;
            let ghost c0 = closure@.len();
            let x = stack.pop().unwrap();
            proof {
                assert(stack@.len() < stack0_full.len());
                assert(ids(closure@).contains(x as int)) by {
                    assert(stack0_full[stack0_full.len() - 1] == x);
                }
                assert forall|u: int| #[trigger] ids(stack@).contains(u) implies ids(stack0_full).contains(u) by {
                    let j = choose|j: int| 0 <= j < stack@.len() && stack@[j] == u;
                    assert(stack0_full[j] == u);
                }
                assert forall|u: int| u != x && #[trigger] ids(stack0_full).contains(u) implies ids(stack@).contains(u) by {
                    let j = choose|j: int| 0 <= j < stack0_full.len() && stack0_full[j] == u;
                    assert(j != stack0_full.len() - 1);
                    assert(stack@[j] == u);
                }
            }
            let ts = &self.states[x].transitions;
            let mut k: usize = 0;
            let ghost stack0 = stack@;
            while k < ts.len()
                invariant
                    self.wf(),
                    n == self.len(),
                    x < n,
                    ts == &self.states@[x as int].transitions,
                    k <= ts@.len(),
                    mark@.len() == n,
                    forall|i: int| 0 <= i < n ==> (mark@[i] <==> ids(closure@).contains(i)),
                    closure@.no_duplicates(),
                    forall|j: int| 0 <= j < closure@.len() ==> closure@[j] < n,
                    s.subset_of(ids(closure@)),
                    ids(closure@).subset_of(eps_closure(*self, s)),
                    ids(closure@).contains(x as int),
                    forall|j: int| 0 <= j < stack@.len() ==> stack@[j] < n,
                    ids(stack0).subset_of(ids(stack@)),
                    forall|u: int, y: int|
                        ids(closure@).contains(u) && !ids(stack@).contains(u) && u != x && #[trigger] eps_edge(
                            *self,
                            u,
                            y,
                        ) ==> ids(closure@).contains(y),
                    forall|j: int|
                        0 <= j < k && (#[trigger] self.edge(x as int, j)).symbol is None ==> ids(
                            closure@,
                        ).contains(self.edge(x as int, j).to_state as int),
                    forall|x: int, y: int|
                        eps_closure(*self, s).contains(x) && #[trigger] eps_edge(*self, x, y) ==> eps_closure(
                            *self,
                            s,
                        ).contains(y),
                    closure@.len() >= c0,
                    closure@.len() == c0 ==> stack@.len() == stack0.len(),
                    ids(stack@).subset_of(ids(closure@)),
                decreases ts.len() - k,
            {
                let t = ts[k];
                assert(t == self.edge(x as int, k as int));
                if t.symbol.is_none() && !mark[t.to_state] {
                    let y = t.to_state;
                    mark.set(y, true);
                    proof {
                        assert(eps_edge(*self, x as int, y as int));
                        lemma_ids_push(closure@, y);
                        lemma_ids_push(stack@, y);
                    }
                    closure.push(y);
                    stack.push(y);
                }
                k += 1;
            }
            proof {
                lemma_distinct_bounded(closure@, n as int);
                assert forall|u: int, y: int|
                    ids(closure@).contains(u) && !ids(stack@).contains(u) && #[trigger] eps_edge(*self, u, y)
                        implies ids(closure@).contains(y) by {
                    if u == x {
                        let j = choose|j: int|
                            0 <= j < self.n_edges(u) && (#[trigger] self.edge(u, j)).symbol is None
                                && self.edge(u, j).to_state == y;
                    }
                }
            }
        }
        proof {
            lemma_closure_least(*self, s, ids(closure@));
            assert(ids(closure@) =~= eps_closure(*self, s));
        }
        closure
    }
}


impl NFA {
    /// The states reached from `state_ids` by one edge labelled `input`, closed under
    /// epsilon edges.
    pub fn move_and_closure(&self, state_ids: &Vec<usize>, input: char) -> (r: Vec<usize>)
        requires
            self.wf(),
            forall|k: int| 0 <= k < state_ids@.len() ==> state_ids@[k] < self.len(),
        ensures
            ids(r@) == nfa_step(*self, ids(state_ids@), input),
            r@.no_duplicates(),
            forall|k: int| 0 <= k < r@.len() ==> r@[k] < self.len(),
    {
        let ghost s = ids(state_ids@);
        let ghost target = move_set(*self, s, input);
        let mut moved: Vec<usize> = Vec::new();
        let mut p: usize = 0;
        while p < state_ids.len()
            invariant
                self.wf(),
                p <= state_ids@.len(),
                s == ids(state_ids@),
                target == move_set(*self, s, input),
                forall|k: int| 0 <= k < state_ids@.len() ==> state_ids@[k] < self.len(),
                forall|k: int| 0 <= k < moved@.len() ==> moved@[k] < self.len(),
                ids(moved@).subset_of(target),
                forall|q: int, k: int|
                    0 <= q < p && 0 <= k < self.n_edges(state_ids@[q] as int) && (#[trigger] self.edge(
                        state_ids@[q] as int,
                        k,
                    )).symbol == Some(input) ==> ids(moved@).contains(
                        self.edge(state_ids@[q] as int, k).to_state as int,
                    ),
            decreases state_ids.len() - p,
        {
            let x = state_ids[p];
            assert(s.contains(x as int)) by { assert(state_ids@[p as int] == x); }
            let ts = &self.states[x].transitions;
            let mut k: usize = 0;
            while k < ts.len()
                invariant
                    self.wf(),
                    p < state_ids@.len(),
                    x == state_ids@[p as int],
                    x < self.len(),
                    s.contains(x as int),
                    ts == &self.states@[x as int].transitions,
                    k <= ts@.len(),
                    target == move_set(*self, s, input),
                    forall|j: int| 0 <= j < moved@.len() ==> moved@[j] < self.len(),
                    ids(moved@).subset_of(target),
                    forall|q: int, j: int|
                        0 <= q < p && 0 <= j < self.n_edges(state_ids@[q] as int) && (#[trigger] self.edge(
                            state_ids@[q] as int,
                            j,
                        )).symbol == Some(input) ==> ids(moved@).contains(
                            self.edge(state_ids@[q] as int, j).to_state as int,
                        ),
                    forall|j: int|
                        0 <= j < k && (#[trigger] self.edge(x as int, j)).symbol == Some(input) ==> ids(
                            moved@,
                        ).contains(self.edge(x as int, j).to_state as int),
                decreases ts.len() - k,
            {
                let t = ts[k];
                assert(t == self.edge(x as int, k as int));
                let hit = match t.symbol {
                    Some(c) => c == input,
                    None => false,
                };
                if hit {
                    proof {
                        lemma_ids_push(moved@, t.to_state);
                        assert(target.contains(t.to_state as int));
                    }
                    moved.push(t.to_state);
                }
                k += 1;
            }
            p += 1;
        }
        proof {
            assert forall|j: int| target.contains(j) implies ids(moved@).contains(j) by {
                let (i, k) = choose|i: int, k: int|
                    s.contains(i) && 0 <= i < self.len() && 0 <= k < self.n_edges(i) && (#[trigger] self.edge(
                        i,
                        k,
                    )).symbol == Some(input) && self.edge(i, k).to_state == j;
                let q = choose|q: int| 0 <= q < state_ids@.len() && state_ids@[q] == i;
                assert(self.edge(state_ids@[q] as int, k).symbol == Some(input));
            }
            assert(ids(moved@) =~= target);
        }
        self.epsilon_closure(moved)
    }

    /// The distinct symbols that label edges of the NFA, in increasing order.
    pub fn alphabet(&self) -> (r: Vec<char>)
        ensures
            forall|i: int, j: int| 0 <= i < j < r@.len() ==> r@[i] < r@[j],
            forall|c: char| r@.contains(c) <==> is_label(*self, c),
    {
        let mut r: Vec<char> = Vec::new();
        let mut p: usize = 0;
        while p < self.states.len()
            invariant
                p <= self.len(),
                forall|i: int, j: int| 0 <= i < j < r@.len() ==> r@[i] < r@[j],
                forall|c: char|
                    r@.contains(c) <==> exists|i: int, k: int|
                        0 <= i < p && 0 <= k < self.n_edges(i) && (#[trigger] self.edge(i, k)).symbol == Some(c),
            decreases self.len() - p,
        {
            let ts = &self.states[p].transitions;
            let mut k: usize = 0;
            while k < ts.len()
                invariant
                    p < self.len(),
                    ts == &self.states@[p as int].transitions,
                    k <= ts@.len(),
                    forall|i: int, j: int| 0 <= i < j < r@.len() ==> r@[i] < r@[j],
                    forall|c: char|
                        r@.contains(c) <==> (exists|i: int, j: int|
                            0 <= i < p && 0 <= j < self.n_edges(i) && (#[trigger] self.edge(i, j)).symbol == Some(c))
                            || (exists|j: int| 0 <= j < k && (#[trigger] self.edge(p as int, j)).symbol == Some(c)),
                decreases ts.len() - k,
            {
                let t = ts[k];
                assert(t == self.edge(p as int, k as int));
                if let Some(c) = t.symbol {
                    insert_sorted(&mut r, c);
                }
                k += 1;
            }
            p += 1;
        }
        r
    }

    /// Whether the NFA accepts `input`: the set of current states is advanced by one
    /// symbol at a time and closed under epsilon edges.
    pub fn matches(&self, input: &str) -> (r: bool)
        requires
            self.wf(),
        ensures
            r == nfa_accepts(*self, input@),
    {
        let mut start: Vec<usize> = Vec::new();
        start.push(self.start_state);
        proof {
            lemma_ids_push(Seq::empty(), self.start_state);
            assert(ids(Seq::<usize>::empty()) =~= Set::empty());
            assert(start@ == Seq::<usize>::empty().push(self.start_state));
            assert(ids(start@) =~= set![self.start_state as int]);
        }
        let mut cur = self.epsilon_closure(start);
        let n = input.unicode_len();
        let mut i: usize = 0;
        assert(input@.subrange(0, n as int) =~= input@);
        while i < n
            invariant
                self.wf(),
                n == input@.len(),
                i <= n,
                forall|k: int| 0 <= k < cur@.len() ==> cur@[k] < self.len(),
                nfa_run(*self, ids(cur@), input@.subrange(i as int, n as int)) == nfa_run(
                    *self,
                    nfa_initial(*self),
                    input@,
                ),
            decreases n - i,
        {
            let c = input.get_char(i);
            proof {
                let w = input@.subrange(i as int, n as int);
                assert(w.drop_first() =~= input@.subrange(i as int + 1, n as int));
                assert(w[0] == c);
            }
            cur = self.move_and_closure(&cur, c);
            i += 1;
        }
        proof {
            assert(input@.subrange(n as int, n as int) =~= Seq::<char>::empty());
            assert(input@.subrange(0, n as int) =~= input@);
        }
        self.any_accepting(&cur)
    }

    pub(crate) fn any_accepting(&self, v: &Vec<usize>) -> (r: bool)
        requires
            self.wf(),
            forall|k: int| 0 <= k < v@.len() ==> v@[k] < self.len(),
        ensures
            r == has_accepting(*self, ids(v@)),
    {
        let mut k: usize = 0;
        while k < v.len()
            invariant
                self.wf(),
                k <= v@.len(),
                forall|q: int| 0 <= q < v@.len() ==> v@[q] < self.len(),
                forall|q: int| 0 <= q < k ==> !self.accepting(v@[q] as int),
            decreases v.len() - k,
        {
            if self.states[v[k]].is_accepting {
                assert(ids(v@).contains(v@[k as int] as int));
                assert(self.accepting(v@[k as int] as int));
                return true;
            }
            k += 1;
        }
        proof {
            if has_accepting(*self, ids(v@)) {
                let j = choose|j: int| ids(v@).contains(j) && 0 <= j < self.len() && #[trigger] self.accepting(j);
                let q = choose|q: int| 0 <= q < v@.len() && v@[q] == j;
                assert(!self.accepting(v@[q] as int));
            }
        }
        false
    }
}

/// Inserts `c` into a strictly increasing vector unless it is there already.
pub(crate) fn insert_sorted(r: &mut Vec<char>, c: char)
    requires
        forall|i: int, j: int| 0 <= i < j < old(r)@.len() ==> old(r)@[i] < old(r)@[j],
    ensures
        forall|i: int, j: int| 0 <= i < j < final(r)@.len() ==> final(r)@[i] < final(r)@[j],
        forall|d: char| final(r)@.contains(d) <==> (old(r)@.contains(d) || d == c),
{
    let mut pos: usize = 0;
    while pos < r.len() && r[pos] < c
        invariant
            pos <= r@.len(),
            forall|i: int| 0 <= i < pos ==> r@[i] < c,
        decreases r.len() - pos,
    {
        pos += 1;
    }
    if pos < r.len() && r[pos] == c {
        assert(r@[pos as int] == c);
        assert(r@.contains(c));
        return;
    }
    let ghost before = r@;
    assert(before == old(r)@);
    r.insert(pos, c);
    proof {
        assert(r@ =~= before.subrange(0, pos as int).push(c) + before.subrange(pos as int, before.len() as int));
        assert forall|d: char| r@.contains(d) <==> (before.contains(d) || d == c) by {
            if before.contains(d) {
                let i = choose|i: int| 0 <= i < before.len() && before[i] == d;
                if i < pos {
                    assert(r@[i] == d);
                } else {
                    assert(r@[i + 1] == d);
                }
            }
            if d == c {
                assert(r@[pos as int] == c);
            }
            if r@.contains(d) && d != c {
                let i = choose|i: int| 0 <= i < r@.len() && r@[i] == d;
                if i < pos {
                    assert(before[i] == d);
                } else {
                    assert(before[i - 1] == d);
                }
            }
        }
        assert(forall|d: char| r@.contains(d) <==> (old(r)@.contains(d) || d == c));
    }
}


/// Each state as its accepting flag and its edges.
pub open spec fn nview(n: NFA) -> Seq<(bool, Seq<Transition>)> {
    n.states@.map_values(|s: State| (s.is_accepting, s.transitions@))
}

/// The states of `v` with every edge target moved up by `off`.
pub open spec fn shifted(v: Seq<(bool, Seq<Transition>)>, off: int) -> Seq<(bool, Seq<Transition>)> {
    v.map_values(|s: (bool, Seq<Transition>)| (s.0, s.1.map_values(|t: Transition| Transition { symbol: t.symbol, to_state: (t.to_state + off) as usize })))
}

pub open spec fn eps_edge_to(t: int) -> Transition {
    Transition { symbol: None, to_state: t as usize }
}

/// The edges of state `i` during a union of `v1` and `v2` under the states `sv`
/// (start `start`), once the accepting states of `v1` below `k1` and of `v2` below `k2`
/// have their epsilon edge to the new last state.
pub open spec fn union_edges(
    sv: Seq<(bool, Seq<Transition>)>,
    start: int,
    v1: Seq<(bool, Seq<Transition>)>,
    s1: int,
    v2: Seq<(bool, Seq<Transition>)>,
    s2: int,
    k1: int,
    k2: int,
    i: int,
) -> Seq<Transition> {
    let m = sv.len() as int;
    let o2 = m + v1.len();
    let a = o2 + v2.len();
    if i < m {
        sv[i].1 + if i == start { seq![eps_edge_to(s1 + m), eps_edge_to(s2 + o2)] } else { Seq::empty() }
    } else if i < o2 {
        shifted(v1, m)[i - m].1 + if i - m < k1 && v1[i - m].0 { seq![eps_edge_to(a)] } else { Seq::empty() }
    } else if i < a {
        shifted(v2, o2)[i - o2].1 + if i - o2 < k2 && v2[i - o2].0 { seq![eps_edge_to(a)] } else { Seq::empty() }
    } else {
        Seq::empty()
    }
}

pub open spec fn union_flag(sv: Seq<(bool, Seq<Transition>)>, v1: Seq<(bool, Seq<Transition>)>, v2: Seq<(bool, Seq<Transition>)>, i: int) -> bool {
    let m = sv.len() as int;
    let o2 = m + v1.len();
    let a = o2 + v2.len();
    if i < m { sv[i].0 } else if i < o2 { v1[i - m].0 } else if i < a { v2[i - o2].0 } else { true }
}

/// The states below `m` are the same in both automata.
pub open spec fn same_below(a: NFA, b: NFA, m: int) -> bool {
    forall|i: int| 0 <= i < m ==> #[trigger] b.states@[i] == a.states@[i]
}

/// Only state `i` has exactly one accepting flag set.
pub open spec fn only_accepting(a: NFA, acc: int) -> bool {
    forall|j: int| 0 <= j < a.len() ==> (#[trigger] a.accepting(j) <==> j == acc)
}

/// A fragment of the Thompson construction: well formed, starting at state 0, with
/// exactly one accepting state.
pub open spec fn is_fragment(a: NFA) -> bool {
    &&& a.wf()
    &&& a.start_state == 0
    &&& exists|acc: int| 0 <= acc < a.len() && #[trigger] only_accepting(a, acc)
}

/// The accepting state of a fragment.
pub proof fn fragment_accept(f: NFA) -> (acc: int)
    requires
        is_fragment(f),
    ensures
        0 <= acc < f.len(),
        only_accepting(f, acc),
        f.accepting(acc),
{
    let acc = choose|acc: int| 0 <= acc < f.len() && #[trigger] only_accepting(f, acc);
    assert(f.accepting(acc));
    acc
}

impl NFA {
    /// An NFA of one non-accepting start state and no edges.
    pub fn new() -> (r: NFA)
        ensures
            r.wf(),
            r.len() == 1,
            r.start_state == 0,
            !r.accepting(0),
            r.n_edges(0) == 0,
            nview(r) == seq![(false, Seq::<Transition>::empty())],
    {
        let mut states: Vec<State> = Vec::new();
        states.push(State { id: 0, transitions: Vec::new(), is_accepting: false });
        let r = NFA { states, start_state: 0 };
        assert(nview(r) =~= seq![(false, Seq::<Transition>::empty())]);
        r
    }

    /// Appends a state without edges and returns its index.
    pub fn add_state(&mut self, is_accepting: bool) -> (r: usize)
        requires
            old(self).len() < usize::MAX,
        ensures
            r == old(self).len(),
            final(self).len() == old(self).len() + 1,
            final(self).start_state == old(self).start_state,
            same_below(*old(self), *final(self), old(self).len()),
            final(self).states@[r as int].id == r,
            final(self).n_edges(r as int) == 0,
            final(self).accepting(r as int) == is_accepting,
            old(self).wf() ==> final(self).wf(),
            nview(*final(self)) == nview(*old(self)).push((is_accepting, Seq::<Transition>::empty())),
    {
        let new_id = self.states.len();
        self.states.push(State { id: new_id, transitions: Vec::new(), is_accepting });
        assert(nview(*self) =~= nview(*old(self)).push((is_accepting, Seq::<Transition>::empty())));
        new_id
    }

    /// Appends an edge from `from_state` to `to_state`.
    pub fn add_transition(&mut self, from_state: usize, to_state: usize, symbol: Option<char>)
        requires
            from_state < old(self).len(),
        ensures
            final(self).len() == old(self).len(),
            final(self).start_state == old(self).start_state,
            forall|i: int|
                0 <= i < old(self).len() && i != from_state ==> #[trigger] final(self).states@[i] == old(
                    self,
                ).states@[i],
            final(self).states@[from_state as int].id == old(self).states@[from_state as int].id,
            final(self).accepting(from_state as int) == old(self).accepting(from_state as int),
            final(self).states@[from_state as int].transitions@ == old(self).states@[from_state as int].transitions@.push(
                Transition { symbol, to_state },
            ),
            old(self).wf() && to_state < old(self).len() ==> final(self).wf(),
            nview(*final(self)) == nview(*old(self)).update(
                from_state as int,
                (nview(*old(self))[from_state as int].0, nview(*old(self))[from_state as int].1.push(Transition { symbol, to_state })),
            ),
    {
        self.states[from_state].transitions.push(Transition { symbol, to_state });
        assert(nview(*self) =~= nview(*old(self)).update(
            from_state as int,
            (nview(*old(self))[from_state as int].0, nview(*old(self))[from_state as int].1.push(Transition { symbol, to_state })),
        ));
    }
}


impl NFA {
    /// Appends an epsilon edge from `from_state` to `to_state`.
    pub fn add_epsilon_transition(&mut self, from_state: usize, to_state: usize)
        requires
            from_state < old(self).len(),
        ensures
            final(self).len() == old(self).len(),
            final(self).start_state == old(self).start_state,
            forall|i: int|
                0 <= i < old(self).len() && i != from_state ==> #[trigger] final(self).states@[i] == old(
                    self,
                ).states@[i],
            final(self).states@[from_state as int].id == old(self).states@[from_state as int].id,
            final(self).accepting(from_state as int) == old(self).accepting(from_state as int),
            final(self).states@[from_state as int].transitions@ == old(self).states@[from_state as int].transitions@.push(
                Transition { symbol: None, to_state },
            ),
            old(self).wf() && to_state < old(self).len() ==> final(self).wf(),
            nview(*final(self)) == nview(*old(self)).update(
                from_state as int,
                (nview(*old(self))[from_state as int].0, nview(*old(self))[from_state as int].1.push(Transition { symbol: None, to_state })),
            ),
    {
        self.states[from_state].transitions.push(Transition { symbol: None, to_state });
        assert(nview(*self) =~= nview(*old(self)).update(
            from_state as int,
            (nview(*old(self))[from_state as int].0, nview(*old(self))[from_state as int].1.push(Transition { symbol: None, to_state })),
        ));
    }

    /// The last accepting state.
    pub fn accept_state(&self) -> (r: usize)
        requires
            exists|j: int| 0 <= j < self.len() && #[trigger] self.accepting(j),
        ensures
            r < self.len(),
            self.accepting(r as int),
            forall|j: int| r < j < self.len() ==> !#[trigger] self.accepting(j),
    {
        let mut i: usize = self.states.len();
        while i > 0
            invariant
                i <= self.len(),
                forall|j: int| i <= j < self.len() ==> !#[trigger] self.accepting(j),
                exists|j: int| 0 <= j < self.len() && #[trigger] self.accepting(j),
            decreases i,
        {
            if self.states[i - 1].is_accepting {
                return i - 1;
            }
            i -= 1;
        }
        proof {
            let j = choose|j: int| 0 <= j < self.len() && #[trigger] self.accepting(j);
        }
        0
    }

    /// The start state.
    pub fn start_state(&self) -> (r: usize)
        ensures
            r == self.start_state,
    {
        self.start_state
    }

    /// Makes `state_id` the one accepting state.
    pub fn set_accept_state(&mut self, state_id: usize)
        requires
            state_id < old(self).len(),
        ensures
            final(self).len() == old(self).len(),
            final(self).start_state == old(self).start_state,
            forall|i: int| 0 <= i < old(self).len() ==> (#[trigger] final(self).states@[i]).id == old(self).states@[i].id
                && final(self).states@[i].transitions == old(self).states@[i].transitions,
            only_accepting(*final(self), state_id as int),
            old(self).wf() ==> final(self).wf(),
            nview(*final(self)) == Seq::new(old(self).len() as nat, |i: int| (i == state_id, nview(*old(self))[i].1)),
    {
        let mut i: usize = 0;
        while i < self.states.len()
            invariant
                i <= self.len(),
                self.len() == old(self).len(),
                self.start_state == old(self).start_state,
                forall|j: int| 0 <= j < old(self).len() ==> (#[trigger] self.states@[j]).id == old(self).states@[j].id
                    && self.states@[j].transitions == old(self).states@[j].transitions,
                forall|j: int| 0 <= j < i ==> !#[trigger] self.accepting(j),
            decreases self.len() - i,
        {
            self.states[i].is_accepting = false;
            i += 1;
        }
        self.states[state_id].is_accepting = true;
        assert(nview(*self) =~= Seq::new(old(self).len() as nat, |i: int| (i == state_id, nview(*old(self))[i].1)));
    }

    /// Appends a copy of every state of `other`, its edges moved by `offset`.
    pub(crate) fn copy_states_and_transitions(&mut self, other: &NFA, offset: usize)
        requires
            other.wf(),
            offset == old(self).len(),
            old(self).len() + other.len() <= usize::MAX,
        ensures
            final(self).len() == old(self).len() + other.len(),
            final(self).start_state == old(self).start_state,
            same_below(*old(self), *final(self), old(self).len()),
            forall|j: int| 0 <= j < other.len() ==> (#[trigger] final(self).states@[offset + j]).id == offset + j
                && final(self).accepting(offset + j) == other.accepting(j)
                && final(self).n_edges(offset + j) == other.n_edges(j),
            forall|j: int, k: int| 0 <= j < other.len() && 0 <= k < other.n_edges(j) ==>
                (#[trigger] final(self).edge(offset + j, k)) == (Transition { symbol: other.edge(j, k).symbol,
                    to_state: (other.edge(j, k).to_state + offset) as usize }),
            old(self).wf() ==> final(self).wf(),
            nview(*final(self)) == nview(*old(self)) + shifted(nview(*other), offset as int),
    {
        let mut p: usize = 0;
        while p < other.states.len()
            invariant
                other.wf(),
                offset == old(self).len(),
                old(self).len() + other.len() <= usize::MAX,
                p <= other.len(),
                self.len() == old(self).len() + p,
                old(self).wf() ==> self.start_state < self.len(),
                old(self).wf() ==> forall|i: int| 0 <= i < self.len() ==> (#[trigger] self.states@[i]).id == i,
                old(self).wf() ==> forall|i: int, k: int| 0 <= i < self.len() && 0 <= k < self.n_edges(i) ==> (#[trigger] self.edge(i, k)).to_state < old(self).len() + other.len(),
                self.start_state == old(self).start_state,
                same_below(*old(self), *self, old(self).len()),
                forall|j: int| 0 <= j < p ==> (#[trigger] self.states@[offset + j]).id == offset + j
                    && self.accepting(offset + j) == other.accepting(j)
                    && self.n_edges(offset + j) == other.n_edges(j),
                forall|j: int, k: int| 0 <= j < p && 0 <= k < other.n_edges(j) ==>
                    (#[trigger] self.edge(offset + j, k)) == (Transition { symbol: other.edge(j, k).symbol,
                        to_state: (other.edge(j, k).to_state + offset) as usize }),
            decreases other.len() - p,
        {
            let st = &other.states[p];
            let new_id = self.add_state(st.is_accepting);
            let mut k: usize = 0;
            while k < st.transitions.len()
                invariant
                    other.wf(),
                    offset == old(self).len(),
                    old(self).len() + other.len() <= usize::MAX,
                    p < other.len(),
                    st == &other.states@[p as int],
                    new_id == offset + p,
                    k <= st.transitions@.len(),
                    self.len() == old(self).len() + p + 1,
                    old(self).wf() ==> self.start_state < self.len(),
                    old(self).wf() ==> forall|i: int| 0 <= i < self.len() ==> (#[trigger] self.states@[i]).id == i,
                    old(self).wf() ==> forall|i: int, k: int| 0 <= i < self.len() && 0 <= k < self.n_edges(i) ==> (#[trigger] self.edge(i, k)).to_state < old(self).len() + other.len(),
                    self.start_state == old(self).start_state,
                    same_below(*old(self), *self, old(self).len()),
                    forall|j: int| 0 <= j <= p ==> (#[trigger] self.states@[offset + j]).id == offset + j
                        && self.accepting(offset + j) == other.accepting(j),
                    forall|j: int| 0 <= j < p ==> self.n_edges(offset + j) == other.n_edges(j),
                    self.n_edges(new_id as int) == k,
                    forall|j: int, q: int| 0 <= j < p && 0 <= q < other.n_edges(j) ==>
                        (#[trigger] self.edge(offset + j, q)) == (Transition { symbol: other.edge(j, q).symbol,
                            to_state: (other.edge(j, q).to_state + offset) as usize }),
                    forall|q: int| 0 <= q < k ==>
                        (#[trigger] self.edge(new_id as int, q)) == (Transition { symbol: other.edge(p as int, q).symbol,
                            to_state: (other.edge(p as int, q).to_state + offset) as usize }),
                decreases st.transitions.len() - k,
            {
                let t = st.transitions[k];
                assert(t == other.edge(p as int, k as int));
                self.add_transition(new_id, t.to_state + offset, t.symbol);
                k += 1;
            }
            p += 1;
        }
        proof {
            let a = nview(*self);
            let b = nview(*old(self)) + shifted(nview(*other), offset as int);
            assert forall|i: int| 0 <= i < a.len() implies a[i] == b[i] by {
                if i < old(self).len() {
                    assert(self.states@[i] == old(self).states@[i]);
                } else {
                    let j = i - offset;
                    assert(self.states@[offset + j].id == offset + j);
                    assert(self.n_edges(offset + j) == other.n_edges(j));
                    assert forall|k: int| 0 <= k < a[i].1.len() implies a[i].1[k] == b[i].1[k] by {
                        assert(self.edge(offset + j, k) == (Transition { symbol: other.edge(j, k).symbol,
                            to_state: (other.edge(j, k).to_state + offset) as usize }));
                    }
                    assert(a[i].1 =~= b[i].1);
                    assert(a[i].0 == b[i].0);
                }
            }
            assert(a =~= b);
        }
    }
}


impl NFA {
    /// Adds copies of `nfa1` and `nfa2`, epsilon edges from the start state of `self` to
    /// their starts, and a new state, the only accepting one, that their accepting states
    /// reach by epsilon edges.
    pub fn union(&mut self, nfa1: &NFA, nfa2: &NFA)
        requires
            old(self).wf(),
            nfa1.wf(),
            nfa2.wf(),
            old(self).len() + nfa1.len() + nfa2.len() < usize::MAX,
        ensures
            final(self).wf(),
            final(self).len() == old(self).len() + nfa1.len() + nfa2.len() + 1,
            final(self).start_state == old(self).start_state,
            only_accepting(*final(self), final(self).len() - 1),
            nview(*final(self)) == Seq::new(
                final(self).len() as nat,
                |i: int| (i == final(self).len() - 1, union_edges(nview(*old(self)), old(self).start_state as int,
                    nview(*nfa1), nfa1.start_state as int, nview(*nfa2), nfa2.start_state as int, nfa1.len(), nfa2.len(), i)),
            ),
    {
        let ghost sv = nview(*self);
        let ghost v1 = nview(*nfa1);
        let ghost v2 = nview(*nfa2);
        let ghost st = self.start_state as int;
        let ghost s1 = nfa1.start_state as int;
        let ghost s2 = nfa2.start_state as int;
        let start_state = self.start_state;
        let offset1 = self.states.len();
        self.copy_states_and_transitions(nfa1, offset1);
        let offset2 = self.states.len();
        self.copy_states_and_transitions(nfa2, offset2);
        self.add_epsilon_transition(start_state, nfa1.start_state + offset1);
        self.add_epsilon_transition(start_state, nfa2.start_state + offset2);
        let accept_state = self.add_state(true);
        proof {
            let want = Seq::new((accept_state + 1) as nat, |i: int| (union_flag(sv, v1, v2, i), union_edges(sv, st, v1, s1, v2, s2, 0, 0, i)));
            assert forall|i: int| 0 <= i < want.len() implies nview(*self)[i] == want[i] by {
                assert(nview(*self)[i].1 =~= want[i].1);
            }
            assert(nview(*self) =~= want);
        }
        let mut idx: usize = 0;
        while idx < nfa1.states.len()
            invariant
                self.wf(),
                nfa1.wf(),
                nfa2.wf(),
                sv.len() == offset1,
                v1 == nview(*nfa1),
                v2 == nview(*nfa2),
                offset2 == offset1 + nfa1.len(),
                accept_state == offset2 + nfa2.len(),
                nview(*self) == Seq::new((accept_state + 1) as nat, |i: int| (union_flag(sv, v1, v2, i), union_edges(sv, st, v1, s1, v2, s2, idx as int, 0, i))),
                idx <= nfa1.len(),
                offset1 + nfa1.len() <= offset2,
                offset2 < accept_state,
                accept_state < self.len(),
                self.len() == accept_state + 1,
                self.start_state == start_state,
            decreases nfa1.len() - idx,
        {
            if nfa1.states[idx].is_accepting {
                self.add_epsilon_transition(idx + offset1, accept_state);
            }
            proof {
                let want = Seq::new((accept_state + 1) as nat, |i: int| (union_flag(sv, v1, v2, i), union_edges(sv, st, v1, s1, v2, s2, idx + 1, 0, i)));
                assert forall|i: int| 0 <= i < want.len() implies nview(*self)[i] == want[i] by {
                    assert(nview(*self)[i].1 =~= want[i].1);
                }
                assert(nview(*self) =~= want);
            }
            idx += 1;
        }
        let mut idx: usize = 0;
        while idx < nfa2.states.len()
            invariant
                self.wf(),
                nfa1.wf(),
                nfa2.wf(),
                sv.len() == offset1,
                v1 == nview(*nfa1),
                v2 == nview(*nfa2),
                offset2 == offset1 + nfa1.len(),
                accept_state == offset2 + nfa2.len(),
                nview(*self) == Seq::new((accept_state + 1) as nat, |i: int| (union_flag(sv, v1, v2, i), union_edges(sv, st, v1, s1, v2, s2, nfa1.len(), idx as int, i))),
                idx <= nfa2.len(),
                offset2 + nfa2.len() <= accept_state,
                accept_state < self.len(),
                self.len() == accept_state + 1,
                self.start_state == start_state,
            decreases nfa2.len() - idx,
        {
            if nfa2.states[idx].is_accepting {
                self.add_epsilon_transition(idx + offset2, accept_state);
            }
            proof {
                let want = Seq::new((accept_state + 1) as nat, |i: int| (union_flag(sv, v1, v2, i), union_edges(sv, st, v1, s1, v2, s2, nfa1.len(), idx + 1, i)));
                assert forall|i: int| 0 <= i < want.len() implies nview(*self)[i] == want[i] by {
                    assert(nview(*self)[i].1 =~= want[i].1);
                }
                assert(nview(*self) =~= want);
            }
            idx += 1;
        }
        self.set_accept_state(accept_state);
        proof {
            let want = Seq::new(self.len() as nat, |i: int| (i == self.len() - 1, union_edges(sv, st, v1, s1, v2, s2, nfa1.len(), nfa2.len(), i)));
            assert(nview(*self) =~= want);
        }
    }
}

} // verus!
