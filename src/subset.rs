use vstd::prelude::*;
use vstd::set_lib::lemma_len_subset;
use crate::dfa::{DFA, DFAState, dfa_accepts, dfa_next, dfa_run, edges_sorted, lemma_next_at};
use crate::nfa::{
    NFA, eps_closure, has_accepting, is_label, lemma_closure_closed, move_set, nfa_accepts, nfa_initial,
    nfa_run, nfa_step,
};
use crate::util::{falses, ids, lemma_ids_push};

verus! {

/// The characteristic vector of `s` over the states `0..n`.
pub open spec fn bits(s: Set<int>, n: nat) -> Seq<bool> {
    Seq::new(n, |i: int| s.contains(i))
}

/// Every vector of `n` booleans.
pub open spec fn all_bits(n: nat) -> Set<Seq<bool>> {
    Set::new(|s: Seq<bool>| s.len() == n)
}

proof fn lemma_all_bits(n: nat)
    ensures
        all_bits(n).finite(),
        forall|s: Seq<bool>| s.len() == n ==> #[trigger] all_bits(n).contains(s),
    decreases n,
{
    if n == 0 {
        assert forall|s: Seq<bool>| #[trigger] all_bits(n).contains(s) <==> set![Seq::<bool>::empty()].contains(s) by {
            if s.len() == 0 {
                assert(s =~= Seq::<bool>::empty());
            }
        }
        assert(all_bits(n) =~= set![Seq::<bool>::empty()]);
    } else {
        let prev = all_bits((n - 1) as nat);
        lemma_all_bits((n - 1) as nat);
        let f = |s: Seq<bool>| s.push(false);
        let g = |s: Seq<bool>| s.push(true);
        prev.lemma_map_finite(f);
        prev.lemma_map_finite(g);
        vstd::set_lib::lemma_set_union_finite_iff(prev.map(f), prev.map(g));
        assert forall|s: Seq<bool>| #[trigger] all_bits(n).contains(s) <==> prev.map(f).union(prev.map(g)).contains(s) by {
            if s.len() == n {
                let t = s.drop_last();
                assert(prev.contains(t));
                if s.last() {
                    assert(s =~= g(t));
                    assert(prev.map(g).contains(g(t)));
                } else {
                    assert(s =~= f(t));
                    assert(prev.map(f).contains(f(t)));
                }
            }
            if prev.map(f).contains(s) {
                let t = choose|t: Seq<bool>| prev.contains(t) && f(t) == s;
            }
            if prev.map(g).contains(s) {
                let t = choose|t: Seq<bool>| prev.contains(t) && g(t) == s;
            }
        }
        assert(all_bits(n) =~= prev.map(f).union(prev.map(g)));
    }
}

/// Distinct vectors of `n` booleans number at most `all_bits(n).len()`.
proof fn lemma_distinct_bits_bounded(v: Seq<Seq<bool>>, n: nat)
    requires
        forall|i: int| 0 <= i < v.len() ==> (#[trigger] v[i]).len() == n,
        v.no_duplicates(),
    ensures
        v.len() <= all_bits(n).len(),
{
    lemma_all_bits(n);
    v.unique_seq_to_set();
    assert forall|s: Seq<bool>| v.to_set().contains(s) implies all_bits(n).contains(s) by {
        let i = choose|i: int| 0 <= i < v.len() && v[i] == s;
        assert(v[i].len() == n);
    }
    lemma_len_subset(v.to_set(), all_bits(n));
}

/// Two sets of states below `n` with the same characteristic vector are equal.
proof fn lemma_bits_injective(a: Set<int>, b: Set<int>, n: nat)
    requires
        forall|i: int| a.contains(i) ==> 0 <= i < n,
        forall|i: int| b.contains(i) ==> 0 <= i < n,
        bits(a, n) == bits(b, n),
    ensures
        a == b,
{
    assert forall|i: int| a.contains(i) <==> b.contains(i) by {
        if 0 <= i < n {
            assert(bits(a, n)[i] == a.contains(i));
            assert(bits(b, n)[i] == b.contains(i));
            assert(bits(a, n)[i] == bits(b, n)[i]);
        }
    }
    assert(a =~= b);
}

proof fn lemma_empty_run(nfa: NFA, w: Seq<char>)
    ensures
        nfa_run(nfa, Set::empty(), w) == Set::<int>::empty(),
    decreases w.len(),
{
    if w.len() > 0 {
        assert(move_set(nfa, Set::empty(), w[0]) =~= Set::empty());
        assert(eps_closure(nfa, Set::empty()) =~= Set::empty());
        lemma_empty_run(nfa, w.drop_first());
    }
}

/// Each DFA state `k` stands for the set of NFA states `g[k]`: every edge leads to the
/// set that one step of the NFA reaches, and every symbol with a non-empty step has an
/// edge.
pub open spec fn simulates(nfa: NFA, d: DFA, g: Seq<Set<int>>) -> bool {
    &&& d.wf()
    &&& g.len() == d.len()
    &&& forall|k: int, t: int|
        0 <= k < d.len() && 0 <= t < d.n_trans(k) ==> g[(#[trigger] d.trans(k, t)).1 as int] == nfa_step(
            nfa,
            g[k],
            d.trans(k, t).0,
        )
    &&& forall|k: int, a: char|
        0 <= k < d.len() && !(#[trigger] nfa_step(nfa, g[k], a)).is_empty() ==> exists|t: int|
            0 <= t < d.n_trans(k) && (#[trigger] d.trans(k, t)).0 == a
}

proof fn lemma_simulated_run(nfa: NFA, d: DFA, g: Seq<Set<int>>, k: int, w: Seq<char>)
    requires
        simulates(nfa, d, g),
        0 <= k < d.len(),
    ensures
        match dfa_run(d, k, w) {
            Some(q) => 0 <= q < d.len() && g[q] == nfa_run(nfa, g[k], w),
            None => nfa_run(nfa, g[k], w) == Set::<int>::empty(),
        },
    decreases w.len(),
{
    if w.len() > 0 {
        let a = w[0];
        let step = nfa_step(nfa, g[k], a);
        if exists|t: int| 0 <= t < d.n_trans(k) && (#[trigger] d.trans(k, t)).0 == a {
            let t = choose|t: int| 0 <= t < d.n_trans(k) && (#[trigger] d.trans(k, t)).0 == a;
            lemma_next_at(d, k, t);
            let p = d.trans(k, t).1 as int;
            assert(g[p] == step);
            lemma_simulated_run(nfa, d, g, p, w.drop_first());
        } else {
            assert(step.is_empty());
            assert(step =~= Set::empty());
            lemma_empty_run(nfa, w.drop_first());
        }
    }
}

/// A DFA that simulates an NFA from its initial set accepts the same language.
proof fn lemma_simulation_language(nfa: NFA, d: DFA, g: Seq<Set<int>>)
    requires
        simulates(nfa, d, g),
        g[d.start_state as int] == nfa_initial(nfa),
        forall|k: int| 0 <= k < d.len() ==> (d.is_accept(k) <==> has_accepting(nfa, #[trigger] g[k])),
    ensures
        forall|w: Seq<char>| dfa_accepts(d, w) == nfa_accepts(nfa, w),
{
    assert forall|w: Seq<char>| dfa_accepts(d, w) == nfa_accepts(nfa, w) by {
        lemma_simulated_run(nfa, d, g, d.start_state as int, w);
    }
}

/// The characteristic vector of the states in `v`.
fn to_bits(v: &Vec<usize>, n: usize) -> (r: Vec<bool>)
    requires
        forall|k: int| 0 <= k < v@.len() ==> v@[k] < n,
    ensures
        r@ == bits(ids(v@), n as nat),
{
    let mut r = falses(n);
    let mut p: usize = 0;
    assert(ids(v@.subrange(0, 0)) =~= Set::empty());
    assert(r@ =~= bits(Set::empty(), n as nat));
    while p < v.len()
        invariant
            p <= v@.len(),
            forall|k: int| 0 <= k < v@.len() ==> v@[k] < n,
            r@ == bits(ids(v@.subrange(0, p as int)), n as nat),
        decreases v.len() - p,
    {
        proof {
            assert(v@.subrange(0, p + 1) =~= v@.subrange(0, p as int).push(v@[p as int]));
            lemma_ids_push(v@.subrange(0, p as int), v@[p as int]);
        }
        r.set(v[p], true);
        p += 1;
        assert(r@ =~= bits(ids(v@.subrange(0, p as int)), n as nat));
    }
    assert(v@.subrange(0, p as int) =~= v@);
    r
}

fn same_bits(a: &Vec<bool>, b: &Vec<bool>) -> (r: bool)
    ensures
        r == (a@ == b@),
{
    if a.len() != b.len() {
        return false;
    }
    let mut i: usize = 0;
    while i < a.len()
        invariant
            a@.len() == b@.len(),
            i <= a@.len(),
            forall|j: int| 0 <= j < i ==> a@[j] == b@[j],
        decreases a.len() - i,
    {
        if a[i] != b[i] {
            return false;
        }
        i += 1;
    }
    assert(a@ =~= b@);
    true
}

fn find_bits(sets: &Vec<Vec<bool>>, b: &Vec<bool>) -> (r: Option<usize>)
    ensures
        match r {
            Some(k) => k < sets@.len() && sets@[k as int]@ == b@,
            None => forall|k: int| 0 <= k < sets@.len() ==> (#[trigger] sets@[k])@ != b@,
        },
{
    let mut k: usize = 0;
    while k < sets.len()
        invariant
            k <= sets@.len(),
            forall|j: int| 0 <= j < k ==> (#[trigger] sets@[j])@ != b@,
        decreases sets.len() - k,
    {
        if same_bits(&sets[k], b) {
            return Some(k);
        }
        k += 1;
    }
    None
}


/// A symbol with a non-empty step labels some edge.
proof fn lemma_step_label(nfa: NFA, s: Set<int>, a: char)
    requires
        !nfa_step(nfa, s, a).is_empty(),
    ensures
        is_label(nfa, a),
{
    let m = move_set(nfa, s, a);
    if m.is_empty() {
        assert(m =~= Set::empty());
        assert(eps_closure(nfa, m) =~= Set::empty());
    } else {
        let j = choose|j: int| m.contains(j);
        let (i, k) = choose|i: int, k: int|
            s.contains(i) && 0 <= i < nfa.len() && 0 <= k < nfa.n_edges(i) && (#[trigger] nfa.edge(i, k)).symbol
                == Some(a) && nfa.edge(i, k).to_state == j;
    }
}

impl NFA {
    /// The subset construction: a DFA whose states are the sets of NFA states reached
    /// by the same input, discovered depth first from the epsilon closure of the start
    /// state. A symbol whose step reaches no state gets no edge.
    #[verifier::rlimit(50)]
    pub fn to_dfa(&self) -> (r: DFA)
        requires
            self.wf(),
        ensures
            r.wf(),
            r.start_state == 0,
            forall|w: Seq<char>| dfa_accepts(r, w) == nfa_accepts(*self, w),
            edges_sorted(r),
            r.accept_states@.no_duplicates(),
    {
        let n = self.states.len();
        let alpha = self.alphabet();
        let mut start: Vec<usize> = Vec::new();
        start.push(self.start_state);
        proof {
            lemma_ids_push(Seq::empty(), self.start_state);
            assert(ids(Seq::<usize>::empty()) =~= Set::empty());
            assert(start@ == Seq::<usize>::empty().push(self.start_state));
            assert(ids(start@) =~= set![self.start_state as int]);
            lemma_closure_closed(*self, set![self.start_state as int]);
            assert(nfa_initial(*self).contains(self.start_state as int));
        }
        let init = self.epsilon_closure(start);
        let mut dfa = DFA::new();
        dfa.states.push(DFAState { id: 0, transitions: Vec::new() });
        let acc0 = self.any_accepting(&init);
        if acc0 {
            dfa.accept_states.push(0);
        }
        proof {
            if acc0 {
                assert(dfa.accept_states@[0] == 0);
            }
            assert(dfa.is_accept(0) == acc0);
        }
        let mut sets: Vec<Vec<bool>> = Vec::new();
        sets.push(to_bits(&init, n));
        let ghost mut g: Seq<Set<int>> = seq![ids(init@)];
        let mut members: Vec<Vec<usize>> = Vec::new();
        members.push(init);
        let mut work: Vec<usize> = Vec::new();
        work.push(0);
        proof {
            assert(work@[0] == 0);
            assert(ids(work@).contains(0));
            lemma_all_bits(n as nat);
            lemma_distinct_bits_bounded(sets@.map_values(|v: Vec<bool>| v@), n as nat);
        }
        while work.len() > 0
            invariant
                self.wf(),
                n == self.len(),
                forall|i: int, j: int| 0 <= i < j < alpha@.len() ==> alpha@[i] < alpha@[j],
                forall|c: char| alpha@.contains(c) <==> is_label(*self, c),
                sets@.len() == members@.len(),
                g.len() == sets@.len(),
                dfa.len() == sets@.len(),
                sets@.len() >= 1,
                dfa.start_state == 0,
                forall|k: int| 0 <= k < g.len() ==> #[trigger] g[k] == ids(members@[k]@),
                forall|k: int, i: int| 0 <= k < g.len() && 0 <= i < members@[k]@.len() ==> #[trigger] members@[k]@[i] < n,
                forall|k: int| 0 <= k < g.len() ==> (#[trigger] sets@[k])@ == bits(g[k], n as nat),
                forall|k1: int, k2: int| 0 <= k1 < g.len() && 0 <= k2 < g.len() && k1 != k2 ==> (#[trigger] sets@[k1])@ != (#[trigger] sets@[k2])@,
                g[0] == nfa_initial(*self),
                forall|k: int| 0 <= k < dfa.len() ==> (#[trigger] dfa.states@[k]).id == k,
                forall|k: int, t: int| 0 <= k < dfa.len() && 0 <= t < dfa.n_trans(k) ==> (#[trigger] dfa.trans(k, t)).1 < dfa.len()
                    && g[dfa.trans(k, t).1 as int] == nfa_step(*self, g[k], dfa.trans(k, t).0),
                dfa.deterministic(),
                edges_sorted(dfa),
                forall|k: int| 0 <= k < dfa.accept_states@.len() ==> #[trigger] dfa.accept_states@[k] < dfa.len(),
                dfa.accept_states@.no_duplicates(),
                forall|k: int| 0 <= k < dfa.len() ==> (dfa.is_accept(k) <==> has_accepting(*self, #[trigger] g[k])),
                forall|i: int| 0 <= i < work@.len() ==> #[trigger] work@[i] < dfa.len(),
                work@.no_duplicates(),
                forall|k: int| 0 <= k < dfa.len() && ids(work@).contains(k) ==> #[trigger] dfa.n_trans(k) == 0,
                forall|k: int, a: char| 0 <= k < dfa.len() && !ids(work@).contains(k) && !(#[trigger] nfa_step(*self, g[k], a)).is_empty()
                    ==> exists|t: int| 0 <= t < dfa.n_trans(k) && (#[trigger] dfa.trans(k, t)).0 == a,
                all_bits(n as nat).finite(),
                sets@.len() <= all_bits(n as nat).len(),
            decreases all_bits(n as nat).len() - sets@.len(), work@.len(),
        {
            let ghost work_before = work@;
            let cur = work.pop().unwrap();
            let ghost m0 = sets@.len();
            let ghost w0 = work@.len();
            proof {
                assert(work_before == work@.push(cur));
                assert(work_before[work_before.len() - 1] == cur);
                assert(!ids(work@).contains(cur as int)) by {
                    if ids(work@).contains(cur as int) {
                        let i = choose|i: int| 0 <= i < work@.len() && work@[i] == cur;
                        assert(work_before[i] == work_before[work_before.len() - 1]);
                    }
                }
                assert forall|k: int| #[trigger] ids(work@).contains(k) implies ids(work_before).contains(k) by {
                    let i = choose|i: int| 0 <= i < work@.len() && work@[i] == k;
                    assert(work_before[i] == k);
                }
                assert(ids(work_before).contains(cur as int)) by {
                    assert(work_before[work_before.len() - 1] == cur);
                }
                assert(dfa.n_trans(cur as int) == 0);
                assert(work@.no_duplicates()) by {
                    assert forall|i: int, k: int| 0 <= i < work@.len() && 0 <= k < work@.len() && i != k implies work@[i] != work@[k] by {
                        assert(work_before[i] != work_before[k]);
                    }
                }
            }
            let mut j: usize = 0;
            while j < alpha.len()
                invariant
                    self.wf(),
                    n == self.len(),
                    forall|i: int, j: int| 0 <= i < j < alpha@.len() ==> alpha@[i] < alpha@[j],
                    forall|c: char| alpha@.contains(c) <==> is_label(*self, c),
                    j <= alpha@.len(),
                    sets@.len() == members@.len(),
                    g.len() == sets@.len(),
                    dfa.len() == sets@.len(),
                    sets@.len() >= m0,
                    sets@.len() == m0 ==> work@.len() == w0,
                    cur < dfa.len(),
                    dfa.start_state == 0,
                    forall|k: int| 0 <= k < g.len() ==> #[trigger] g[k] == ids(members@[k]@),
                    forall|k: int, i: int| 0 <= k < g.len() && 0 <= i < members@[k]@.len() ==> #[trigger] members@[k]@[i] < n,
                    forall|k: int| 0 <= k < g.len() ==> (#[trigger] sets@[k])@ == bits(g[k], n as nat),
                    forall|k1: int, k2: int| 0 <= k1 < g.len() && 0 <= k2 < g.len() && k1 != k2 ==> (#[trigger] sets@[k1])@ != (#[trigger] sets@[k2])@,
                    g[0] == nfa_initial(*self),
                    forall|k: int| 0 <= k < dfa.len() ==> (#[trigger] dfa.states@[k]).id == k,
                    forall|k: int, t: int| 0 <= k < dfa.len() && 0 <= t < dfa.n_trans(k) ==> (#[trigger] dfa.trans(k, t)).1 < dfa.len()
                        && g[dfa.trans(k, t).1 as int] == nfa_step(*self, g[k], dfa.trans(k, t).0),
                    dfa.deterministic(),
                    edges_sorted(dfa),
                    forall|k: int| 0 <= k < dfa.accept_states@.len() ==> #[trigger] dfa.accept_states@[k] < dfa.len(),
                    dfa.accept_states@.no_duplicates(),
                dfa.accept_states@.no_duplicates(),
                    forall|k: int| 0 <= k < dfa.len() ==> (dfa.is_accept(k) <==> has_accepting(*self, #[trigger] g[k])),
                    forall|i: int| 0 <= i < work@.len() ==> #[trigger] work@[i] < dfa.len(),
                    work@.no_duplicates(),
                    !ids(work@).contains(cur as int),
                    forall|k: int| 0 <= k < dfa.len() && ids(work@).contains(k) ==> #[trigger] dfa.n_trans(k) == 0,
                    forall|k: int, a: char| 0 <= k < dfa.len() && k != cur && !ids(work@).contains(k) && !(#[trigger] nfa_step(*self, g[k], a)).is_empty()
                        ==> exists|t: int| 0 <= t < dfa.n_trans(k) && (#[trigger] dfa.trans(k, t)).0 == a,
                    forall|t: int| 0 <= t < dfa.n_trans(cur as int) ==> exists|jj: int| 0 <= jj < j && #[trigger] alpha@[jj] == (#[trigger] dfa.trans(cur as int, t)).0,
                    forall|jj: int| 0 <= jj < j && !(#[trigger] nfa_step(*self, g[cur as int], alpha@[jj])).is_empty()
                        ==> exists|t: int| 0 <= t < dfa.n_trans(cur as int) && (#[trigger] dfa.trans(cur as int, t)).0 == alpha@[jj],
                    all_bits(n as nat).finite(),
                    sets@.len() <= all_bits(n as nat).len(),
                decreases alpha.len() - j,
            {
                let a = alpha[j];
                let ghost d0 = dfa;
                let ghost work0 = work@;
                let ghost g0 = g;
                let next = self.move_and_closure(&members[cur], a);
                let ghost gn = ids(next@);
                if next.len() > 0 {
                    assert(gn.contains(next@[0] as int));
                    let b = to_bits(&next, n);
                    let target = match find_bits(&sets, &b) {
                        Some(k) => {
                            proof {
                                lemma_bits_injective(g[k as int], gn, n as nat);
                            }
                            k
                        },
                        None => {
                            let id = sets.len();
                            let acc = self.any_accepting(&next);
                            proof {
                                let old_sets = sets@.map_values(|v: Vec<bool>| v@);
                                let new_sets = old_sets.push(b@);
                                assert forall|i: int, k: int| 0 <= i < new_sets.len() && 0 <= k < new_sets.len() && i != k implies new_sets[i] != new_sets[k] by {
                                    if i < old_sets.len() && k < old_sets.len() {
                                        assert(sets@[i]@ != sets@[k]@);
                                    } else if i < old_sets.len() {
                                        assert(sets@[i]@ != b@);
                                    } else {
                                        assert(sets@[k]@ != b@);
                                    }
                                }
                                assert forall|i: int| 0 <= i < new_sets.len() implies (#[trigger] new_sets[i]).len() == n by {
                                    if i < old_sets.len() {
                                        assert(sets@[i]@ == bits(g[i], n as nat));
                                    }
                                }
                                lemma_distinct_bits_bounded(new_sets, n as nat);
                            }
                            sets.push(b);
                            members.push(next);
                            proof {
                                g = g.push(gn);
                            }
                            dfa.states.push(DFAState { id, transitions: Vec::new() });
                            if acc {
                                let ghost acc0 = dfa.accept_states@;
                                dfa.accept_states.push(id);
                                proof {
                                    assert forall|a: int, b: int| 0 <= a < dfa.accept_states@.len() && 0 <= b < dfa.accept_states@.len() && a != b
                                        implies dfa.accept_states@[a] != dfa.accept_states@[b] by {
                                        if a < acc0.len() && b < acc0.len() {
                                            assert(acc0[a] != acc0[b]);
                                        } else if a < acc0.len() {
                                            assert(acc0[a] < id);
                                        } else {
                                            assert(acc0[b] < id);
                                        }
                                    }
                                }
                            }
                            work.push(id);
                            proof {
                                assert(work@[work@.len() - 1] == id);
                                assert(ids(work@).contains(id as int));
                                assert forall|k: int| 0 <= k < dfa.len() implies (dfa.is_accept(k) <==> has_accepting(*self, #[trigger] g[k])) by {
                                    if k < id {
                                        assert(g[k] == g0[k]);
                                        if d0.is_accept(k) {
                                            let i = choose|i: int| 0 <= i < d0.accept_states@.len() && d0.accept_states@[i] == k;
                                            assert(dfa.accept_states@[i] == k);
                                        }
                                        if dfa.is_accept(k) {
                                            let i = choose|i: int| 0 <= i < dfa.accept_states@.len() && dfa.accept_states@[i] == k;
                                            if i < d0.accept_states@.len() {
                                                assert(d0.accept_states@[i] == k);
                                            }
                                        }
                                    } else {
                                        if acc {
                                            assert(dfa.accept_states@[dfa.accept_states@.len() - 1] == id);
                                        } else {
                                            if dfa.is_accept(k) {
                                                let i = choose|i: int| 0 <= i < dfa.accept_states@.len() && dfa.accept_states@[i] == k;
                                                assert(d0.accept_states@[i] < d0.len());
                                            }
                                        }
                                    }
                                }
                                assert(work@.no_duplicates()) by {
                                    assert forall|i: int, k: int| 0 <= i < work@.len() && 0 <= k < work@.len() && i != k implies work@[i] != work@[k] by {
                                        if i < work@.len() - 1 && k < work@.len() - 1 {
                                        } else if i < work@.len() - 1 {
                                            assert(work@[i] < id);
                                        } else {
                                            assert(work@[k] < id);
                                        }
                                    }
                                }
                                assert forall|k: int| #[trigger] ids(work@).contains(k) && k != id implies ids(work0).contains(k) by {
                                    let i = choose|i: int| 0 <= i < work@.len() && work@[i] == k;
                                    assert(work0[i] == k);
                                }
                                assert(!ids(work@).contains(cur as int));
                            }
                            id
                        },
                    };
                    let ghost before = dfa;
                    dfa.states[cur].transitions.push((a, target));
                    proof {
                        assert(g[target as int] == gn);
                        assert forall|t: int| 0 <= t < dfa.n_trans(cur as int) - 1 implies (#[trigger] dfa.trans(cur as int, t)).0 != a by {
                            assert(dfa.trans(cur as int, t) == before.trans(cur as int, t));
                            let jj = choose|jj: int| 0 <= jj < j && #[trigger] alpha@[jj] == before.trans(cur as int, t).0;
                        }
                        assert(dfa.trans(cur as int, dfa.n_trans(cur as int) - 1) == (a, target));
                        assert forall|q: int, t1: int, t2: int| 0 <= q < dfa.len() && 0 <= t1 < t2 < dfa.n_trans(q)
                            implies (#[trigger] dfa.trans(q, t1)).0 < (#[trigger] dfa.trans(q, t2)).0 by {
                            if q == cur {
                                assert(dfa.trans(q, t1) == before.trans(q, t1));
                                if t2 < dfa.n_trans(q) - 1 {
                                    assert(dfa.trans(q, t2) == before.trans(q, t2));
                                } else {
                                    let jj = choose|jj: int| 0 <= jj < j && #[trigger] alpha@[jj] == before.trans(cur as int, t1).0;
                                }
                            } else {
                                assert(dfa.states@[q] == before.states@[q]);
                            }
                        }
                    }
                } else {
                    assert(gn =~= Set::empty());
                }
                proof {
                    assert(g[cur as int] == g0[cur as int]);
                    assert(gn == nfa_step(*self, g[cur as int], a));
                    assert forall|k: int| ids(work0).contains(k) implies ids(work@).contains(k) by {
                        let i = choose|i: int| 0 <= i < work0.len() && work0[i] == k;
                        assert(work@[i] == work0[i]);
                    }
                    assert forall|jj: int| 0 <= jj < j + 1 && !(#[trigger] nfa_step(*self, g[cur as int], alpha@[jj])).is_empty()
                        implies exists|t: int| 0 <= t < dfa.n_trans(cur as int) && (#[trigger] dfa.trans(cur as int, t)).0 == alpha@[jj] by {
                        if jj < j {
                            let t = choose|t: int| 0 <= t < d0.n_trans(cur as int) && (#[trigger] d0.trans(cur as int, t)).0 == alpha@[jj];
                            assert(dfa.trans(cur as int, t) == d0.trans(cur as int, t));
                        } else {
                            assert(alpha@[jj] == a);
                            assert(!gn.is_empty());
                            assert(dfa.trans(cur as int, dfa.n_trans(cur as int) - 1).0 == a);
                        }
                    }
                    assert forall|k: int, c: char| 0 <= k < dfa.len() && k != cur && !ids(work@).contains(k) && !(#[trigger] nfa_step(*self, g[k], c)).is_empty()
                        implies exists|t: int| 0 <= t < dfa.n_trans(k) && (#[trigger] dfa.trans(k, t)).0 == c by {
                        assert(k < d0.len());
                        assert(!ids(work0).contains(k));
                        assert(g[k] == g0[k]);
                        let t = choose|t: int| 0 <= t < d0.n_trans(k) && (#[trigger] d0.trans(k, t)).0 == c;
                        assert(dfa.states@[k] == d0.states@[k]);
                        assert(dfa.trans(k, t) == d0.trans(k, t));
                    }
                }
                j += 1;
            }
            proof {
                assert forall|a: char| !(#[trigger] nfa_step(*self, g[cur as int], a)).is_empty() implies exists|t: int| 0 <= t < dfa.n_trans(cur as int) && (#[trigger] dfa.trans(cur as int, t)).0 == a by {
                    lemma_step_label(*self, g[cur as int], a);
                    let jj = choose|jj: int| 0 <= jj < alpha@.len() && alpha@[jj] == a;
                    assert(!nfa_step(*self, g[cur as int], alpha@[jj]).is_empty());
                }
            }
        }
        proof {
            assert(simulates(*self, dfa, g));
            lemma_simulation_language(*self, dfa, g);
        }
        dfa
    }
}

} // verus!
