use vstd::prelude::*;
use crate::dfa::{DFA, DFAState, dfa_accepts, dfa_next, dfa_run, edges_sorted, lemma_next_at, lemma_run_push, reach_set, reachable};
use crate::nfa::insert_sorted;
use crate::util::{falses, ids, lemma_ids_push, lemma_distinct_bounded};

verus! {

/// `h` maps the states of `d` in `s` onto states of `e` so that the start, acceptance
/// and every edge agree; `s` holds the start and is closed under edges.
pub open spec fn is_morphism(d: DFA, e: DFA, s: Set<int>, h: spec_fn(int) -> int) -> bool {
    &&& s.contains(d.start_state as int)
    &&& e.start_state as int == h(d.start_state as int)
    &&& forall|x: int| #[trigger] s.contains(x) ==> 0 <= x < d.len() && 0 <= h(x) < e.len() && (e.is_accept(h(x)) == d.is_accept(x))
    &&& forall|x: int, a: char| #[trigger] s.contains(x) ==> match #[trigger] dfa_next(d, x, a) {
        None => dfa_next(e, h(x), a) is None,
        Some(y) => s.contains(y) && dfa_next(e, h(x), a) == Some(h(y)),
    }
}

proof fn lemma_morphism_run(d: DFA, e: DFA, s: Set<int>, h: spec_fn(int) -> int, x: int, w: Seq<char>)
    requires
        is_morphism(d, e, s, h),
        s.contains(x),
    ensures
        match dfa_run(d, x, w) {
            None => dfa_run(e, h(x), w) is None,
            Some(y) => s.contains(y) && dfa_run(e, h(x), w) == Some(h(y)),
        },
    decreases w.len(),
{
    if w.len() > 0 {
        let a = w[0];
        match dfa_next(d, x, a) {
            None => {},
            Some(y) => {
                lemma_morphism_run(d, e, s, h, y, w.drop_first());
            },
        }
    }
}

/// A morphism keeps the language.
pub proof fn lemma_morphism_language(d: DFA, e: DFA, s: Set<int>, h: spec_fn(int) -> int)
    requires
        is_morphism(d, e, s, h),
    ensures
        forall|w: Seq<char>| dfa_accepts(e, w) == dfa_accepts(d, w),
{
    assert forall|w: Seq<char>| dfa_accepts(e, w) == dfa_accepts(d, w) by {
        lemma_morphism_run(d, e, s, h, d.start_state as int, w);
    }
}

/// `h` numbers the reachable states of `d` in their order as the states of `e`, and
/// carries the start, acceptance and every edge.
pub open spec fn renumbering(d: DFA, e: DFA, h: spec_fn(int) -> int) -> bool {
    &&& is_morphism(d, e, reach_set(d), h)
    &&& forall|x: int, y: int| #[trigger] reach_set(d).contains(x) && #[trigger] reach_set(d).contains(y) && x < y ==> h(x) < h(y)
    &&& forall|q: int| 0 <= q < e.len() ==> #[trigger] hit(d, h, q)
}

/// Some reachable state of `d` is numbered `q`.
pub open spec fn hit(d: DFA, h: spec_fn(int) -> int, q: int) -> bool {
    exists|x: int| #[trigger] reach_set(d).contains(x) && h(x) == q
}

fn has_id(v: &Vec<usize>, x: usize) -> (r: bool)
    ensures
        r == v@.contains(x),
{
    let mut k: usize = 0;
    while k < v.len()
        invariant
            k <= v@.len(),
            forall|j: int| 0 <= j < k ==> v@[j] != x,
        decreases v.len() - k,
    {
        if v[k] == x {
            return true;
        }
        k += 1;
    }
    false
}

/// With a deterministic edge list, the step on `a` is found by the first index that
/// carries `a`, or is missing when none does.
proof fn lemma_next_none(d: DFA, q: int, a: char)
    requires
        forall|k: int| 0 <= k < d.n_trans(q) ==> (#[trigger] d.trans(q, k)).0 != a,
    ensures
        dfa_next(d, q, a) is None,
{
}

impl DFA {
    /// Drops every state that the start state cannot reach and numbers the rest
    /// contiguously, keeping their order.
    pub(crate) fn remove_unreachable_states(&mut self)
        requires
            old(self).wf(),
        ensures
            final(self).wf(),
            final(self).len() <= old(self).len(),
            forall|w: Seq<char>| dfa_accepts(*final(self), w) == dfa_accepts(*old(self), w),
            forall|q: int| 0 <= q < final(self).len() ==> #[trigger] reachable(*final(self), q),
            (forall|x: int| 0 <= x < old(self).len() ==> #[trigger] reachable(*old(self), x)) ==> final(self).len() == old(self).len()
                && is_morphism(*old(self), *final(self), all_states(*old(self)), |x: int| x),
            reach_set(*old(self)).finite(),
            final(self).len() == reach_set(*old(self)).len(),
            final(self).accept_states@.no_duplicates(),
            exists|h: spec_fn(int) -> int| #[trigger] renumbering(*old(self), *final(self), h),
    {
        let m = self.states.len();
        let mut seen = falses(m);
        let mut stack: Vec<usize> = Vec::new();
        seen.set(self.start_state, true);
        stack.push(self.start_state);
        let ghost mut count: nat = 1;
        let ghost mut path: Seq<Seq<char>> = Seq::new(m as nat, |x: int| Seq::<char>::empty());
        proof {
            assert(dfa_run(*self, self.start_state as int, path[self.start_state as int]) == Some(self.start_state as int));
        }
        proof {
            assert(stack@[0] == self.start_state);
            assert(ids(stack@).contains(self.start_state as int));
            assert(Set::new(|x: int| 0 <= x < m && seen@[x]) =~= set![self.start_state as int]);
        }
        // depth-first search
        while stack.len() > 0
            invariant
                self.wf(),
                m == self.len(),
                seen@.len() == m,
                seen@[self.start_state as int],
                forall|k: int| 0 <= k < stack@.len() ==> #[trigger] stack@[k] < m && seen@[stack@[k] as int],
                forall|x: int, k: int| 0 <= x < m && seen@[x] && !ids(stack@).contains(x) && 0 <= k < self.n_trans(x)
                    ==> seen@[(#[trigger] self.trans(x, k)).1 as int],
                count <= m,
                count == Set::new(|x: int| 0 <= x < m && seen@[x]).len(),
                Set::new(|x: int| 0 <= x < m && seen@[x]).finite(),
                path.len() == m,
                forall|x: int| 0 <= x < m && seen@[x] ==> dfa_run(*self, self.start_state as int, #[trigger] path[x]) == Some(x),
            decreases m - count, stack@.len(),
        {
            let ghost full = stack@;
            let x = stack.pop().unwrap();
            proof {
                assert(full == stack@.push(x));
                assert forall|y: int| y != x && #[trigger] ids(full).contains(y) implies ids(stack@).contains(y) by {
                    let i = choose|i: int| 0 <= i < full.len() && full[i] == y;
                    assert(i != full.len() - 1);
                    assert(stack@[i] == y);
                }
                assert(full[full.len() - 1] == x);
            }
            let ts = &self.states[x].transitions;
            let mut k: usize = 0;
            let ghost c0 = count;
            let ghost st0 = stack@;
            while k < ts.len()
                invariant
                    self.wf(),
                    m == self.len(),
                    x < m,
                    seen@[x as int],
                    ts == &self.states@[x as int].transitions,
                    k <= ts@.len(),
                    seen@.len() == m,
                    seen@[self.start_state as int],
                    forall|j: int| 0 <= j < stack@.len() ==> #[trigger] stack@[j] < m && seen@[stack@[j] as int],
                    ids(st0).subset_of(ids(stack@)),
                    forall|y: int, j: int| 0 <= y < m && y != x && seen@[y] && !ids(stack@).contains(y) && 0 <= j < self.n_trans(y)
                        ==> seen@[(#[trigger] self.trans(y, j)).1 as int],
                    forall|j: int| 0 <= j < k ==> seen@[(#[trigger] self.trans(x as int, j)).1 as int],
                    count <= m,
                    count >= c0,
                    count == c0 ==> stack@.len() == st0.len(),
                    count == Set::new(|y: int| 0 <= y < m && seen@[y]).len(),
                    Set::new(|y: int| 0 <= y < m && seen@[y]).finite(),
                    path.len() == m,
                    forall|y: int| 0 <= y < m && seen@[y] ==> dfa_run(*self, self.start_state as int, #[trigger] path[y]) == Some(y),
                decreases ts.len() - k,
            {
                let t = ts[k].1;
                assert(t == self.trans(x as int, k as int).1);
                if !seen[t] {
                    let ghost before = Set::new(|y: int| 0 <= y < m && seen@[y]);
                    seen.set(t, true);
                    proof {
                        let after = Set::new(|y: int| 0 <= y < m && seen@[y]);
                        assert(after =~= before.insert(t as int));
                        count = count + 1;
                        vstd::set_lib::lemma_int_range(0, m as int);
                        assert(after.subset_of(vstd::set_lib::set_int_range(0, m as int)));
                        vstd::set_lib::lemma_len_subset(after, vstd::set_lib::set_int_range(0, m as int));
                        lemma_ids_push(stack@, t);
                        let a = self.trans(x as int, k as int).0;
                        let px = path[x as int];
                        lemma_run_push(*self, self.start_state as int, px, a);
                        lemma_next_at(*self, x as int, k as int);
                        path = path.update(t as int, px.push(a));
                    }
                    stack.push(t);
                }
                k += 1;
            }
        }
        proof {
            assert(ids(stack@) =~= Set::empty());
        }
        let ghost closed = Set::new(|x: int| 0 <= x < m && seen@[x]);
        let ghost all_seen = forall|y: int| 0 <= y < m ==> seen@[y];
        // number the kept states in order
        let mut new_id: Vec<usize> = Vec::new();
        let mut kept: Vec<usize> = Vec::new();
        let mut x: usize = 0;
        while x < m
            invariant
                m == self.len(),
                seen@.len() == m,
                x <= m,
                new_id@.len() == x,
                kept@.len() <= x,
                forall|k: int| 0 <= k < kept@.len() ==> #[trigger] kept@[k] < x && seen@[kept@[k] as int]
                    && new_id@[kept@[k] as int] == k,
                forall|y: int| 0 <= y < x && seen@[y] ==> #[trigger] new_id@[y] < kept@.len() && kept@[new_id@[y] as int] == y,
                all_seen == forall|y: int| 0 <= y < m ==> seen@[y],
                all_seen ==> kept@.len() == x && forall|y: int| 0 <= y < x ==> #[trigger] new_id@[y] == y,
                forall|y1: int, y2: int| 0 <= y1 < y2 < x && seen@[y1] && seen@[y2] ==> #[trigger] new_id@[y1] < #[trigger] new_id@[y2],
            decreases m - x,
        {
            if seen[x] {
                new_id.push(kept.len());
                kept.push(x);
            } else {
                new_id.push(0);
            }
            x += 1;
        }
        let mut states: Vec<DFAState> = Vec::new();
        let mut k: usize = 0;
        while k < kept.len()
            invariant
                self.wf(),
                m == self.len(),
                seen@.len() == m,
                new_id@.len() == m,
                k <= kept@.len(),
                states@.len() == k,
                forall|j: int| 0 <= j < kept@.len() ==> #[trigger] kept@[j] < m && seen@[kept@[j] as int]
                    && new_id@[kept@[j] as int] == j,
                forall|y: int| 0 <= y < m && seen@[y] ==> #[trigger] new_id@[y] < kept@.len() && kept@[new_id@[y] as int] == y,
                forall|y: int, j: int| 0 <= y < m && seen@[y] && 0 <= j < self.n_trans(y) ==> seen@[(#[trigger] self.trans(y, j)).1 as int],
                forall|j: int| 0 <= j < k ==> (#[trigger] states@[j]).id == j
                    && states@[j].transitions@.len() == self.n_trans(kept@[j] as int)
                    && forall|q: int| 0 <= q < states@[j].transitions@.len() ==> #[trigger] states@[j].transitions@[q]
                        == (self.trans(kept@[j] as int, q).0, new_id@[self.trans(kept@[j] as int, q).1 as int]),
            decreases kept.len() - k,
        {
            let old_id = kept[k];
            let ts = &self.states[old_id].transitions;
            let mut mapped: Vec<(char, usize)> = Vec::new();
            let mut q: usize = 0;
            while q < ts.len()
                invariant
                    self.wf(),
                    m == self.len(),
                    new_id@.len() == m,
                    old_id < m,
                    seen@.len() == m,
                    seen@[old_id as int],
                    ts == &self.states@[old_id as int].transitions,
                    q <= ts@.len(),
                    mapped@.len() == q,
                    forall|p: int| 0 <= p < q ==> #[trigger] mapped@[p] == (self.trans(old_id as int, p).0, new_id@[self.trans(old_id as int, p).1 as int]),
                decreases ts.len() - q,
            {
                let (a, t) = ts[q];
                mapped.push((a, new_id[t]));
                q += 1;
            }
            states.push(DFAState { id: k, transitions: mapped });
            k += 1;
        }
        let mut accept: Vec<usize> = Vec::new();
        let mut p: usize = 0;
        while p < self.accept_states.len()
            invariant
                self.wf(),
                m == self.len(),
                seen@.len() == m,
                new_id@.len() == m,
                p <= self.accept_states@.len(),
                forall|y: int| 0 <= y < m && seen@[y] ==> #[trigger] new_id@[y] < kept@.len() && kept@[new_id@[y] as int] == y,
                forall|j: int| 0 <= j < accept@.len() ==> #[trigger] accept@[j] < kept@.len()
                    && exists|i: int| 0 <= i < p && seen@[self.accept_states@[i] as int] && new_id@[self.accept_states@[i] as int] == accept@[j],
                forall|i: int| 0 <= i < p && seen@[#[trigger] self.accept_states@[i] as int] ==> ids(accept@).contains(new_id@[self.accept_states@[i] as int] as int),
                accept@.no_duplicates(),
            decreases self.accept_states.len() - p,
        {
            let y = self.accept_states[p];
            if seen[y] && !has_id(&accept, new_id[y]) {
                proof { lemma_ids_push(accept@, new_id@[y as int]); }
                accept.push(new_id[y]);
            } else if seen[y] {
                proof {
                    let j = choose|j: int| 0 <= j < accept@.len() && accept@[j] == new_id@[y as int];
                    assert(ids(accept@).contains(new_id@[y as int] as int));
                }
            }
            p += 1;
        }
        let ghost d = *self;
        let start = new_id[self.start_state];
        self.states = states;
        self.accept_states = accept;
        self.start_state = start;
        proof {
            let e = *self;
            let h = |x: int| new_id@[x] as int;
            assert forall|i: int, k1: int, k2: int|
                0 <= i < e.len() && 0 <= k1 < e.n_trans(i) && 0 <= k2 < e.n_trans(i) && k1 != k2
                    implies (#[trigger] e.trans(i, k1)).0 != (#[trigger] e.trans(i, k2)).0 by {
                assert(d.trans(kept@[i] as int, k1).0 != d.trans(kept@[i] as int, k2).0);
            }
            assert(e.wf());
            assert forall|x: int| #[trigger] closed.contains(x) implies 0 <= x < d.len() && 0 <= h(x) < e.len() && (e.is_accept(h(x)) == d.is_accept(x)) by {
                if d.is_accept(x) {
                    let i = choose|i: int| 0 <= i < d.accept_states@.len() && d.accept_states@[i] == x;
                    assert(ids(e.accept_states@).contains(h(x)));
                }
                if e.is_accept(h(x)) {
                    let j = choose|j: int| 0 <= j < e.accept_states@.len() && e.accept_states@[j] == h(x);
                    let i = choose|i: int| 0 <= i < d.accept_states@.len() && seen@[d.accept_states@[i] as int] && new_id@[d.accept_states@[i] as int] == e.accept_states@[j];
                    assert(kept@[new_id@[d.accept_states@[i] as int] as int] == d.accept_states@[i]);
                }
            }
            assert forall|x: int, a: char| #[trigger] closed.contains(x) implies match #[trigger] dfa_next(d, x, a) {
                None => dfa_next(e, h(x), a) is None,
                Some(y) => closed.contains(y) && dfa_next(e, h(x), a) == Some(h(y)),
            } by {
                let hx = h(x);
                assert(kept@[hx] == x);
                if exists|k: int| 0 <= k < d.n_trans(x) && (#[trigger] d.trans(x, k)).0 == a {
                    let k = choose|k: int| 0 <= k < d.n_trans(x) && (#[trigger] d.trans(x, k)).0 == a;
                    lemma_next_at(d, x, k);
                    assert(e.trans(hx, k) == (a, new_id@[d.trans(x, k).1 as int]));
                    lemma_next_at(e, hx, k);
                } else {
                    assert forall|k: int| 0 <= k < e.n_trans(hx) implies (#[trigger] e.trans(hx, k)).0 != a by {
                        assert(e.trans(hx, k).0 == d.trans(x, k).0);
                    }
                    lemma_next_none(e, hx, a);
                }
            }
            lemma_morphism_language(d, e, closed, h);
            assert forall|x: int| closed.contains(x) <==> #[trigger] reach_set(d).contains(x) by {
                if closed.contains(x) {
                    assert(dfa_run(d, d.start_state as int, path[x]) == Some(x));
                    assert(reachable(d, x));
                }
                if reach_set(d).contains(x) {
                    let w = choose|w: Seq<char>| #[trigger] dfa_run(d, d.start_state as int, w) == Some(x);
                    lemma_morphism_run(d, e, closed, h, d.start_state as int, w);
                }
            }
            assert(closed =~= reach_set(d));
            let km = kept@.map_values(|v: usize| v as int);
            assert(km.no_duplicates()) by {
                assert forall|i: int, j: int| 0 <= i < km.len() && 0 <= j < km.len() && i != j implies km[i] != km[j] by {
                    assert(new_id@[kept@[i] as int] == i);
                    assert(new_id@[kept@[j] as int] == j);
                }
            }
            km.unique_seq_to_set();
            assert forall|x: int| km.to_set().contains(x) <==> closed.contains(x) by {
                if km.to_set().contains(x) {
                    let i = choose|i: int| 0 <= i < km.len() && km[i] == x;
                    assert(kept@[i] < m && seen@[kept@[i] as int]);
                }
                if closed.contains(x) {
                    assert(km[new_id@[x] as int] == x);
                }
            }
            assert(km.to_set() =~= closed);
            assert(e.len() == reach_set(d).len());
            assert(renumbering(d, e, h)) by {
                assert forall|x: int, y: int| #[trigger] reach_set(d).contains(x) && #[trigger] reach_set(d).contains(y) && x < y implies h(x) < h(y) by {
                    assert(closed.contains(x) && closed.contains(y));
                }
                assert forall|q: int| 0 <= q < e.len() implies #[trigger] hit(d, h, q) by {
                    let x = kept@[q] as int;
                    assert(closed.contains(x));
                    assert(reach_set(d).contains(x) && h(x) == q);
                }
            }
            if forall|x: int| 0 <= x < d.len() ==> #[trigger] reachable(d, x) {
                assert forall|x: int| 0 <= x < m implies seen@[x] by {
                    assert(reachable(d, x));
                    let w = choose|w: Seq<char>| #[trigger] dfa_run(d, d.start_state as int, w) == Some(x);
                    lemma_morphism_run(d, e, closed, h, d.start_state as int, w);
                }
                assert(all_seen);
                let all = all_states(d);
                assert(all =~= closed);
                assert forall|x: int| #[trigger] all.contains(x) implies h(x) == x by {
                    assert(new_id@[x] == x);
                }
                let id = |x: int| x;
                assert forall|x: int| #[trigger] all.contains(x) implies 0 <= x < d.len() && 0 <= id(x) < e.len() && (e.is_accept(id(x)) == d.is_accept(x)) by {
                    assert(closed.contains(x));
                    assert(h(x) == x);
                }
                assert forall|x: int, a: char| #[trigger] all.contains(x) implies match #[trigger] dfa_next(d, x, a) {
                    None => dfa_next(e, id(x), a) is None,
                    Some(y) => all.contains(y) && dfa_next(e, id(x), a) == Some(id(y)),
                } by {
                    assert(closed.contains(x));
                    assert(h(x) == x);
                    match dfa_next(d, x, a) {
                        None => {},
                        Some(y) => {
                            assert(closed.contains(y));
                            assert(h(y) == y);
                        },
                    }
                }
                assert(h(d.start_state as int) == d.start_state);
                assert(is_morphism(d, e, all, id));
            }
            assert forall|q: int| 0 <= q < e.len() implies #[trigger] reachable(e, q) by {
                let x = kept@[q] as int;
                assert(closed.contains(x));
                assert(h(x) == q);
                lemma_morphism_run(d, e, closed, h, d.start_state as int, path[x]);
                assert(dfa_run(e, e.start_state as int, path[x]) == Some(q));
            }
            assert(kept@.len() <= m) by {
                assert(kept@.no_duplicates()) by {
                    assert forall|i: int, j: int| 0 <= i < kept@.len() && 0 <= j < kept@.len() && i != j implies kept@[i] != kept@[j] by {
                        assert(new_id@[kept@[i] as int] == i);
                        assert(new_id@[kept@[j] as int] == j);
                    }
                }
                lemma_distinct_bounded(kept@, m as int);
            }
        }
    }
}


/// The block of the state that an optional step reaches.
pub open spec fn opt_block(block: Seq<usize>, o: Option<int>) -> Option<usize> {
    match o {
        None => None,
        Some(t) => Some(block[t]),
    }
}

/// The signature of `x`: for each symbol of `alpha`, the block its edge reaches.
pub open spec fn sig(d: DFA, block: Seq<usize>, alpha: Seq<char>, x: int) -> Seq<Option<usize>> {
    Seq::new(alpha.len(), |i: int| opt_block(block, dfa_next(d, x, alpha[i])))
}

/// `x` and `y` differ in acceptance, or some symbol takes them to different blocks
/// (or takes only one of them anywhere).
pub open spec fn separated(d: DFA, block: Seq<usize>, x: int, y: int) -> bool {
    d.is_accept(x) != d.is_accept(y) || exists|a: char|
        opt_block(block, #[trigger] dfa_next(d, x, a)) != opt_block(block, dfa_next(d, y, a))
}

/// `block` maps each of the `m` states to one of the blocks of `rep`, and `rep[b]`
/// is a member of block `b`.
pub open spec fn is_partition(block: Seq<usize>, rep: Seq<usize>, m: int) -> bool {
    &&& block.len() == m
    &&& forall|x: int| 0 <= x < m ==> #[trigger] block[x] < rep.len()
    &&& forall|b: int| 0 <= b < rep.len() ==> #[trigger] rep[b] < m && block[rep[b] as int] == b
}

/// The distinct symbols of the DFA's edges.
pub open spec fn is_dfa_label(d: DFA, a: char) -> bool {
    exists|i: int, k: int| 0 <= i < d.len() && 0 <= k < d.n_trans(i) && (#[trigger] d.trans(i, k)).0 == a
}

impl DFA {
    /// The distinct symbols on the edges, in increasing order.
    fn alphabet(&self) -> (r: Vec<char>)
        ensures
            forall|i: int, j: int| 0 <= i < j < r@.len() ==> r@[i] < r@[j],
            forall|c: char| r@.contains(c) <==> is_dfa_label(*self, c),
    {
        let mut r: Vec<char> = Vec::new();
        let mut p: usize = 0;
        while p < self.states.len()
            invariant
                p <= self.len(),
                forall|i: int, j: int| 0 <= i < j < r@.len() ==> r@[i] < r@[j],
                forall|c: char|
                    r@.contains(c) <==> exists|i: int, k: int|
                        0 <= i < p && 0 <= k < self.n_trans(i) && (#[trigger] self.trans(i, k)).0 == c,
            decreases self.len() - p,
        {
            let ts = &self.states[p].transitions;
            let mut k: usize = 0;
            while k < ts.len()
                invariant
                    p < self.len(),
                    ts == &self.states@[p as int].transitions,
                    k <= ts@.len(),
                    forall|i: int, j: int| 0 <= i < j < r@.len() ==> r@[i] < r@[j],
                    forall|c: char|
                        r@.contains(c) <==> (exists|i: int, j: int|
                            0 <= i < p && 0 <= j < self.n_trans(i) && (#[trigger] self.trans(i, j)).0 == c)
                            || (exists|j: int| 0 <= j < k && (#[trigger] self.trans(p as int, j)).0 == c),
                decreases ts.len() - k,
            {
                let t = ts[k];
                assert(t == self.trans(p as int, k as int));
                insert_sorted(&mut r, t.0);
                k += 1;
            }
            p += 1;
        }
        r
    }

    /// The signature of `x` under `block`.
    fn signature(&self, block: &Vec<usize>, alpha: &Vec<char>, x: usize) -> (r: Vec<Option<usize>>)
        requires
            self.wf(),
            x < self.len(),
            block@.len() == self.len(),
        ensures
            r@ == sig(*self, block@, alpha@, x as int),
    {
        let mut r: Vec<Option<usize>> = Vec::new();
        let mut i: usize = 0;
        while i < alpha.len()
            invariant
                self.wf(),
                x < self.len(),
                block@.len() == self.len(),
                i <= alpha@.len(),
                r@.len() == i,
                forall|j: int| 0 <= j < i ==> #[trigger] r@[j] == opt_block(block@, dfa_next(*self, x as int, alpha@[j])),
            decreases alpha.len() - i,
        {
            let o = match self.next_state(x, alpha[i]) {
                Some(t) => {
                    proof {
                        let k = choose|k: int| 0 <= k < self.n_trans(x as int) && (#[trigger] self.trans(x as int, k)).0 == alpha@[i as int];
                    }
                    Some(block[t])
                },
                None => None,
            };
            r.push(o);
            i += 1;
        }
        assert(r@ =~= sig(*self, block@, alpha@, x as int));
        r
    }
}

fn same_sig(a: &Vec<Option<usize>>, b: &Vec<Option<usize>>) -> (r: bool)
    ensures
        r == (a@ == b@),
{
    if a.len() != b.len() {
        return false;
    }
    let mut i: usize = 0;
    while i < a.len()
        invariant
            a@.len() == b@.len(),
            i <= a@.len(),
            forall|j: int| 0 <= j < i ==> a@[j] == b@[j],
        decreases a.len() - i,
    {
        let eq = match (a[i], b[i]) {
            (None, None) => true,
            (Some(x), Some(y)) => x == y,
            _ => false,
        };
        if !eq {
            return false;
        }
        i += 1;
    }
    assert(a@ =~= b@);
    true
}

impl DFA {
    /// One pass of refinement: a state keeps its block when its signature matches that
    /// of the block's representative, and otherwise joins, or opens, a new block of
    /// the states of its old block with its signature.
    fn refine(&self, alpha: &Vec<char>, block: &Vec<usize>, rep: &Vec<usize>) -> (r: (Vec<usize>, Vec<usize>))
        requires
            self.wf(),
            is_partition(block@, rep@, self.len()),
        ensures
            is_partition(r.0@, r.1@, self.len()),
            r.1@.len() >= rep@.len(),
            forall|x: int, y: int| 0 <= x < self.len() && 0 <= y < self.len() && #[trigger] r.0@[x] == #[trigger] r.0@[y]
                ==> block@[x] == block@[y],
            forall|x: int, y: int| 0 <= x < self.len() && 0 <= y < self.len() && block@[x] == block@[y]
                && #[trigger] r.0@[x] != #[trigger] r.0@[y] ==> sig(*self, block@, alpha@, x) != sig(*self, block@, alpha@, y),
            r.1@.len() == rep@.len() ==> forall|x: int| 0 <= x < self.len() ==> #[trigger] sig(*self, block@, alpha@, x)
                == sig(*self, block@, alpha@, rep@[block@[x] as int] as int),
    {
        let m = self.states.len();
        let nb = rep.len();
        let mut rep_sigs: Vec<Vec<Option<usize>>> = Vec::new();
        let mut new_rep: Vec<usize> = Vec::new();
        let mut b: usize = 0;
        while b < nb
            invariant
                self.wf(),
                m == self.len(),
                nb == rep@.len(),
                is_partition(block@, rep@, self.len()),
                b <= nb,
                rep_sigs@.len() == b,
                new_rep@ == rep@.subrange(0, b as int),
                forall|c: int| 0 <= c < b ==> (#[trigger] rep_sigs@[c])@ == sig(*self, block@, alpha@, rep@[c] as int),
            decreases nb - b,
        {
            rep_sigs.push(self.signature(block, alpha, rep[b]));
            new_rep.push(rep[b]);
            b += 1;
        }
        assert(new_rep@ =~= rep@);
        let mut new_block: Vec<usize> = Vec::new();
        let mut group_old: Vec<usize> = Vec::new();
        let mut group_sig: Vec<Vec<Option<usize>>> = Vec::new();
        let mut x: usize = 0;
        while x < m
            invariant
                self.wf(),
                m == self.len(),
                nb == rep@.len(),
                is_partition(block@, rep@, self.len()),
                rep_sigs@.len() == nb,
                forall|c: int| 0 <= c < nb ==> (#[trigger] rep_sigs@[c])@ == sig(*self, block@, alpha@, rep@[c] as int),
                x <= m,
                new_block@.len() == x,
                new_rep@.len() == nb + group_old@.len(),
                group_sig@.len() == group_old@.len(),
                forall|c: int| 0 <= c < nb ==> #[trigger] new_rep@[c] == rep@[c],
                forall|g: int| 0 <= g < group_old@.len() ==> #[trigger] new_rep@[nb + g] < x
                    && block@[new_rep@[nb + g] as int] == group_old@[g]
                    && sig(*self, block@, alpha@, new_rep@[nb + g] as int) == group_sig@[g]@
                    && new_block@[new_rep@[nb + g] as int] == nb + g,
                forall|g: int| 0 <= g < group_old@.len() ==> #[trigger] group_old@[g] < nb,
                forall|g1: int, g2: int| 0 <= g1 < group_old@.len() && 0 <= g2 < group_old@.len() && g1 != g2
                    && #[trigger] group_old@[g1] == #[trigger] group_old@[g2] ==> group_sig@[g1]@ != group_sig@[g2]@,
                forall|y: int| 0 <= y < x ==> #[trigger] new_block@[y] < new_rep@.len(),
                forall|y: int| 0 <= y < x && #[trigger] new_block@[y] < nb ==> new_block@[y] == block@[y]
                    && sig(*self, block@, alpha@, y) == sig(*self, block@, alpha@, rep@[block@[y] as int] as int),
                forall|y: int| 0 <= y < x && #[trigger] new_block@[y] >= nb ==> group_old@[new_block@[y] - nb] == block@[y]
                    && group_sig@[new_block@[y] - nb]@ == sig(*self, block@, alpha@, y) && sig(*self, block@, alpha@, y) != sig(*self, block@, alpha@, rep@[block@[y] as int] as int),
            decreases m - x,
        {
            let sx = self.signature(block, alpha, x);
            let bx = block[x];
            if same_sig(&sx, &rep_sigs[bx]) {
                new_block.push(bx);
            } else {
                let mut g: usize = 0;
                let mut found = false;
                while g < group_old.len() && !found
                    invariant
                        g <= group_old@.len(),
                        group_sig@.len() == group_old@.len(),
                        found ==> g < group_old@.len() && group_old@[g as int] == bx && group_sig@[g as int]@ == sx@,
                        forall|h: int| 0 <= h < g ==> !(#[trigger] group_old@[h] == bx && group_sig@[h]@ == sx@),
                    decreases group_old.len() - g + (if found { 0int } else { 1int }),
                {
                    if group_old[g] == bx && same_sig(&group_sig[g], &sx) {
                        found = true;
                    } else {
                        g += 1;
                    }
                }
                if found {
                    let total = new_rep.len();
                    assert(nb + g < total);
                    new_block.push(nb + g);
                } else {
                    let id = new_rep.len();
                    new_block.push(id);
                    group_old.push(bx);
                    group_sig.push(sx);
                    new_rep.push(x);
                }
            }
            x += 1;
        }
        proof {
            assert forall|c: int| 0 <= c < nb implies #[trigger] new_block@[rep@[c] as int] == c by {
                let y = rep@[c] as int;
                if new_block@[y] >= nb {
                    assert(sig(*self, block@, alpha@, y) != sig(*self, block@, alpha@, rep@[block@[y] as int] as int));
                }
            }
            assert forall|x: int, y: int| 0 <= x < m && 0 <= y < m && #[trigger] new_block@[x] == #[trigger] new_block@[y]
                implies block@[x] == block@[y] by {
                if new_block@[x] >= nb {
                    assert(group_old@[new_block@[x] - nb] == block@[x]);
                }
            }
            assert forall|x: int, y: int| 0 <= x < m && 0 <= y < m && block@[x] == block@[y]
                && #[trigger] new_block@[x] != #[trigger] new_block@[y] implies sig(*self, block@, alpha@, x) != sig(*self, block@, alpha@, y) by {
                if sig(*self, block@, alpha@, x) == sig(*self, block@, alpha@, y) {
                    if new_block@[x] < nb {
                        if new_block@[y] >= nb {
                            assert(sig(*self, block@, alpha@, y) != sig(*self, block@, alpha@, rep@[block@[y] as int] as int));
                        }
                    } else {
                        if new_block@[y] >= nb {
                            let g1 = new_block@[x] - nb;
                            let g2 = new_block@[y] - nb;
                            assert(group_old@[g1] == group_old@[g2]);
                        }
                    }
                }
            }
            assert forall|c: int| 0 <= c < new_rep@.len() implies #[trigger] new_rep@[c] < m && new_block@[new_rep@[c] as int] == c by {
                if c >= nb {
                    let g = c - nb;
                    assert(new_rep@[nb + g] < x);
                }
            }
            if new_rep@.len() == nb {
                assert forall|x: int| 0 <= x < m implies #[trigger] sig(*self, block@, alpha@, x)
                    == sig(*self, block@, alpha@, rep@[block@[x] as int] as int) by {
                    assert(new_block@[x] < nb);
                }
            }
        }
        (new_block, new_rep)
    }
}

/// `r` relates states that agree on acceptance and whose edges on each symbol are
/// both missing or lead to states that `r` relates again.
pub open spec fn congruence(d: DFA, r: spec_fn(int, int) -> bool) -> bool {
    forall|x: int, y: int|
        0 <= x < d.len() && 0 <= y < d.len() && #[trigger] r(x, y) ==> d.is_accept(x) == d.is_accept(y) && forall|a: char|
            match (#[trigger] dfa_next(d, x, a), dfa_next(d, y, a)) {
                (None, None) => true,
                (Some(p), Some(q)) => r(p, q),
                _ => false,
            }
}

/// Every state is reachable and no two states can be merged: a congruence relates each
/// state to itself alone.
pub open spec fn is_minimal(d: DFA) -> bool {
    &&& forall|q: int| 0 <= q < d.len() ==> #[trigger] reachable(d, q)
    &&& forall|r: spec_fn(int, int) -> bool, x: int, y: int|
        #[trigger] congruence(d, r) && 0 <= x < d.len() && 0 <= y < d.len() && #[trigger] r(x, y) ==> x == y
}

/// All states of `d`.
pub open spec fn all_states(d: DFA) -> Set<int> {
    Set::new(|x: int| 0 <= x < d.len())
}

/// Every congruence keeps its related states in one block.
pub open spec fn coarsest(d: DFA, block: Seq<usize>) -> bool {
    forall|r: spec_fn(int, int) -> bool, x: int, y: int|
        #[trigger] congruence(d, r) && 0 <= x < d.len() && 0 <= y < d.len() && #[trigger] r(x, y) ==> block[x] == block[y]
}

/// Distinct states differ in acceptance or in the edge of some symbol: no further
/// refinement pass would split a block.
pub open spec fn one_step_distinct(d: DFA) -> bool {
    forall|i: int, j: int|
        0 <= i < d.len() && 0 <= j < d.len() && i != j ==> d.is_accept(i) != d.is_accept(j) || exists|a: char|
            #[trigger] dfa_next(d, i, a) != dfa_next(d, j, a)
}

/// Block `b0` and block 0 trade places.
pub open spec fn swap_id(b: int, b0: int) -> int {
    if b == b0 {
        0
    } else if b == 0 {
        b0
    } else {
        b
    }
}

fn swap_exec(b: usize, b0: usize) -> (r: usize)
    ensures
        r == swap_id(b as int, b0 as int),
{
    if b == b0 {
        0
    } else if b == 0 {
        b0
    } else {
        b
    }
}

/// The edge of the rebuilt state for block `swap_id(..)` from representative `r`.
pub open spec fn edge_for(d: DFA, block: Seq<usize>, b0: int, r: int, a: char) -> Option<int> {
    match dfa_next(d, r, a) {
        None => None,
        Some(t) => Some(swap_id(block[t] as int, b0)),
    }
}

/// A symbol with an edge is a label of the DFA.
proof fn lemma_next_label(d: DFA, q: int, a: char)
    requires
        dfa_next(d, q, a) is Some,
        0 <= q < d.len(),
    ensures
        is_dfa_label(d, a),
{
    let k = choose|k: int| 0 <= k < d.n_trans(q) && (#[trigger] d.trans(q, k)).0 == a;
}

/// Within a block, edges agree on the block they reach.
pub open spec fn is_stable(d: DFA, block: Seq<usize>) -> bool {
    forall|x: int, y: int, a: char|
        0 <= x < d.len() && 0 <= y < d.len() && block[x] == block[y] ==> opt_block(block, #[trigger] dfa_next(d, x, a))
            == opt_block(block, #[trigger] dfa_next(d, y, a))
}

/// States of different blocks are separated, and states of one block agree on
/// acceptance.
pub open spec fn blocks_sound(d: DFA, block: Seq<usize>) -> bool {
    &&& forall|x: int, y: int| 0 <= x < d.len() && 0 <= y < d.len() && #[trigger] block[x] != #[trigger] block[y] ==> separated(d, block, x, y)
    &&& blocks_agree(d, block)
}

/// States of one block agree on acceptance.
pub open spec fn blocks_agree(d: DFA, block: Seq<usize>) -> bool {
    forall|x: int, y: int| 0 <= x < d.len() && 0 <= y < d.len() && #[trigger] block[x] == #[trigger] block[y] ==> d.is_accept(x) == d.is_accept(y)
}

/// Some state of `d` is mapped to `i`.
pub open spec fn hit_all(d: DFA, h: spec_fn(int) -> int, i: int) -> bool {
    exists|x: int| 0 <= x < d.len() && #[trigger] h(x) == i
}

/// `e` is the quotient of `d` by `block`: each state goes to its block's new number
/// (the start's block first), carrying start, acceptance and edges, and every new state
/// is some block's.
pub open spec fn quotient_map(d: DFA, e: DFA, block: Seq<usize>) -> bool {
    &&& is_morphism(d, e, all_states(d), qmap(block, block[d.start_state as int] as int))
    &&& forall|i: int| 0 <= i < e.len() ==> #[trigger] hit_all(d, qmap(block, block[d.start_state as int] as int), i)
}

/// Each state to the new number of its block, block `b0` first.
pub open spec fn qmap(block: Seq<usize>, b0: int) -> spec_fn(int) -> int {
    |x: int| swap_id(block[x] as int, b0)
}


/// No congruence of the quotient by the coarsest stable partition merges two states.
proof fn lemma_quotient_minimal(d: DFA, e: DFA, block: Seq<usize>, rep: Seq<usize>, b0: int, h: spec_fn(int) -> int)
    requires
        is_partition(block, rep, d.len()),
        coarsest(d, block),
        is_morphism(d, e, all_states(d), h),
        e.len() == rep.len(),
        0 <= b0 < rep.len(),
        forall|x: int| 0 <= x < d.len() ==> #[trigger] h(x) == swap_id(block[x] as int, b0),
    ensures
        forall|r: spec_fn(int, int) -> bool, x: int, y: int|
            #[trigger] congruence(e, r) && 0 <= x < e.len() && 0 <= y < e.len() && #[trigger] r(x, y) ==> x == y,
{
    let all = all_states(d);
    assert forall|r: spec_fn(int, int) -> bool, x: int, y: int|
        #[trigger] congruence(e, r) && 0 <= x < e.len() && 0 <= y < e.len() && #[trigger] r(x, y) implies x == y by {
        let r2 = |p: int, q: int| 0 <= p < d.len() && 0 <= q < d.len() && r(h(p), h(q));
        assert forall|p: int, q: int| 0 <= p < d.len() && 0 <= q < d.len() && #[trigger] r2(p, q) implies d.is_accept(p) == d.is_accept(q) && forall|a: char|
            match (#[trigger] dfa_next(d, p, a), dfa_next(d, q, a)) {
                (None, None) => true,
                (Some(p2), Some(q2)) => r2(p2, q2),
                _ => false,
            } by {
            assert(all.contains(p) && all.contains(q));
            assert(e.is_accept(h(p)) == e.is_accept(h(q)));
            assert forall|a: char| match (#[trigger] dfa_next(d, p, a), dfa_next(d, q, a)) {
                (None, None) => true,
                (Some(p2), Some(q2)) => r2(p2, q2),
                _ => false,
            } by {
                let np = dfa_next(e, h(p), a);
                let nq = dfa_next(e, h(q), a);
                assert(match (np, nq) {
                    (None, None) => true,
                    (Some(u), Some(v)) => r(u, v),
                    _ => false,
                });
                match dfa_next(d, p, a) {
                    Some(p2) => { assert(all.contains(p2)); },
                    None => {},
                }
                match dfa_next(d, q, a) {
                    Some(q2) => { assert(all.contains(q2)); },
                    None => {},
                }
            }
        }
        assert(congruence(d, r2));
        let bx = swap_id(x, b0);
        let by = swap_id(y, b0);
        let px = rep[bx] as int;
        let py = rep[by] as int;
        assert(block[px] == bx);
        assert(block[py] == by);
        assert(h(px) == x);
        assert(h(py) == y);
        assert(r2(px, py));
        assert(block[px] == block[py]);
    }
}

/// On a minimal input the blocks are single states, so the quotient keeps their number
/// and the map onto it is one to one.
proof fn lemma_minimal_input(d: DFA, e: DFA, block: Seq<usize>, rep: Seq<usize>, b0: int, h: spec_fn(int) -> int)
    requires
        is_minimal(d),
        is_partition(block, rep, d.len()),
        is_stable(d, block),
        blocks_agree(d, block),
        e.len() == rep.len(),
        rep.len() <= d.len(),
        forall|x: int| 0 <= x < d.len() ==> #[trigger] h(x) == swap_id(block[x] as int, b0),
    ensures
        e.len() == d.len(),
        forall|x: int, y: int| 0 <= x < d.len() && 0 <= y < d.len() && #[trigger] h(x) == #[trigger] h(y) ==> x == y,
{
    let rb = |x: int, y: int| block[x] == block[y];
    assert forall|p: int, q: int| 0 <= p < d.len() && 0 <= q < d.len() && #[trigger] rb(p, q) implies d.is_accept(p) == d.is_accept(q) && forall|a: char|
        match (#[trigger] dfa_next(d, p, a), dfa_next(d, q, a)) {
            (None, None) => true,
            (Some(p2), Some(q2)) => rb(p2, q2),
            _ => false,
        } by {
        assert forall|a: char| match (#[trigger] dfa_next(d, p, a), dfa_next(d, q, a)) {
            (None, None) => true,
            (Some(p2), Some(q2)) => rb(p2, q2),
            _ => false,
        } by {
            assert(opt_block(block, dfa_next(d, p, a)) == opt_block(block, dfa_next(d, q, a)));
        }
    }
    assert(congruence(d, rb));
    assert(block.no_duplicates()) by {
        assert forall|i: int, j: int| 0 <= i < block.len() && 0 <= j < block.len() && i != j implies block[i] != block[j] by {
            if block[i] == block[j] {
                assert(rb(i, j));
            }
        }
    }
    lemma_distinct_bounded(block, rep.len() as int);
    assert forall|x: int, y: int| 0 <= x < d.len() && 0 <= y < d.len() && #[trigger] h(x) == #[trigger] h(y) implies x == y by {
        assert(block[x] == block[y]);
        assert(rb(x, y));
    }
}

impl DFA {
    /// Replaces the automaton by its quotient: one state per block, the start state's
    /// block first, each with the edges of its representative.
    #[verifier::rlimit(60)]
    fn rebuild_from_partitions(&mut self, alpha: &Vec<char>, block: &Vec<usize>, rep: &Vec<usize>)
        requires
            old(self).wf(),
            is_partition(block@, rep@, old(self).len()),
            is_stable(*old(self), block@),
            blocks_agree(*old(self), block@),
            forall|c: char| alpha@.contains(c) <==> is_dfa_label(*old(self), c),
            forall|i: int, j: int| 0 <= i < j < alpha@.len() ==> alpha@[i] < alpha@[j],
        ensures
            final(self).wf(),
            final(self).start_state == 0,
            final(self).len() == rep@.len(),
            quotient_map(*old(self), *final(self), block@),
            final(self).accept_states@.no_duplicates(),
            (forall|x: int| 0 <= x < old(self).len() ==> #[trigger] reachable(*old(self), x)) ==> forall|q: int|
                0 <= q < final(self).len() ==> #[trigger] reachable(*final(self), q),
            (forall|x: int| 0 <= x < old(self).len() ==> #[trigger] reachable(*old(self), x)) && coarsest(*old(self), block@)
                ==> is_minimal(*final(self)),
            is_minimal(*old(self)) ==> final(self).len() == old(self).len() && exists|h: spec_fn(int) -> int|
                #[trigger] is_morphism(*old(self), *final(self), all_states(*old(self)), h)
                && forall|x: int, y: int| 0 <= x < old(self).len() && 0 <= y < old(self).len() && #[trigger] h(x) == #[trigger] h(y) ==> x == y,
            forall|w: Seq<char>| dfa_accepts(*final(self), w) == dfa_accepts(*old(self), w),
            blocks_sound(*old(self), block@) ==> one_step_distinct(*final(self)),
            edges_sorted(*final(self)),
    {
        let ghost d = *self;
        let nb = rep.len();
        let b0 = block[self.start_state];
        let mut states: Vec<DFAState> = Vec::new();
        let mut i: usize = 0;
        while i < nb
            invariant
                self.wf(),
                *self == d,
                nb == rep@.len(),
                b0 < nb,
                is_partition(block@, rep@, d.len()),
                forall|c: char| alpha@.contains(c) <==> is_dfa_label(d, c),
                forall|i: int, j: int| 0 <= i < j < alpha@.len() ==> alpha@[i] < alpha@[j],
                i <= nb,
                states@.len() == i,
                forall|j: int| 0 <= j < i ==> (#[trigger] states@[j]).id == j,
                forall|j: int, q: int| 0 <= j < i && 0 <= q < states@[j].transitions@.len() ==>
                    edge_for(d, block@, b0 as int, rep@[swap_id(j, b0 as int)] as int, (#[trigger] states@[j].transitions@[q]).0)
                        == Some(states@[j].transitions@[q].1 as int),
                forall|j: int, p: int| 0 <= j < i && 0 <= p < alpha@.len() && (#[trigger] edge_for(d, block@, b0 as int, rep@[swap_id(j, b0 as int)] as int, alpha@[p])) is Some
                    ==> exists|q: int| 0 <= q < states@[j].transitions@.len() && (#[trigger] states@[j].transitions@[q]).0 == alpha@[p],
                forall|j: int, q1: int, q2: int| 0 <= j < i && 0 <= q1 < q2 < states@[j].transitions@.len() ==>
                    (#[trigger] states@[j].transitions@[q1]).0 < (#[trigger] states@[j].transitions@[q2]).0,
            decreases nb - i,
        {
            let r = rep[swap_exec(i, b0)];
            let mut ts: Vec<(char, usize)> = Vec::new();
            let mut p: usize = 0;
            while p < alpha.len()
                invariant
                    self.wf(),
                    *self == d,
                    nb == rep@.len(),
                    b0 < nb,
                    i < nb,
                    r == rep@[swap_id(i as int, b0 as int)],
                    is_partition(block@, rep@, d.len()),
                    forall|i: int, j: int| 0 <= i < j < alpha@.len() ==> alpha@[i] < alpha@[j],
                    p <= alpha@.len(),
                    forall|q: int| 0 <= q < ts@.len() ==> edge_for(d, block@, b0 as int, r as int, (#[trigger] ts@[q]).0) == Some(ts@[q].1 as int),
                    forall|q: int| 0 <= q < ts@.len() ==> exists|pp: int| 0 <= pp < p && #[trigger] alpha@[pp] == (#[trigger] ts@[q]).0,
                    forall|pp: int| 0 <= pp < p && (#[trigger] edge_for(d, block@, b0 as int, r as int, alpha@[pp])) is Some
                        ==> exists|q: int| 0 <= q < ts@.len() && (#[trigger] ts@[q]).0 == alpha@[pp],
                    forall|q1: int, q2: int| 0 <= q1 < q2 < ts@.len() ==> (#[trigger] ts@[q1]).0 < (#[trigger] ts@[q2]).0,
                decreases alpha.len() - p,
            {
                let a = alpha[p];
                let ghost ts0 = ts@;
                match self.next_state(r, a) {
                    Some(t) => {
                        proof {
                            let k = choose|k: int| 0 <= k < d.n_trans(r as int) && (#[trigger] d.trans(r as int, k)).0 == a;
                        }
                        let target = swap_exec(block[t], b0);
                        ts.push((a, target));
                        proof {
                            assert forall|q: int| 0 <= q < ts@.len() implies exists|pp: int| 0 <= pp < p + 1 && #[trigger] alpha@[pp] == (#[trigger] ts@[q]).0 by {
                                if q < ts0.len() {
                                    let pp = choose|pp: int| 0 <= pp < p && #[trigger] alpha@[pp] == ts0[q].0;
                                    assert(ts@[q] == ts0[q]);
                                } else {
                                    assert(alpha@[p as int] == ts@[q].0);
                                }
                            }
                            assert forall|q1: int, q2: int| 0 <= q1 < q2 < ts@.len() implies (#[trigger] ts@[q1]).0 < (#[trigger] ts@[q2]).0 by {
                                if q2 == ts0.len() {
                                    let pp = choose|pp: int| 0 <= pp < p && #[trigger] alpha@[pp] == ts0[q1].0;
                                    assert(ts@[q1] == ts0[q1]);
                                } else {
                                    assert(ts@[q1] == ts0[q1]);
                                    assert(ts@[q2] == ts0[q2]);
                                }
                            }
                            assert forall|pp: int| 0 <= pp < p + 1 && (#[trigger] edge_for(d, block@, b0 as int, r as int, alpha@[pp])) is Some
                                implies exists|q: int| 0 <= q < ts@.len() && (#[trigger] ts@[q]).0 == alpha@[pp] by {
                                if pp < p {
                                    let q = choose|q: int| 0 <= q < ts0.len() && (#[trigger] ts0[q]).0 == alpha@[pp];
                                    assert(ts@[q] == ts0[q]);
                                } else {
                                    assert(ts@[ts0.len() as int].0 == alpha@[pp]);
                                }
                            }
                        }
                    },
                    None => {},
                }
                p += 1;
            }
            let ghost old_states = states@;
            let ghost tsv = ts@;
            states.push(DFAState { id: i, transitions: ts });
            proof {
                assert(states@[i as int].transitions@ == tsv);
                assert forall|j: int, p: int| 0 <= j < i + 1 && 0 <= p < alpha@.len() && (#[trigger] edge_for(d, block@, b0 as int, rep@[swap_id(j, b0 as int)] as int, alpha@[p])) is Some
                    implies exists|q: int| 0 <= q < states@[j].transitions@.len() && (#[trigger] states@[j].transitions@[q]).0 == alpha@[p] by {
                    if j < i {
                        assert(states@[j] == old_states[j]);
                        let q = choose|q: int| 0 <= q < old_states[j].transitions@.len() && (#[trigger] old_states[j].transitions@[q]).0 == alpha@[p];
                    } else {
                        let q = choose|q: int| 0 <= q < tsv.len() && (#[trigger] tsv[q]).0 == alpha@[p];
                        assert(states@[j].transitions@[q] == tsv[q]);
                    }
                }
            }
            i += 1;
        }
        let mut accept: Vec<usize> = Vec::new();
        let mut i: usize = 0;
        while i < nb
            invariant
                self.wf(),
                *self == d,
                nb == rep@.len(),
                b0 < nb,
                is_partition(block@, rep@, d.len()),
                i <= nb,
                forall|k: int| 0 <= k < accept@.len() ==> #[trigger] accept@[k] < i,
                accept@.no_duplicates(),
                forall|j: int| 0 <= j < i ==> (ids(accept@).contains(j) <==> d.is_accept(#[trigger] rep@[swap_id(j, b0 as int)] as int)),
            decreases nb - i,
        {
            if self.is_accepting(rep[swap_exec(i, b0)]) {
                proof { lemma_ids_push(accept@, i); }
                accept.push(i);
            } else {
                proof {
                    assert(!ids(accept@).contains(i as int));
                }
            }
            i += 1;
        }
        self.states = states;
        self.accept_states = accept;
        self.start_state = 0;
        proof {
            let e = *self;
            let b0i = b0 as int;
            assert forall|i: int, k1: int, k2: int|
                0 <= i < e.len() && 0 <= k1 < e.n_trans(i) && 0 <= k2 < e.n_trans(i) && k1 != k2
                    implies (#[trigger] e.trans(i, k1)).0 != (#[trigger] e.trans(i, k2)).0 by {
                if k1 < k2 {
                    assert(e.trans(i, k1).0 < e.trans(i, k2).0);
                } else {
                    assert(e.trans(i, k2).0 < e.trans(i, k1).0);
                }
            }
            assert forall|i: int, k: int| 0 <= i < e.len() && 0 <= k < e.n_trans(i) implies (#[trigger] e.trans(i, k)).1 < e.len() by {
                let r = rep@[swap_id(i, b0i)] as int;
                let t = dfa_next(d, r, e.trans(i, k).0)->Some_0;
                assert(block@[t] < nb);
            }
            assert forall|k: int| 0 <= k < e.accept_states@.len() implies #[trigger] e.accept_states@[k] < e.len() by {
            }
            assert(e.wf());
            // the edges of each rebuilt state
            assert forall|i: int, a: char| 0 <= i < e.len() implies #[trigger] dfa_next(e, i, a)
                == edge_for(d, block@, b0i, rep@[swap_id(i, b0i)] as int, a) by {
                let r = rep@[swap_id(i, b0i)] as int;
                if exists|k: int| 0 <= k < e.n_trans(i) && (#[trigger] e.trans(i, k)).0 == a {
                    let k = choose|k: int| 0 <= k < e.n_trans(i) && (#[trigger] e.trans(i, k)).0 == a;
                    lemma_next_at(e, i, k);
                } else {
                    if edge_for(d, block@, b0i, r, a) is Some {
                        lemma_next_label(d, r, a);
                        let p = choose|p: int| 0 <= p < alpha@.len() && alpha@[p] == a;
                        assert(edge_for(d, block@, b0i, r, alpha@[p]) is Some);
                    }
                }
            }
            let h = qmap(block@, b0i);
            let all = Set::new(|x: int| 0 <= x < d.len());
            assert forall|x: int| #[trigger] all.contains(x) implies 0 <= x < d.len() && 0 <= h(x) < e.len() && (e.is_accept(h(x)) == d.is_accept(x)) by {
                let b = block@[x] as int;
                assert(swap_id(h(x), b0i) == b);
                let r = rep@[b] as int;
                assert(block@[r] == block@[x]);
                assert(ids(e.accept_states@).contains(h(x)) == d.is_accept(r));
                if e.is_accept(h(x)) {
                    let k = choose|k: int| 0 <= k < e.accept_states@.len() && e.accept_states@[k] == h(x);
                    assert(ids(e.accept_states@).contains(h(x)));
                }
                if ids(e.accept_states@).contains(h(x)) {
                    let k = choose|k: int| 0 <= k < e.accept_states@.len() && e.accept_states@[k] == h(x);
                }
            }
            assert forall|x: int, a: char| #[trigger] all.contains(x) implies match #[trigger] dfa_next(d, x, a) {
                None => dfa_next(e, h(x), a) is None,
                Some(y) => all.contains(y) && dfa_next(e, h(x), a) == Some(h(y)),
            } by {
                let b = block@[x] as int;
                assert(swap_id(h(x), b0i) == b);
                let r = rep@[b] as int;
                assert(block@[r] == block@[x]);
                assert(opt_block(block@, dfa_next(d, x, a)) == opt_block(block@, dfa_next(d, r, a)));
                assert(dfa_next(e, h(x), a) == edge_for(d, block@, b0i, r, a));
                match dfa_next(d, x, a) {
                    None => {},
                    Some(y) => {
                        let k = choose|k: int| 0 <= k < d.n_trans(x) && (#[trigger] d.trans(x, k)).0 == a;
                    },
                }
            }
            assert(all.contains(d.start_state as int));
            lemma_morphism_language(d, e, all, h);
            assert forall|i: int| 0 <= i < e.len() implies #[trigger] hit_all(d, h, i) by {
                let r = rep@[swap_id(i, b0i)] as int;
                assert(block@[r] == swap_id(i, b0i));
                assert(h(r) == i);
            }
            assert(all =~= all_states(d));
            assert(quotient_map(d, e, block@));
            if forall|x: int| 0 <= x < d.len() ==> #[trigger] reachable(d, x) {
            assert forall|q: int| 0 <= q < e.len() implies #[trigger] reachable(e, q) by {
                let b = swap_id(q, b0i);
                let r = rep@[b] as int;
                assert(block@[r] == b);
                assert(h(r) == q);
                assert(reachable(d, r));
                let w = choose|w: Seq<char>| #[trigger] dfa_run(d, d.start_state as int, w) == Some(r);
                lemma_morphism_run(d, e, all, h, d.start_state as int, w);
                assert(dfa_run(e, e.start_state as int, w) == Some(q));
            }
            lemma_partition_bounded(block@, rep@, d.len());
            if coarsest(d, block@) {
                lemma_quotient_minimal(d, e, block@, rep@, b0i, h);
                assert(is_minimal(e));
            }
            }
            lemma_partition_bounded(block@, rep@, d.len());
            if is_minimal(d) {
                lemma_minimal_input(d, e, block@, rep@, b0i, h);
                assert(is_morphism(d, e, all_states(d), h));
            }
            if blocks_sound(d, block@) {
            assert forall|i: int, j: int| 0 <= i < e.len() && 0 <= j < e.len() && i != j implies e.is_accept(i) != e.is_accept(j) || exists|a: char|
                #[trigger] dfa_next(e, i, a) != dfa_next(e, j, a) by {
                let bi = swap_id(i, b0i);
                let bj = swap_id(j, b0i);
                let ri = rep@[bi] as int;
                let rj = rep@[bj] as int;
                assert(block@[ri] != block@[rj]);
                assert(separated(d, block@, ri, rj));
                assert(ids(e.accept_states@).contains(i) == d.is_accept(ri));
                assert(ids(e.accept_states@).contains(j) == d.is_accept(rj));
                if e.is_accept(i) {
                    let k = choose|k: int| 0 <= k < e.accept_states@.len() && e.accept_states@[k] == i;
                    assert(ids(e.accept_states@).contains(i));
                }
                if e.is_accept(j) {
                    let k = choose|k: int| 0 <= k < e.accept_states@.len() && e.accept_states@[k] == j;
                    assert(ids(e.accept_states@).contains(j));
                }
                if ids(e.accept_states@).contains(i) {
                    let k = choose|k: int| 0 <= k < e.accept_states@.len() && e.accept_states@[k] == i;
                }
                if ids(e.accept_states@).contains(j) {
                    let k = choose|k: int| 0 <= k < e.accept_states@.len() && e.accept_states@[k] == j;
                }
                if d.is_accept(ri) == d.is_accept(rj) {
                    let a = choose|a: char| opt_block(block@, #[trigger] dfa_next(d, ri, a)) != opt_block(block@, dfa_next(d, rj, a));
                    assert(dfa_next(e, i, a) == edge_for(d, block@, b0i, ri, a));
                    assert(dfa_next(e, j, a) == edge_for(d, block@, b0i, rj, a));
                    assert(dfa_next(e, i, a) != dfa_next(e, j, a));
                }
            }
            }
        }
    }
}


/// A partition of `m` states has at most `m` blocks.
proof fn lemma_partition_bounded(block: Seq<usize>, rep: Seq<usize>, m: int)
    requires
        0 <= m,
        is_partition(block, rep, m),
    ensures
        rep.len() <= m,
{
    assert(rep.no_duplicates()) by {
        assert forall|i: int, j: int| 0 <= i < rep.len() && 0 <= j < rep.len() && i != j implies rep[i] != rep[j] by {
            assert(block[rep[i] as int] == i);
            assert(block[rep[j] as int] == j);
        }
    }
    lemma_distinct_bounded(rep, m);
}


/// Two automata with the same states, related by the identity, have the same
/// congruences; so minimality carries over.
proof fn lemma_minimal_same(a: DFA, b: DFA)
    requires
        is_minimal(a),
        a.len() == b.len(),
        is_morphism(a, b, all_states(a), |x: int| x),
        forall|q: int| 0 <= q < b.len() ==> #[trigger] reachable(b, q),
    ensures
        is_minimal(b),
{
    let id = |x: int| x;
    assert forall|r: spec_fn(int, int) -> bool, x: int, y: int|
        #[trigger] congruence(b, r) && 0 <= x < b.len() && 0 <= y < b.len() && #[trigger] r(x, y) implies x == y by {
        assert forall|p: int, q: int| 0 <= p < a.len() && 0 <= q < a.len() && #[trigger] r(p, q) implies a.is_accept(p) == a.is_accept(q) && forall|c: char|
            match (#[trigger] dfa_next(a, p, c), dfa_next(a, q, c)) {
                (None, None) => true,
                (Some(p2), Some(q2)) => r(p2, q2),
                _ => false,
            } by {
            assert(all_states(a).contains(p) && all_states(a).contains(q));
            assert forall|c: char| match (#[trigger] dfa_next(a, p, c), dfa_next(a, q, c)) {
                (None, None) => true,
                (Some(p2), Some(q2)) => r(p2, q2),
                _ => false,
            } by {
                assert(match (dfa_next(b, p, c), dfa_next(b, q, c)) {
                    (None, None) => true,
                    (Some(u), Some(v)) => r(u, v),
                    _ => false,
                });
            }
        }
        assert(congruence(a, r));
    }
}

/// Following the identity and then `h` is following `h`.
proof fn lemma_compose_same(a: DFA, b: DFA, c: DFA, h: spec_fn(int) -> int)
    requires
        a.len() == b.len(),
        is_morphism(a, b, all_states(a), |x: int| x),
        is_morphism(b, c, all_states(b), h),
    ensures
        is_morphism(a, c, all_states(a), h),
{
    assert(all_states(a) =~= all_states(b));
    assert forall|x: int, s: char| #[trigger] all_states(a).contains(x) implies match #[trigger] dfa_next(a, x, s) {
        None => dfa_next(c, h(x), s) is None,
        Some(y) => all_states(a).contains(y) && dfa_next(c, h(x), s) == Some(h(y)),
    } by {
        assert(all_states(b).contains(x));
        match dfa_next(a, x, s) {
            None => {},
            Some(y) => {
                assert(dfa_next(b, x, s) == Some(y));
            },
        }
    }
}

impl DFA {
    /// Replaces the DFA by a minimal one with the same language: unreachable states are
    /// dropped, states are split into accepting and non-accepting blocks, blocks are
    /// refined by the blocks their edges reach until no block splits, and each block
    /// becomes one state, the start state's block numbered 0.
    pub fn minimize(&mut self)
        requires
            old(self).wf(),
        ensures
            final(self).wf(),
            final(self).start_state == 0,
            final(self).len() <= old(self).len(),
            forall|w: Seq<char>| dfa_accepts(*final(self), w) == dfa_accepts(*old(self), w),
            one_step_distinct(*final(self)),
            forall|q: int| 0 <= q < final(self).len() ==> #[trigger] reachable(*final(self), q),
            is_minimal(*final(self)),
            final(self).len() <= reach_set(*old(self)).len(),
            final(self).accept_states@.no_duplicates(),
            edges_sorted(*final(self)),
    {
        self.remove_unreachable_states();
        let ghost d = *self;
        proof {
            if is_minimal(*old(self)) {
                lemma_minimal_same(*old(self), d);
            }
        }
        let m = self.states.len();
        let alpha = self.alphabet();
        let acc0 = self.is_accepting(0);
        let mut block: Vec<usize> = Vec::new();
        let mut rep: Vec<usize> = Vec::new();
        rep.push(0);
        let mut x: usize = 0;
        while x < m
            invariant
                self.wf(),
                *self == d,
                m == d.len(),
                acc0 == d.is_accept(0),
                x <= m,
                block@.len() == x,
                1 <= rep@.len() <= 2,
                rep@[0] == 0,
                forall|y: int| 0 <= y < x ==> #[trigger] block@[y] == (if d.is_accept(y) == acc0 { 0usize } else { 1usize }),
                rep@.len() == 2 ==> rep@[1] < x && d.is_accept(rep@[1] as int) != acc0,
                rep@.len() == 1 ==> forall|y: int| 0 <= y < x ==> #[trigger] d.is_accept(y) == acc0,
            decreases m - x,
        {
            if self.is_accepting(x) == acc0 {
                block.push(0);
            } else {
                if rep.len() == 1 {
                    rep.push(x);
                }
                block.push(1);
            }
            x += 1;
        }
        proof {
            assert forall|b: int| 0 <= b < rep@.len() implies #[trigger] rep@[b] < m && block@[rep@[b] as int] == b by {
            }
            assert forall|x: int| 0 <= x < m implies #[trigger] block@[x] < rep@.len() by {
                if block@[x] == 1 && rep@.len() == 1 {
                    assert(d.is_accept(x) == acc0);
                }
            }
            assert forall|x: int, y: int| 0 <= x < d.len() && 0 <= y < d.len() && #[trigger] block@[x] != #[trigger] block@[y]
                implies separated(d, block@, x, y) by {
            }
            assert forall|r: spec_fn(int, int) -> bool, x: int, y: int|
                #[trigger] congruence(d, r) && 0 <= x < d.len() && 0 <= y < d.len() && #[trigger] r(x, y) implies block@[x] == block@[y] by {
                assert(d.is_accept(x) == d.is_accept(y));
            }
        }
        let mut stable = false;
        while !stable
            invariant
                self.wf(),
                *self == d,
                m == d.len(),
                forall|c: char| alpha@.contains(c) <==> is_dfa_label(d, c),
                forall|i: int, j: int| 0 <= i < j < alpha@.len() ==> alpha@[i] < alpha@[j],
                is_partition(block@, rep@, m as int),
                blocks_sound(d, block@),
                coarsest(d, block@),
                stable ==> forall|x: int| 0 <= x < m ==> #[trigger] sig(d, block@, alpha@, x)
                    == sig(d, block@, alpha@, rep@[block@[x] as int] as int),
            decreases m - rep@.len() + (if stable { 0int } else { 1int }),
        {
            proof {
                lemma_partition_bounded(block@, rep@, m as int);
            }
            let (nb, nr) = self.refine(&alpha, &block, &rep);
            proof {
                lemma_partition_bounded(nb@, nr@, m as int);
            }
            if nr.len() == rep.len() {
                stable = true;
            } else {
                proof {
                    assert forall|x: int, y: int| 0 <= x < d.len() && 0 <= y < d.len() && #[trigger] nb@[x] != #[trigger] nb@[y]
                        implies separated(d, nb@, x, y) by {
                        let a_witness = if block@[x] != block@[y] {
                            assert(separated(d, block@, x, y));
                            true
                        } else {
                            assert(sig(d, block@, alpha@, x) != sig(d, block@, alpha@, y));
                            if forall|i: int| 0 <= i < alpha@.len() ==> sig(d, block@, alpha@, x)[i] == sig(d, block@, alpha@, y)[i] {
                                assert(sig(d, block@, alpha@, x) =~= sig(d, block@, alpha@, y));
                            }
                            let i = choose|i: int| 0 <= i < alpha@.len() && sig(d, block@, alpha@, x)[i] != sig(d, block@, alpha@, y)[i];
                            assert(opt_block(block@, dfa_next(d, x, alpha@[i])) != opt_block(block@, dfa_next(d, y, alpha@[i])));
                            true
                        };
                        if d.is_accept(x) == d.is_accept(y) {
                            let a = choose|a: char| opt_block(block@, #[trigger] dfa_next(d, x, a)) != opt_block(block@, dfa_next(d, y, a));
                            match (dfa_next(d, x, a), dfa_next(d, y, a)) {
                                (Some(tx), Some(ty)) => {
                                    let kx = choose|k: int| 0 <= k < d.n_trans(x) && (#[trigger] d.trans(x, k)).0 == a;
                                    let ky = choose|k: int| 0 <= k < d.n_trans(y) && (#[trigger] d.trans(y, k)).0 == a;
                                    assert(nb@[tx] != nb@[ty]);
                                },
                                _ => {},
                            }
                            assert(opt_block(nb@, dfa_next(d, x, a)) != opt_block(nb@, dfa_next(d, y, a)));
                        }
                    }
                }
                proof {
                    assert forall|r: spec_fn(int, int) -> bool, x: int, y: int|
                        #[trigger] congruence(d, r) && 0 <= x < d.len() && 0 <= y < d.len() && #[trigger] r(x, y) implies nb@[x] == nb@[y] by {
                        assert(block@[x] == block@[y]);
                        assert(sig(d, block@, alpha@, x) =~= sig(d, block@, alpha@, y)) by {
                            assert forall|i: int| 0 <= i < alpha@.len() implies sig(d, block@, alpha@, x)[i] == sig(d, block@, alpha@, y)[i] by {
                                let a = alpha@[i];
                                match (dfa_next(d, x, a), dfa_next(d, y, a)) {
                                    (Some(p), Some(q)) => {
                                        let kx = choose|k: int| 0 <= k < d.n_trans(x) && (#[trigger] d.trans(x, k)).0 == a;
                                        let ky = choose|k: int| 0 <= k < d.n_trans(y) && (#[trigger] d.trans(y, k)).0 == a;
                                        assert(r(p, q));
                                        assert(block@[p] == block@[q]);
                                    },
                                    _ => {},
                                }
                            }
                        }
                    }
                }
                block = nb;
                rep = nr;
            }
        }
        proof {
            lemma_partition_bounded(block@, rep@, m as int);
            assert forall|x: int, y: int, a: char| 0 <= x < d.len() && 0 <= y < d.len() && block@[x] == block@[y]
                implies opt_block(block@, #[trigger] dfa_next(d, x, a)) == opt_block(block@, #[trigger] dfa_next(d, y, a)) by {
                let r = rep@[block@[x] as int] as int;
                assert(sig(d, block@, alpha@, x) == sig(d, block@, alpha@, r));
                assert(sig(d, block@, alpha@, y) == sig(d, block@, alpha@, r));
                if alpha@.contains(a) {
                    let i = choose|i: int| 0 <= i < alpha@.len() && alpha@[i] == a;
                    assert(sig(d, block@, alpha@, x)[i] == sig(d, block@, alpha@, y)[i]);
                } else {
                    if dfa_next(d, x, a) is Some {
                        lemma_next_label(d, x, a);
                    }
                    if dfa_next(d, y, a) is Some {
                        lemma_next_label(d, y, a);
                    }
                }
            }
        }
        proof {
            lemma_partition_bounded(block@, rep@, m as int);
        }
        self.rebuild_from_partitions(&alpha, &block, &rep);
    }
}

} // verus!
