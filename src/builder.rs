use vstd::prelude::*;
use crate::nfa::{NFA, Transition, is_fragment, is_label, only_accepting, fragment_accept, nview, shifted};
use crate::postfix::Token;

verus! {

/// The states of a fragment, each as its accepting flag and edges, with the index of
/// its accepting state; the start is state 0.
pub type FragView = (Seq<(bool, Seq<Transition>)>, int);

pub open spec fn eps_to(t: int) -> Transition {
    Transition { symbol: None, to_state: t as usize }
}

/// The accepting state of a fragment.
pub open spec fn frag_acc(f: NFA) -> int {
    choose|a: int| 0 <= a < f.len() && #[trigger] only_accepting(f, a)
}

pub open spec fn frag_view(f: NFA) -> FragView {
    (nview(f), frag_acc(f))
}

/// Two states: the start, with an edge on `c` to the accepting state.
pub open spec fn literal_spec(c: char) -> FragView {
    (seq![(false, seq![Transition { symbol: Some(c), to_state: 1 }]), (true, Seq::empty())], 1)
}

/// Where an edge of the right operand lands once its start is merged into the left
/// operand's accepting state `la`, the rest placed from `base` on.
pub open spec fn splice(t: Transition, la: int, base: int) -> Transition {
    Transition { symbol: t.symbol, to_state: (if t.to_state == 0 { la } else { base + t.to_state - 1 }) as usize }
}

pub open spec fn spliced(ts: Seq<Transition>, la: int, base: int) -> Seq<Transition> {
    ts.map_values(|t: Transition| splice(t, la, base))
}

/// Concatenation: the accepting state of `l` takes the edges of the start of `r`, the
/// other states of `r` follow those of `l`, and the image of `r`'s accepting state is
/// the only accepting state.
pub open spec fn concat_spec(l: FragView, r: FragView) -> FragView {
    let (lv, la) = l;
    let (rv, ra) = r;
    let base = lv.len() as int;
    let acc = if ra == 0 { la } else { base + ra - 1 };
    (
        Seq::new(
            (base + rv.len() - 1) as nat,
            |i: int| (i == acc, if i < base {
                if i == la { lv[i].1 + spliced(rv[0].1, la, base) } else { lv[i].1 }
            } else {
                spliced(rv[i - base + 1].1, la, base)
            }),
        ),
        acc,
    )
}

/// Alternation: a new start with epsilon edges to copies of `l` (from 1) and `r` (after
/// it), whose accepting states get an epsilon edge to a new, only accepting, last state.
pub open spec fn alt_spec(l: FragView, r: FragView) -> FragView {
    let (lv, la) = l;
    let (rv, ra) = r;
    let n1 = lv.len() as int;
    let n2 = rv.len() as int;
    let a = 1 + n1 + n2;
    (
        Seq::new(
            (a + 1) as nat,
            |i: int| (i == a, if i == 0 {
                seq![eps_to(1), eps_to(1 + n1)]
            } else if i <= n1 {
                shifted(lv, 1)[i - 1].1 + if i - 1 == la { seq![eps_to(a)] } else { Seq::empty() }
            } else if i <= n1 + n2 {
                shifted(rv, 1 + n1)[i - 1 - n1].1 + if i - 1 - n1 == ra { seq![eps_to(a)] } else { Seq::empty() }
            } else {
                Seq::empty()
            }),
        ),
        a,
    )
}

/// Kleene star: a new start with epsilon edges to a copy of `f` (from 1) and to a new,
/// only accepting, last state; the accepting state of `f` gets epsilon edges to the new
/// accepting state and back to the start of `f`.
pub open spec fn star_spec(f: FragView) -> FragView {
    let (fv, fa) = f;
    let n = fv.len() as int;
    let a = n + 1;
    (
        Seq::new(
            (n + 2) as nat,
            |i: int| (i == a, if i == 0 {
                seq![eps_to(1), eps_to(a)]
            } else if i <= n {
                shifted(fv, 1)[i - 1].1 + if i - 1 == fa { seq![eps_to(a), eps_to(1)] } else { Seq::empty() }
            } else {
                Seq::empty()
            }),
        ),
        a,
    )
}

/// The builder's stack of fragments after `t`, or `None` when an operator finds too few.
pub open spec fn build_spec(t: Seq<Token>) -> Option<Seq<FragView>>
    decreases t.len(),
{
    if t.len() == 0 {
        Some(Seq::empty())
    } else {
        match build_spec(t.drop_last()) {
            None => None,
            Some(st) => match t.last() {
                Token::Literal(c) => Some(st.push(literal_spec(c))),
                Token::Star => if st.len() >= 1 {
                    Some(st.drop_last().push(star_spec(st.last())))
                } else {
                    None
                },
                Token::Concat => if st.len() >= 2 {
                    Some(st.drop_last().drop_last().push(concat_spec(st[st.len() - 2], st.last())))
                } else {
                    None
                },
                Token::Alt => if st.len() >= 2 {
                    Some(st.drop_last().drop_last().push(alt_spec(st[st.len() - 2], st.last())))
                } else {
                    None
                },
            },
        }
    }
}

proof fn lemma_frag_acc(f: NFA, a: int)
    requires
        0 <= a < f.len(),
        only_accepting(f, a),
    ensures
        frag_acc(f) == a,
{
    let b = frag_acc(f);
    assert(only_accepting(f, b));
    assert(f.accepting(a));
}

/// A postfix token stream that does not reduce to exactly one automaton.
#[derive(PartialEq, Eq, Structural, Clone, Copy, Debug)]
pub struct MalformedExpression;

/// The number of fragments on the builder's stack after `t`, or `None` when an
/// operator finds too few.
pub open spec fn stack_depth(t: Seq<Token>) -> Option<int>
    decreases t.len(),
{
    if t.len() == 0 {
        Some(0)
    } else {
        match stack_depth(t.drop_last()) {
            None => None,
            Some(d) => match t.last() {
                Token::Literal(_) => Some(d + 1),
                Token::Star => if d >= 1 { Some(d) } else { None },
                _ => if d >= 2 { Some(d - 1) } else { None },
            },
        }
    }
}

/// The stream reduces to exactly one fragment.
pub open spec fn reduces(t: Seq<Token>) -> bool {
    stack_depth(t) == Some(1int)
}

/// Total number of states over a stack of fragments.
pub open spec fn total_states(s: Seq<NFA>) -> int
    decreases s.len(),
{
    if s.len() == 0 {
        0
    } else {
        total_states(s.drop_last()) + s.last().len()
    }
}

proof fn lemma_total_nonneg(s: Seq<NFA>)
    ensures
        total_states(s) >= 0,
    decreases s.len(),
{
    if s.len() > 0 {
        lemma_total_nonneg(s.drop_last());
    }
}

proof fn lemma_depth_none_stays(t: Seq<Token>, k: int)
    requires
        0 <= k <= t.len(),
        stack_depth(t.subrange(0, k)) is None,
    ensures
        stack_depth(t) is None,
    decreases t.len() - k,
{
    if k < t.len() {
        assert(t.subrange(0, k + 1).drop_last() =~= t.subrange(0, k));
        lemma_depth_none_stays(t, k + 1);
    } else {
        assert(t.subrange(0, k) =~= t);
    }
}

/// Two states: the start, with an edge labelled `c` to the accepting state.
fn literal(c: char) -> (r: NFA)
    ensures
        is_fragment(r),
        r.len() == 2,
        frag_view(r) == literal_spec(c),
{
    let mut f = NFA::new();
    let acc = f.add_state(true);
    f.add_transition(0, acc, Some(c));
    assert(only_accepting(f, 1));
    proof {
        lemma_frag_acc(f, 1);
        assert(nview(f) =~= literal_spec(c).0);
    }
    f
}

/// The state of `right` at `t` once `right` is spliced onto `left`.
fn splice_target(t: usize, la: usize, base: usize) -> (r: usize)
    requires
        base + t < usize::MAX,
        t >= 1 || la < base,
    ensures
        r == if t == 0 { la as int } else { base + t - 1 },
{
    if t == 0 {
        la
    } else {
        base + t - 1
    }
}

/// The left operand with the spliced edges of the right operand's start on its
/// accepting state, followed by the first `j` other states of the right operand, the
/// last of them with its first `k` edges only.
pub open spec fn concat_partial(lv: Seq<(bool, Seq<Transition>)>, la: int, rv: Seq<(bool, Seq<Transition>)>, j: int, k: int) -> Seq<(bool, Seq<Transition>)> {
    let base = lv.len() as int;
    let head = lv.update(la, (lv[la].0, lv[la].1 + spliced(rv[0].1, la, base)));
    head + Seq::new(j as nat, |q: int| (false, if q < j - 1 { spliced(rv[q + 1].1, la, base) } else { spliced(rv[q + 1].1.subrange(0, k), la, base) }))
}

/// Concatenation: the accepting state of `left` takes the place of the start of `right`.
fn concat(left: NFA, right: &NFA) -> (r: NFA)
    requires
        is_fragment(left),
        is_fragment(*right),
        left.len() + right.len() < usize::MAX,
    ensures
        is_fragment(r),
        r.len() == left.len() + right.len() - 1,
        frag_view(r) == concat_spec(frag_view(left), frag_view(*right)),
{
    let ghost lv = nview(left);
    let ghost rv = nview(*right);
    let mut f = left;
    let ghost fa = fragment_accept(f);
    let ghost rfa = fragment_accept(*right);
    let la = f.accept_state();
    let ra = right.accept_state();
    proof {
        lemma_frag_acc(f, fa);
        lemma_frag_acc(*right, rfa);
    }
    let base = f.states.len();
    let rn = right.states.len();
    let ts0 = &right.states[0].transitions;
    let mut k: usize = 0;
    while k < ts0.len()
        invariant
            right.wf(),
            rv == nview(*right),
            ts0 == &right.states@[0].transitions,
            f.len() == base,
            f.start_state == 0,
            forall|i: int| 0 <= i < f.len() ==> (#[trigger] f.states@[i]).id == i,
            base + rn < usize::MAX,
            rn == right.len(),
            la < base,
            base == lv.len(),
            k <= ts0@.len(),
            nview(f) == lv.update(la as int, (lv[la as int].0, lv[la as int].1 + spliced(rv[0].1.subrange(0, k as int), la as int, base as int))),
        decreases ts0.len() - k,
    {
        let t = ts0[k];
        assert(t == right.edge(0, k as int));
        let to = splice_target(t.to_state, la, base);
        f.add_transition(la, to, t.symbol);
        proof {
            assert(rv[0].1 == ts0@);
            assert(spliced(rv[0].1.subrange(0, k + 1), la as int, base as int) =~= spliced(rv[0].1.subrange(0, k as int), la as int, base as int).push(Transition { symbol: t.symbol, to_state: to }));
            assert(nview(f) =~= lv.update(la as int, (lv[la as int].0, lv[la as int].1 + spliced(rv[0].1.subrange(0, k + 1), la as int, base as int))));
        }
        k += 1;
    }
    proof {
        assert(rv[0].1.subrange(0, k as int) =~= rv[0].1);
        assert(nview(f) =~= concat_partial(lv, la as int, rv, 0, 0));
    }
    let mut j: usize = 1;
    while j < rn
        invariant
            right.wf(),
            rv == nview(*right),
            f.start_state == 0,
            forall|i: int| 0 <= i < f.len() ==> (#[trigger] f.states@[i]).id == i,
            base + rn < usize::MAX,
            rn == right.len(),
            la < base,
            base == lv.len(),
            1 <= j <= rn,
            f.len() == base + j - 1,
            nview(f) == concat_partial(lv, la as int, rv, j - 1, rv[j - 1].1.len() as int),
        decreases rn - j,
    {
        let id = f.add_state(false);
        proof {
            let want = concat_partial(lv, la as int, rv, j as int, 0);
            assert forall|i: int| 0 <= i < want.len() implies nview(f)[i] == want[i] by {
                if i >= base && i < base + j - 1 {
                    let q = i - base;
                    if q == j - 2 {
                        assert(rv[q + 1].1.subrange(0, rv[q + 1].1.len() as int) =~= rv[q + 1].1);
                    }
                }
                if i == base + j - 1 {
                    assert(spliced(rv[j as int].1.subrange(0, 0), la as int, base as int) =~= Seq::<Transition>::empty());
                }
            }
            assert(nview(f) =~= want);
        }
        let ts = &right.states[j].transitions;
        let mut k: usize = 0;
        while k < ts.len()
            invariant
                right.wf(),
                rv == nview(*right),
                ts == &right.states@[j as int].transitions,
                f.start_state == 0,
                forall|i: int| 0 <= i < f.len() ==> (#[trigger] f.states@[i]).id == i,
                base + rn < usize::MAX,
                rn == right.len(),
                la < base,
                base == lv.len(),
                1 <= j < rn,
                id == base + j - 1,
                f.len() == base + j,
                k <= ts@.len(),
                nview(f) == concat_partial(lv, la as int, rv, j as int, k as int),
            decreases ts.len() - k,
        {
            let t = ts[k];
            assert(t == right.edge(j as int, k as int));
            let to = splice_target(t.to_state, la, base);
            f.add_transition(id, to, t.symbol);
            proof {
                assert(rv[j as int].1 == ts@);
                assert(spliced(rv[j as int].1.subrange(0, k + 1), la as int, base as int) =~= spliced(rv[j as int].1.subrange(0, k as int), la as int, base as int).push(Transition { symbol: t.symbol, to_state: to }));
                assert(nview(f) =~= concat_partial(lv, la as int, rv, j as int, k + 1));
            }
            k += 1;
        }
        j += 1;
    }
    let acc = splice_target(ra, la, base);
    f.set_accept_state(acc);
    proof {
        let spec = concat_spec(frag_view(left), frag_view(*right));
        lemma_frag_acc(left, fa);
        assert(la == fa);
        assert(ra == rfa);
        assert forall|i: int| 0 <= i < spec.0.len() implies nview(f)[i] == spec.0[i] by {
            if i >= base {
                assert(rv[i - base + 1].1.subrange(0, rv[i - base + 1].1.len() as int) =~= rv[i - base + 1].1);
            }
        }
        assert(nview(f) =~= spec.0);
        assert forall|i: int, q: int| 0 <= i < f.len() && 0 <= q < f.n_edges(i) implies (#[trigger] f.edge(i, q)).to_state < f.len() by {
            assert(nview(f)[i].1[q] == f.edge(i, q));
            if i < base {
                if i == la {
                    if q >= lv[i].1.len() {
                        let p = q - lv[i].1.len();
                        assert(right.edge(0, p).to_state < rn);
                    } else {
                        assert(left.edge(i, q).to_state < base);
                    }
                } else {
                    assert(left.edge(i, q).to_state < base);
                }
            } else {
                assert(right.edge(i - base + 1, q).to_state < rn);
            }
        }
        assert(only_accepting(f, acc as int));
        lemma_frag_acc(f, acc as int);
    }
    f
}

/// Alternation: a new start state with epsilon edges into copies of both operands.
fn alternation(left: &NFA, right: &NFA) -> (r: NFA)
    requires
        is_fragment(*left),
        is_fragment(*right),
        left.len() + right.len() + 2 < usize::MAX,
    ensures
        is_fragment(r),
        r.len() == left.len() + right.len() + 2,
        frag_view(r) == alt_spec(frag_view(*left), frag_view(*right)),
{
    let mut f = NFA::new();
    f.union(left, right);
    assert(only_accepting(f, f.len() - 1));
    proof {
        let la = fragment_accept(*left);
        let ra = fragment_accept(*right);
        lemma_frag_acc(*left, la);
        lemma_frag_acc(*right, ra);
        lemma_frag_acc(f, f.len() - 1);
        let spec = alt_spec(frag_view(*left), frag_view(*right)).0;
        let n1 = left.len();
        assert forall|i: int| 0 <= i < spec.len() implies nview(f)[i] == spec[i] by {
            if i == 0 {
                assert(nview(f)[i].1 =~= spec[i].1);
            } else if i <= n1 {
                assert(nview(*left)[i - 1].0 <==> i - 1 == la);
                assert(nview(f)[i].1 =~= spec[i].1);
            } else if i <= n1 + right.len() {
                assert(nview(*right)[i - 1 - n1].0 <==> i - 1 - n1 == ra);
                assert(nview(f)[i].1 =~= spec[i].1);
            } else {
                assert(nview(f)[i].1 =~= spec[i].1);
            }
        }
        assert(nview(f) =~= spec);
    }
    f
}

/// Kleene star: new start and accepting states around a copy of `inner`, with edges
/// to skip it and to repeat it.
fn star(inner: &NFA) -> (r: NFA)
    requires
        is_fragment(*inner),
        inner.len() + 2 < usize::MAX,
    ensures
        is_fragment(r),
        r.len() == inner.len() + 2,
        frag_view(r) == star_spec(frag_view(*inner)),
{
    proof {
        fragment_accept(*inner);
    }
    let ia = inner.accept_state();
    let mut f = NFA::new();
    f.copy_states_and_transitions(inner, 1);
    let acc = f.add_state(true);
    f.add_epsilon_transition(0, inner.start_state + 1);
    f.add_epsilon_transition(0, acc);
    f.add_epsilon_transition(ia + 1, acc);
    f.add_epsilon_transition(ia + 1, inner.start_state + 1);
    f.set_accept_state(acc);
    assert(only_accepting(f, acc as int));
    proof {
        let fa = fragment_accept(*inner);
        lemma_frag_acc(*inner, fa);
        assert(ia == fa);
        lemma_frag_acc(f, acc as int);
        let spec = star_spec(frag_view(*inner)).0;
        let iv = nview(*inner);
        assert forall|i: int| 0 <= i < spec.len() implies nview(f)[i] == spec[i] by {
            if 1 <= i <= iv.len() {
                if i - 1 == fa {
                    assert(nview(f)[i].1 =~= spec[i].1);
                } else {
                    assert(nview(f)[i].1 =~= spec[i].1);
                }
            } else if i == 0 {
                assert(nview(f)[i].1 =~= spec[i].1);
            } else {
                assert(nview(f)[i].1 =~= spec[i].1);
            }
        }
        assert(nview(f) =~= spec);
    }
    f
}

/// Builds an NFA from a postfix token stream by Thompson's construction.
pub fn build_nfa(tokens: &Vec<Token>) -> (r: Result<NFA, MalformedExpression>)
    requires
        tokens@.len() <= usize::MAX / 4,
    ensures
        r is Ok <==> reduces(tokens@),
        r matches Ok(nfa) ==> is_fragment(nfa) && build_spec(tokens@) == Some(seq![frag_view(nfa)]),
{
    let mut stack: Vec<NFA> = Vec::new();
    let mut i: usize = 0;
    while i < tokens.len()
        invariant
            tokens@.len() <= usize::MAX / 4,
            i <= tokens@.len(),
            stack_depth(tokens@.subrange(0, i as int)) == Some(stack@.len() as int),
            forall|q: int| 0 <= q < stack@.len() ==> is_fragment(#[trigger] stack@[q]),
            total_states(stack@) <= 2 * i,
            build_spec(tokens@.subrange(0, i as int)) == Some(stack@.map_values(|f: NFA| frag_view(f))),
        decreases tokens.len() - i,
    {
        proof {
            assert(tokens@.subrange(0, i + 1).drop_last() =~= tokens@.subrange(0, i as int));
            lemma_total_nonneg(stack@);
        }
        let ghost s0 = stack@;
        match tokens[i] {
            Token::Literal(c) => {
                stack.push(literal(c));
                assert(stack@.drop_last() =~= s0);
                assert(stack@.map_values(|f: NFA| frag_view(f)) =~= s0.map_values(|f: NFA| frag_view(f)).push(literal_spec(c)));
            },
            Token::Star => {
                if stack.len() < 1 {
                    proof { lemma_depth_none_stays(tokens@, i + 1); }
                    return Err(MalformedExpression);
                }
                let f = stack.pop().unwrap();
                proof {
                    lemma_total_nonneg(stack@);
                    assert(total_states(s0) == total_states(stack@) + f.len());
                    assert(is_fragment(s0[s0.len() - 1]));
                }
                let s = star(&f);
                let ghost s1 = stack@;
                stack.push(s);
                assert(stack@.drop_last() =~= s1);
                proof {
                    let m0 = s0.map_values(|f: NFA| frag_view(f));
                    assert(s1 =~= s0.drop_last());
                    assert(m0.last() == frag_view(f));
                    assert(stack@.map_values(|f: NFA| frag_view(f)) =~= m0.drop_last().push(star_spec(m0.last())));
                }
            },
            tok => {
                if stack.len() < 2 {
                    proof { lemma_depth_none_stays(tokens@, i + 1); }
                    return Err(MalformedExpression);
                }
                let right = stack.pop().unwrap();
                let ghost s_mid = stack@;
                let left = stack.pop().unwrap();
                proof {
                    lemma_total_nonneg(stack@);
                    assert(total_states(s0) == total_states(s_mid) + right.len());
                    assert(total_states(s_mid) == total_states(stack@) + left.len());
                    assert(is_fragment(s0[s0.len() - 1]));
                    assert(is_fragment(s_mid[s_mid.len() - 1]));
                }
                let ghost lview = frag_view(left);
                let ghost rview = frag_view(right);
                let c = if tok == Token::Concat { concat(left, &right) } else { alternation(&left, &right) };
                let ghost s1 = stack@;
                stack.push(c);
                assert(stack@.drop_last() =~= s1);
                proof {
                    let m0 = s0.map_values(|f: NFA| frag_view(f));
                    assert(s_mid =~= s0.drop_last());
                    assert(s1 =~= s0.drop_last().drop_last());
                    assert(m0.last() == rview);
                    assert(m0[m0.len() - 2] == lview);
                    if tok == Token::Concat {
                        assert(stack@.map_values(|f: NFA| frag_view(f)) =~= m0.drop_last().drop_last().push(concat_spec(lview, rview)));
                    } else {
                        assert(stack@.map_values(|f: NFA| frag_view(f)) =~= m0.drop_last().drop_last().push(alt_spec(lview, rview)));
                    }
                }
            },
        }
        i += 1;
    }
    assert(tokens@.subrange(0, i as int) =~= tokens@);
    if stack.len() != 1 {
        return Err(MalformedExpression);
    }
    let ghost s_end = stack@;
    let r = stack.pop().unwrap();
    assert(s_end.map_values(|f: NFA| frag_view(f)) =~= seq![frag_view(r)]);
    Ok(r)
}


/// The symbols on the edges of a fragment view.
pub open spec fn view_labels(v: Seq<(bool, Seq<Transition>)>) -> Set<char> {
    Set::new(|c: char| exists|i: int, k: int| 0 <= i < v.len() && 0 <= k < v[i].1.len() && (#[trigger] v[i].1[k]).symbol == Some(c))
}

/// The symbols of a stack of fragment views.
pub open spec fn stack_labels(st: Seq<FragView>) -> Set<char> {
    Set::new(|c: char| exists|j: int| 0 <= j < st.len() && #[trigger] view_labels(st[j].0).contains(c))
}

/// The literals of a token stream.
pub open spec fn literals(t: Seq<Token>) -> Set<char> {
    Set::new(|c: char| exists|i: int| 0 <= i < t.len() && t[i] == Token::Literal(c))
}

/// A fragment view with its accepting state among its states.
pub open spec fn view_ok(f: FragView) -> bool {
    f.0.len() >= 1 && 0 <= f.1 < f.0.len()
}

proof fn lemma_shifted_labels(v: Seq<(bool, Seq<Transition>)>, off: int, i: int, k: int)
    requires
        0 <= i < v.len(),
        0 <= k < v[i].1.len(),
    ensures
        shifted(v, off)[i].1[k].symbol == v[i].1[k].symbol,
        shifted(v, off)[i].1.len() == v[i].1.len(),
{
}

proof fn lemma_concat_labels(l: FragView, r: FragView)
    requires
        view_ok(l),
        view_ok(r),
    ensures
        view_ok(concat_spec(l, r)),
        view_labels(concat_spec(l, r).0) == view_labels(l.0).union(view_labels(r.0)),
{
    let (lv, la) = l;
    let (rv, ra) = r;
    let base = lv.len() as int;
    let v = concat_spec(l, r).0;
    assert forall|c: char| view_labels(v).contains(c) <==> view_labels(lv).union(view_labels(rv)).contains(c) by {
        if view_labels(v).contains(c) {
            let (i, k) = choose|i: int, k: int| 0 <= i < v.len() && 0 <= k < v[i].1.len() && (#[trigger] v[i].1[k]).symbol == Some(c);
            if i < base {
                if i == la && k >= lv[i].1.len() {
                    let q = k - lv[i].1.len();
                    assert(rv[0].1[q].symbol == Some(c));
                    assert(view_labels(rv).contains(c));
                } else {
                    assert(lv[i].1[k].symbol == Some(c));
                    assert(view_labels(lv).contains(c));
                }
            } else {
                assert(rv[i - base + 1].1[k].symbol == Some(c));
                assert(view_labels(rv).contains(c));
            }
        }
        if view_labels(lv).contains(c) {
            let (i, k) = choose|i: int, k: int| 0 <= i < lv.len() && 0 <= k < lv[i].1.len() && (#[trigger] lv[i].1[k]).symbol == Some(c);
            assert(v[i].1[k] == lv[i].1[k]);
        }
        if view_labels(rv).contains(c) {
            let (i, k) = choose|i: int, k: int| 0 <= i < rv.len() && 0 <= k < rv[i].1.len() && (#[trigger] rv[i].1[k]).symbol == Some(c);
            if i == 0 {
                assert(v[la].1[lv[la].1.len() + k].symbol == Some(c));
            } else {
                assert(v[base + i - 1].1[k].symbol == Some(c));
            }
        }
    }
    assert(view_labels(v) =~= view_labels(lv).union(view_labels(rv)));
}

proof fn lemma_alt_labels(l: FragView, r: FragView)
    requires
        view_ok(l),
        view_ok(r),
    ensures
        view_ok(alt_spec(l, r)),
        view_labels(alt_spec(l, r).0) == view_labels(l.0).union(view_labels(r.0)),
{
    let (lv, la) = l;
    let (rv, ra) = r;
    let n1 = lv.len() as int;
    let v = alt_spec(l, r).0;
    assert forall|c: char| view_labels(v).contains(c) <==> view_labels(lv).union(view_labels(rv)).contains(c) by {
        if view_labels(v).contains(c) {
            let (i, k) = choose|i: int, k: int| 0 <= i < v.len() && 0 <= k < v[i].1.len() && (#[trigger] v[i].1[k]).symbol == Some(c);
            if 1 <= i <= n1 {
                if k < lv[i - 1].1.len() {
                    lemma_shifted_labels(lv, 1, i - 1, k);
                    assert(view_labels(lv).contains(c));
                }
            } else if n1 < i <= n1 + rv.len() {
                if k < rv[i - 1 - n1].1.len() {
                    lemma_shifted_labels(rv, 1 + n1, i - 1 - n1, k);
                    assert(view_labels(rv).contains(c));
                }
            }
        }
        if view_labels(lv).contains(c) {
            let (i, k) = choose|i: int, k: int| 0 <= i < lv.len() && 0 <= k < lv[i].1.len() && (#[trigger] lv[i].1[k]).symbol == Some(c);
            lemma_shifted_labels(lv, 1, i, k);
            assert(v[i + 1].1[k].symbol == Some(c));
        }
        if view_labels(rv).contains(c) {
            let (i, k) = choose|i: int, k: int| 0 <= i < rv.len() && 0 <= k < rv[i].1.len() && (#[trigger] rv[i].1[k]).symbol == Some(c);
            lemma_shifted_labels(rv, 1 + n1, i, k);
            assert(v[i + 1 + n1].1[k].symbol == Some(c));
        }
    }
    assert(view_labels(v) =~= view_labels(lv).union(view_labels(rv)));
}

proof fn lemma_star_labels(f: FragView)
    requires
        view_ok(f),
    ensures
        view_ok(star_spec(f)),
        view_labels(star_spec(f).0) == view_labels(f.0),
{
    let (fv, fa) = f;
    let n = fv.len() as int;
    let v = star_spec(f).0;
    assert forall|c: char| view_labels(v).contains(c) <==> view_labels(fv).contains(c) by {
        if view_labels(v).contains(c) {
            let (i, k) = choose|i: int, k: int| 0 <= i < v.len() && 0 <= k < v[i].1.len() && (#[trigger] v[i].1[k]).symbol == Some(c);
            if 1 <= i <= n {
                if k < fv[i - 1].1.len() {
                    lemma_shifted_labels(fv, 1, i - 1, k);
                }
            }
        }
        if view_labels(fv).contains(c) {
            let (i, k) = choose|i: int, k: int| 0 <= i < fv.len() && 0 <= k < fv[i].1.len() && (#[trigger] fv[i].1[k]).symbol == Some(c);
            lemma_shifted_labels(fv, 1, i, k);
            assert(v[i + 1].1[k].symbol == Some(c));
        }
    }
    assert(view_labels(v) =~= view_labels(fv));
}

proof fn lemma_build_labels(t: Seq<Token>)
    ensures
        build_spec(t) matches Some(st) ==> stack_labels(st) == literals(t) && forall|j: int| 0 <= j < st.len() ==> view_ok(#[trigger] st[j]),
    decreases t.len(),
{
    if t.len() > 0 {
        let p = t.drop_last();
        lemma_build_labels(p);
        match build_spec(p) {
            None => {},
            Some(st) => {
                let lits_p = literals(p);
                assert forall|c: char| literals(t).contains(c) <==> (lits_p.contains(c) || t.last() == Token::Literal(c)) by {
                    if literals(t).contains(c) {
                        let i = choose|i: int| 0 <= i < t.len() && t[i] == Token::Literal(c);
                        if i < p.len() {
                            assert(p[i] == t[i]);
                        }
                    }
                    if lits_p.contains(c) {
                        let i = choose|i: int| 0 <= i < p.len() && p[i] == Token::Literal(c);
                        assert(t[i] == p[i]);
                    }
                }
                match build_spec(t) {
                    None => {},
                    Some(st2) => {
                        let n = st.len() as int;
                        match t.last() {
                            Token::Literal(c) => {
                                let lv = literal_spec(c).0;
                                assert(view_labels(lv) =~= set![c]) by {
                                    assert(lv[0].1[0].symbol == Some(c));
                                }
                                assert(st2 == st.push(literal_spec(c)));
                                assert forall|x: char| stack_labels(st2).contains(x) <==> literals(t).contains(x) by {
                                    if stack_labels(st2).contains(x) {
                                        let j = choose|j: int| 0 <= j < st2.len() && #[trigger] view_labels(st2[j].0).contains(x);
                                        if j < n {
                                            assert(stack_labels(st).contains(x));
                                        }
                                    }
                                    if lits_p.contains(x) {
                                        assert(stack_labels(st).contains(x));
                                        let j = choose|j: int| 0 <= j < st.len() && #[trigger] view_labels(st[j].0).contains(x);
                                        assert(st2[j] == st[j]);
                                    }
                                    if x == c {
                                        assert(view_labels(st2[n].0).contains(x));
                                    }
                                }
                                assert(stack_labels(st2) =~= literals(t));
                            },
                            Token::Star => {
                                let f = st.last();
                                lemma_star_labels(f);
                                assert(st2 == st.drop_last().push(star_spec(f)));
                                assert forall|x: char| stack_labels(st2).contains(x) <==> stack_labels(st).contains(x) by {
                                    if stack_labels(st2).contains(x) {
                                        let j = choose|j: int| 0 <= j < st2.len() && #[trigger] view_labels(st2[j].0).contains(x);
                                        if j < n - 1 {
                                            assert(st2[j] == st[j]);
                                        } else {
                                            assert(view_labels(st[n - 1].0).contains(x));
                                        }
                                    }
                                    if stack_labels(st).contains(x) {
                                        let j = choose|j: int| 0 <= j < st.len() && #[trigger] view_labels(st[j].0).contains(x);
                                        if j < n - 1 {
                                            assert(st2[j] == st[j]);
                                        } else {
                                            assert(view_labels(st2[n - 1].0).contains(x));
                                        }
                                    }
                                }
                                assert(stack_labels(st2) =~= literals(t));
                            },
                            tok => {
                                let l = st[n - 2];
                                let r = st[n - 1];
                                let g = if tok == Token::Concat { concat_spec(l, r) } else { alt_spec(l, r) };
                                if tok == Token::Concat {
                                    lemma_concat_labels(l, r);
                                } else {
                                    lemma_alt_labels(l, r);
                                }
                                assert(st2 == st.drop_last().drop_last().push(g));
                                assert forall|x: char| stack_labels(st2).contains(x) <==> stack_labels(st).contains(x) by {
                                    if stack_labels(st2).contains(x) {
                                        let j = choose|j: int| 0 <= j < st2.len() && #[trigger] view_labels(st2[j].0).contains(x);
                                        if j < n - 2 {
                                            assert(st2[j] == st[j]);
                                        } else if view_labels(l.0).contains(x) {
                                            assert(view_labels(st[n - 2].0).contains(x));
                                        } else {
                                            assert(view_labels(st[n - 1].0).contains(x));
                                        }
                                    }
                                    if stack_labels(st).contains(x) {
                                        let j = choose|j: int| 0 <= j < st.len() && #[trigger] view_labels(st[j].0).contains(x);
                                        if j < n - 2 {
                                            assert(st2[j] == st[j]);
                                        } else {
                                            assert(view_labels(st2[n - 2].0).contains(x));
                                        }
                                    }
                                }
                                assert(stack_labels(st2) =~= literals(t));
                            },
                        }
                    },
                }
            },
        }
    }
}

/// The alphabet of the automaton built from a token stream is the set of literals in
/// the stream.
pub proof fn law_alphabet_is_literals(tokens: Seq<Token>, nfa: NFA)
    requires
        build_spec(tokens) == Some(seq![frag_view(nfa)]),
    ensures
        forall|c: char| is_label(nfa, c) <==> exists|i: int| 0 <= i < tokens.len() && tokens[i] == Token::Literal(c),
{
    lemma_build_labels(tokens);
    let st = seq![frag_view(nfa)];
    assert forall|c: char| is_label(nfa, c) <==> literals(tokens).contains(c) by {
        assert(stack_labels(st).contains(c) <==> view_labels(nview(nfa)).contains(c)) by {
            if stack_labels(st).contains(c) {
                let j = choose|j: int| 0 <= j < st.len() && #[trigger] view_labels(st[j].0).contains(c);
            }
            if view_labels(nview(nfa)).contains(c) {
                assert(view_labels(st[0].0).contains(c));
            }
        }
        if is_label(nfa, c) {
            let (i, k) = choose|i: int, k: int| 0 <= i < nfa.len() && 0 <= k < nfa.n_edges(i) && (#[trigger] nfa.edge(i, k)).symbol == Some(c);
            assert(nview(nfa)[i].1[k].symbol == Some(c));
        }
        if view_labels(nview(nfa)).contains(c) {
            let (i, k) = choose|i: int, k: int| 0 <= i < nview(nfa).len() && 0 <= k < nview(nfa)[i].1.len() && (#[trigger] nview(nfa)[i].1[k]).symbol == Some(c);
            assert(nfa.edge(i, k).symbol == Some(c));
        }
    }
}

} // verus!
