use vstd::prelude::*;
use crate::text::{decimal, push_char, push_decimal, push_text};

verus! {

/// A node of a prefix tree: its edges (in increasing order of symbol), whether a word
/// ends here, how many inserted words pass through it, and its depth.
#[derive(Clone, Debug)]
pub struct TrieNode {
    pub children: Vec<(char, usize)>,
    pub is_end: bool,
    pub count: usize,
    pub depth: usize,
}

/// A prefix tree of words over an arena of nodes; node 0 is the root.
pub struct Trie {
    pub nodes: Vec<TrieNode>,
    /// The word spelled from the root to each node.
    pub paths: Ghost<Seq<Seq<char>>>,
    /// The parent of each node but the root.
    pub parent: Ghost<Seq<int>>,
    /// The words inserted so far, in order.
    pub inserted: Ghost<Seq<Seq<char>>>,
}

/// How many of the words `ws` start with `p`.
pub open spec fn passing(ws: Seq<Seq<char>>, p: Seq<char>) -> nat
    decreases ws.len(),
{
    if ws.len() == 0 {
        0
    } else {
        passing(ws.drop_last(), p) + if p.is_prefix_of(ws.last()) { 1nat } else { 0nat }
    }
}

/// `n`, or the largest `usize` when `n` is larger.
pub open spec fn saturated(n: nat) -> nat {
    if n < usize::MAX { n } else { usize::MAX as nat }
}

proof fn lemma_passing_none(ws: Seq<Seq<char>>, p: Seq<char>)
    requires
        forall|k: int| 0 <= k < ws.len() ==> !p.is_prefix_of(#[trigger] ws[k]),
    ensures
        passing(ws, p) == 0,
    decreases ws.len(),
{
    if ws.len() > 0 {
        assert(!p.is_prefix_of(ws[ws.len() - 1]));
        lemma_passing_none(ws.drop_last(), p);
    }
}

impl TrieNode {
    /// A node at `depth` with no children, no word ending at it, and a count of zero.
    pub fn new(depth: usize) -> (r: TrieNode)
        ensures
            r.children@.len() == 0,
            !r.is_end,
            r.count == 0,
            r.depth == depth,
    {
        TrieNode { children: Vec::new(), is_end: false, count: 0, depth }
    }
}

/// Inserts the edge `(c, j)` into a list of edges kept in increasing order of symbol.
fn insert_child(v: &mut Vec<(char, usize)>, c: char, j: usize)
    requires
        forall|a: int, b: int| 0 <= a < b < old(v)@.len() ==> old(v)@[a].0 < old(v)@[b].0,
        forall|a: int| 0 <= a < old(v)@.len() ==> old(v)@[a].0 != c,
    ensures
        forall|a: int, b: int| 0 <= a < b < final(v)@.len() ==> final(v)@[a].0 < final(v)@[b].0,
        forall|e: (char, usize)| final(v)@.contains(e) <==> (old(v)@.contains(e) || e == (c, j)),
{
    let mut pos: usize = 0;
    while pos < v.len() && v[pos].0 < c
        invariant
            pos <= v@.len(),
            forall|a: int| 0 <= a < pos ==> v@[a].0 < c,
        decreases v.len() - pos,
    {
        pos += 1;
    }
    let ghost before = v@;
    assert(before == old(v)@);
    v.insert(pos, (c, j));
    proof {
        assert(v@ =~= before.subrange(0, pos as int).push((c, j)) + before.subrange(pos as int, before.len() as int));
        assert forall|e: (char, usize)| v@.contains(e) <==> (before.contains(e) || e == (c, j)) by {
            if before.contains(e) {
                let i = choose|i: int| 0 <= i < before.len() && before[i] == e;
                if i < pos {
                    assert(v@[i] == e);
                } else {
                    assert(v@[i + 1] == e);
                }
            }
            if e == (c, j) {
                assert(v@[pos as int] == e);
            }
            if v@.contains(e) && e != (c, j) {
                let i = choose|i: int| 0 <= i < v@.len() && v@[i] == e;
                if i < pos {
                    assert(before[i] == e);
                } else if i > pos {
                    assert(before[i - 1] == e);
                }
            }
        }
        assert forall|a: int, b: int| 0 <= a < b < v@.len() implies v@[a].0 < v@[b].0 by {
            if b < pos {
            } else if b == pos {
            } else if a < pos {
                assert(v@[b] == before[b - 1]);
                if pos < before.len() {
                    assert(before[pos as int].0 >= c);
                    if b - 1 > pos {
                        assert(before[pos as int].0 < before[b - 1].0);
                    }
                }
            } else if a == pos {
                assert(v@[b] == before[b - 1]);
                assert(before[pos as int].0 >= c);
                assert(before[pos as int].0 != c);
                if b - 1 > pos {
                    assert(before[pos as int].0 < before[b - 1].0);
                }
            } else {
                assert(v@[a] == before[a - 1]);
                assert(v@[b] == before[b - 1]);
            }
        }
    }
}

impl Trie {
    /// The arena is a tree whose edges are ordered and whose nodes spell distinct words;
    /// the counts, end marks and nodes agree with the inserted words.
    pub open spec fn wf(&self) -> bool {
        self.shape_ok() && self.content_ok()
    }

    /// The counts, end marks and nodes agree with the inserted words.
    pub open spec fn content_ok(&self) -> bool {
        let n = self.nodes@.len() as int;
        let paths = self.paths@;
        &&& self.nodes@[0].count == 0
        &&& forall|j: int| 1 <= j < n ==> (#[trigger] self.nodes@[j]).count == saturated(passing(self.inserted@, paths[j]))
        &&& forall|j: int| 0 <= j < n ==> ((#[trigger] self.nodes@[j]).is_end <==> self.inserted@.contains(paths[j]))
        &&& forall|k: int, l: int| 0 <= k < self.inserted@.len() && 0 <= l <= self.inserted@[k].len() ==> #[trigger] self.has_node(
            self.inserted@[k].subrange(0, l),
        )
    }

    /// The arena is a tree whose edges are ordered and whose nodes spell distinct words.
    pub open spec fn shape_ok(&self) -> bool {
        let n = self.nodes@.len() as int;
        let paths = self.paths@;
        let parent = self.parent@;
        &&& n >= 1
        &&& paths.len() == n
        &&& parent.len() == n
        &&& paths[0] == Seq::<char>::empty()
        &&& forall|j: int| 0 <= j < n ==> (#[trigger] self.nodes@[j]).depth == paths[j].len()
        &&& forall|j: int| 1 <= j < n ==> 0 <= #[trigger] parent[j] < j && paths[j].len() >= 1
            && paths[j].drop_last() == paths[parent[j]]
            && self.nodes@[parent[j]].children@.contains((paths[j].last(), j as usize))
        &&& forall|i: int, k: int| 0 <= i < n && 0 <= k < self.nodes@[i].children@.len() ==> {
            let e = #[trigger] self.nodes@[i].children@[k];
            i < e.1 < n && parent[e.1 as int] == i && paths[e.1 as int] == paths[i].push(e.0)
        }
        &&& forall|i: int, a: int, b: int| 0 <= i < n && 0 <= a < b < self.nodes@[i].children@.len()
            ==> (#[trigger] self.nodes@[i].children@[a]).0 < (#[trigger] self.nodes@[i].children@[b]).0
        &&& forall|a: int, b: int| 0 <= a < n && 0 <= b < n && a != b ==> #[trigger] paths[a] != #[trigger] paths[b]
    }

    /// Some node spells `p`.
    pub open spec fn has_node(&self, p: Seq<char>) -> bool {
        exists|j: int| 0 <= j < self.nodes@.len() && self.paths@[j] == p
    }

    /// `w` was inserted.
    pub open spec fn has_word(&self, w: Seq<char>) -> bool {
        exists|j: int| 0 <= j < self.nodes@.len() && self.paths@[j] == w && #[trigger] self.nodes@[j].is_end
    }

    /// An empty tree: the root alone.
    pub fn new() -> (r: Trie)
        ensures
            r.wf(),
            forall|w: Seq<char>| !r.has_word(w),
            r.inserted@ == Seq::<Seq<char>>::empty(),
    {
        let mut nodes: Vec<TrieNode> = Vec::new();
        nodes.push(TrieNode::new(0));
        let ghost paths = seq![Seq::<char>::empty()];
        let ghost parent = seq![0int];
        let ghost inserted = Seq::<Seq<char>>::empty();
        let r = Trie { nodes, paths: Ghost(paths), parent: Ghost(parent), inserted: Ghost(inserted) };
        r
    }

    /// The child of `node` on `c`.
    fn find_child(&self, node: usize, c: char) -> (r: Option<usize>)
        requires
            self.shape_ok(),
            node < self.nodes@.len(),
        ensures
            match r {
                Some(j) => self.nodes@[node as int].children@.contains((c, j)),
                None => forall|k: int| 0 <= k < self.nodes@[node as int].children@.len()
                    ==> (#[trigger] self.nodes@[node as int].children@[k]).0 != c,
            },
    {
        let ch = &self.nodes[node].children;
        let mut k: usize = 0;
        while k < ch.len()
            invariant
                ch == &self.nodes@[node as int].children,
                k <= ch@.len(),
                forall|q: int| 0 <= q < k ==> (#[trigger] ch@[q]).0 != c,
            decreases ch.len() - k,
        {
            if ch[k].0 == c {
                assert(ch@[k as int] == (c, ch@[k as int].1));
                return Some(ch[k].1);
            }
            k += 1;
        }
        None
    }

    /// Adds `word`, counting it on every node of its path below the root.
    pub fn insert(&mut self, word: &str)
        requires
            old(self).wf(),
        ensures
            final(self).wf(),
            forall|w: Seq<char>| final(self).has_word(w) <==> (old(self).has_word(w) || w == word@),
            final(self).inserted@ == old(self).inserted@.push(word@),
    {
        let n = word.unicode_len();
        let ghost ins = self.inserted@;
        let ghost n0 = self.nodes@.len();
        let mut node: usize = 0;
        let mut i: usize = 0;
        assert(word@.subrange(0, 0) =~= Seq::<char>::empty());
        assert(self.paths@.subrange(0, n0 as int) =~= old(self).paths@);
        while i < n
            invariant
                self.shape_ok(),
                n == word@.len(),
                i <= n,
                node < self.nodes@.len(),
                self.paths@[node as int] == word@.subrange(0, i as int),
                self.inserted@ == ins,
                ins == old(self).inserted@,
                self.nodes@[0].count == 0,
                forall|j: int| 1 <= j < self.nodes@.len() ==> (#[trigger] self.nodes@[j]).count == saturated(passing(ins, self.paths@[j])
                    + if self.paths@[j].len() <= i && self.paths@[j].is_prefix_of(word@) { 1nat } else { 0nat }),
                forall|j: int| 0 <= j < self.nodes@.len() ==> ((#[trigger] self.nodes@[j]).is_end <==> ins.contains(self.paths@[j])),
                forall|k: int, l: int| 0 <= k < ins.len() && 0 <= l <= ins[k].len() ==> #[trigger] self.has_node(ins[k].subrange(0, l)),
                forall|l: int| 0 <= l <= i ==> #[trigger] self.has_node(word@.subrange(0, l)),
                self.nodes@.len() >= n0,
                self.paths@.subrange(0, n0 as int) == old(self).paths@,
                forall|j: int| 0 <= j < n0 ==> (#[trigger] self.nodes@[j]).is_end == old(self).nodes@[j].is_end,
                forall|j: int| n0 <= j < self.nodes@.len() ==> !(#[trigger] self.nodes@[j]).is_end,
                n0 == old(self).nodes@.len(),
                old(self).wf(),
            decreases n - i,
        {
            let c = word.get_char(i);
            let ghost prefix = word@.subrange(0, i as int + 1);
            let ghost t0 = *self;
            assert(prefix =~= self.paths@[node as int].push(c));
            match self.find_child(node, c) {
                Some(j) => {
                    let ghost k = choose|k: int| 0 <= k < self.nodes@[node as int].children@.len()
                        && self.nodes@[node as int].children@[k] == (c, j);
                    assert(self.nodes@[node as int].children@[k] == (c, j));
                    node = j;
                },
                None => {
                    let j = self.nodes.len();
                    proof {
                        assert forall|q: int| 0 <= q < self.nodes@.len() implies self.paths@[q] != prefix by {
                            if self.paths@[q] == prefix {
                                if q == 0 {
                                    assert(self.paths@[0].len() == 0);
                                } else {
                                    let p = self.parent@[q];
                                    assert(self.paths@[q].drop_last() =~= self.paths@[node as int]);
                                    assert(self.paths@[p] == self.paths@[node as int]);
                                    assert(p == node);
                                    assert(self.nodes@[node as int].children@.contains((c, q as usize)));
                                    let kk = choose|kk: int| 0 <= kk < self.nodes@[node as int].children@.len()
                                        && self.nodes@[node as int].children@[kk] == (c, q as usize);
                                    assert(self.nodes@[node as int].children@[kk].0 != c);
                                }
                            }
                        }
                        assert forall|k: int| 0 <= k < ins.len() implies !prefix.is_prefix_of(#[trigger] ins[k]) by {
                            if prefix.is_prefix_of(ins[k]) {
                                assert(ins[k].subrange(0, i + 1) =~= prefix);
                                assert(self.has_node(ins[k].subrange(0, i + 1)));
                            }
                        }
                        lemma_passing_none(ins, prefix);
                        assert(!ins.contains(prefix)) by {
                            if ins.contains(prefix) {
                                let k = choose|k: int| 0 <= k < ins.len() && ins[k] == prefix;
                                assert(prefix.is_prefix_of(ins[k]));
                            }
                        }
                    }
                    let ghost before = *self;
                    self.nodes.push(TrieNode::new(i + 1));
                    insert_child(&mut self.nodes[node].children, c, j);
                    proof {
                        self.paths@ = self.paths@.push(prefix);
                        self.parent@ = self.parent@.push(node as int);
                        assert(self.nodes@[node as int].children@.contains((c, j)));
                        assert forall|q: int| 0 <= q < before.nodes@.len() && q != node implies #[trigger] self.nodes@[q] == before.nodes@[q] by {}
                        assert forall|q: int, kk: int| 0 <= q < self.nodes@.len() && 0 <= kk < self.nodes@[q].children@.len() implies {
                            let e = #[trigger] self.nodes@[q].children@[kk];
                            q < e.1 < self.nodes@.len() && self.parent@[e.1 as int] == q && self.paths@[e.1 as int] == self.paths@[q].push(e.0)
                        } by {
                            if q == node {
                                let e = self.nodes@[q].children@[kk];
                                assert(self.nodes@[q].children@.contains(e));
                                if e != (c, j) {
                                    assert(before.nodes@[q].children@.contains(e));
                                    let k2 = choose|k2: int| 0 <= k2 < before.nodes@[q].children@.len() && before.nodes@[q].children@[k2] == e;
                                    assert(before.nodes@[q].children@[k2] == e);
                                }
                            } else if q < before.nodes@.len() {
                                assert(self.nodes@[q] == before.nodes@[q]);
                            }
                        }
                        assert forall|q: int| 1 <= q < self.nodes@.len() implies 0 <= #[trigger] self.parent@[q] < q && self.paths@[q].len() >= 1
                            && self.paths@[q].drop_last() == self.paths@[self.parent@[q]]
                            && self.nodes@[self.parent@[q]].children@.contains((self.paths@[q].last(), q as usize)) by {
                            if q < before.nodes@.len() {
                                let p = before.parent@[q];
                                let e = (before.paths@[q].last(), q as usize);
                                assert(before.nodes@[p].children@.contains(e));
                                if p == node {
                                    assert(self.nodes@[p].children@.contains(e));
                                } else {
                                    assert(self.nodes@[p] == before.nodes@[p]);
                                }
                            } else {
                                assert(self.paths@[q].drop_last() =~= self.paths@[node as int]);
                            }
                        }
                    }
                    node = j;
                },
            }
            let cnt = self.nodes[node].count;
            self.nodes[node].count = if cnt < usize::MAX { cnt + 1 } else { cnt };
            proof {
                let len0 = t0.nodes@.len();
                assert(self.paths@[node as int] == prefix);
                assert(self.paths@.subrange(0, len0 as int) =~= t0.paths@);
                assert forall|j: int| 0 <= j < len0 implies #[trigger] self.paths@[j] == t0.paths@[j] by {
                    assert(self.paths@.subrange(0, len0 as int)[j] == self.paths@[j]);
                }
                assert forall|j: int| 1 <= j < self.nodes@.len() implies (#[trigger] self.nodes@[j]).count == saturated(passing(ins, self.paths@[j])
                    + if self.paths@[j].len() <= i + 1 && self.paths@[j].is_prefix_of(word@) { 1nat } else { 0nat }) by {
                    if j == node {
                        if node < len0 {
                            assert(t0.paths@[j] == prefix);
                            assert(t0.nodes@[j].count == saturated(passing(ins, prefix)));
                        }
                    } else {
                        assert(j < len0);
                        assert(self.nodes@[j].count == t0.nodes@[j].count);
                        if self.paths@[j].len() == i + 1 && self.paths@[j].is_prefix_of(word@) {
                            assert(self.paths@[j] =~= prefix);
                        }
                    }
                }
                assert forall|j: int| 0 <= j < self.nodes@.len() implies ((#[trigger] self.nodes@[j]).is_end <==> ins.contains(self.paths@[j])) by {
                    if j < len0 {
                        assert(self.nodes@[j].is_end == t0.nodes@[j].is_end);
                    }
                }
                assert forall|p: Seq<char>| t0.has_node(p) implies #[trigger] self.has_node(p) by {
                    let q = choose|q: int| 0 <= q < t0.nodes@.len() && t0.paths@[q] == p;
                    assert(self.paths@[q] == p);
                }
                assert forall|l: int| 0 <= l <= i + 1 implies #[trigger] self.has_node(word@.subrange(0, l)) by {
                    if l <= i {
                        assert(t0.has_node(word@.subrange(0, l)));
                    } else {
                        assert(word@.subrange(0, l) =~= prefix);
                    }
                }
                assert forall|k: int, l: int| 0 <= k < ins.len() && 0 <= l <= ins[k].len() implies #[trigger] self.has_node(ins[k].subrange(0, l)) by {
                    assert(t0.has_node(ins[k].subrange(0, l)));
                }
            }
            i += 1;
            assert(self.paths@.subrange(0, n0 as int) =~= old(self).paths@);
        }
        assert(word@.subrange(0, n as int) =~= word@);
        let ghost t1 = *self;
        self.nodes[node].is_end = true;
        proof {
            self.inserted@ = ins.push(word@);
            let ins2 = ins.push(word@);
            assert(ins2.drop_last() =~= ins);
            assert forall|j: int| 1 <= j < self.nodes@.len() implies (#[trigger] self.nodes@[j]).count == saturated(passing(ins2, self.paths@[j])) by {
                assert(t1.nodes@[j].count == self.nodes@[j].count);
                assert(passing(ins2, self.paths@[j]) == passing(ins, self.paths@[j]) + if self.paths@[j].is_prefix_of(word@) { 1nat } else { 0nat });
            }
            assert forall|j: int| 0 <= j < self.nodes@.len() implies ((#[trigger] self.nodes@[j]).is_end <==> ins2.contains(self.paths@[j])) by {
                if j == node {
                    assert(ins2[ins.len() as int] == word@);
                } else {
                    assert(self.nodes@[j].is_end == t1.nodes@[j].is_end);
                    assert(self.paths@[j] != word@);
                    if ins2.contains(self.paths@[j]) {
                        let k = choose|k: int| 0 <= k < ins2.len() && ins2[k] == self.paths@[j];
                        assert(ins[k] == ins2[k]);
                    }
                    if ins.contains(self.paths@[j]) {
                        let k = choose|k: int| 0 <= k < ins.len() && ins[k] == self.paths@[j];
                        assert(ins2[k] == ins[k]);
                    }
                }
            }
            assert forall|k: int, l: int| 0 <= k < ins2.len() && 0 <= l <= ins2[k].len() implies #[trigger] self.has_node(ins2[k].subrange(0, l)) by {
                if k < ins.len() {
                    assert(ins2[k] == ins[k]);
                    assert(t1.has_node(ins[k].subrange(0, l)));
                    let q = choose|q: int| 0 <= q < t1.nodes@.len() && t1.paths@[q] == ins[k].subrange(0, l);
                } else {
                    assert(ins2[k] == word@);
                    assert(t1.has_node(word@.subrange(0, l)));
                    let q = choose|q: int| 0 <= q < t1.nodes@.len() && t1.paths@[q] == word@.subrange(0, l);
                }
            }
            assert forall|w: Seq<char>| self.has_word(w) <==> (old(self).has_word(w) || w == word@) by {
                if self.has_word(w) {
                    let j = choose|j: int| 0 <= j < self.nodes@.len() && self.paths@[j] == w && #[trigger] self.nodes@[j].is_end;
                    if j != node && j < n0 {
                        assert(old(self).paths@[j] == self.paths@.subrange(0, n0 as int)[j]);
                        assert(old(self).nodes@[j].is_end);
                    }
                }
                if old(self).has_word(w) {
                    let j = choose|j: int| 0 <= j < old(self).nodes@.len() && old(self).paths@[j] == w && #[trigger] old(self).nodes@[j].is_end;
                    assert(self.paths@.subrange(0, n0 as int)[j] == self.paths@[j]);
                    if j != node {
                        assert(self.nodes@[j].is_end);
                    } else {
                        assert(self.nodes@[node as int].is_end);
                    }
                }
                if w == word@ {
                    assert(self.nodes@[node as int].is_end);
                }
            }
        }
    }
}


/// The text form of a list of (prefix, branches) results.
pub open spec fn entries_view(v: Seq<(String, Vec<String>)>) -> Seq<(Seq<char>, Seq<Seq<char>>)> {
    v.map_values(|e: (String, Vec<String>)| (e.0@, e.1@.map_values(|s: String| s@)))
}

impl Trie {
    /// The words of the children of `node`: its word extended by each edge symbol.
    pub open spec fn branches(&self, node: int) -> Seq<Seq<char>> {
        self.nodes@[node].children@.map_values(|e: (char, usize)| self.paths@[node].push(e.0))
    }

    /// `node` is a branch point: it has several children, or a word ends at it and it
    /// has a child.
    pub open spec fn is_branch(&self, node: int) -> bool {
        let nd = self.nodes@[node];
        nd.children@.len() > 1 || (nd.is_end && nd.children@.len() > 0)
    }

    /// A word ends at the node or at one of its children.
    pub open spec fn ends_near(&self, node: int) -> bool {
        let nd = self.nodes@[node];
        nd.is_end || exists|k: int| 0 <= k < nd.children@.len() && #[trigger] self.nodes@[nd.children@[k].1 as int].is_end
    }

    /// The results found below `node`: a branch point where a word ends at it or at a
    /// child is reported with its branches; other branch points are searched below each
    /// child, the last child first; a chain of single children is followed down.
    pub open spec fn lcp_at(&self, node: int) -> Seq<(Seq<char>, Seq<Seq<char>>)>
        decreases self.nodes@.len() - node, self.nodes@[node].children@.len() + 1,
    {
        if !(0 <= node < self.nodes@.len()) {
            Seq::empty()
        } else {
            let nd = self.nodes@[node];
            let ch = nd.children@;
            if self.is_branch(node) {
                if self.ends_near(node) {
                    seq![(self.paths@[node], self.branches(node))]
                } else {
                    self.lcp_from(node, 0)
                }
            } else if ch.len() == 1 && node < ch[0].1 < self.nodes@.len() {
                self.lcp_at(ch[0].1 as int)
            } else {
                Seq::empty()
            }
        }
    }

    /// The results below the children of `node` from index `k` on, the last child first.
    pub open spec fn lcp_from(&self, node: int, k: int) -> Seq<(Seq<char>, Seq<Seq<char>>)>
        decreases self.nodes@.len() - node, self.nodes@[node].children@.len() - k,
    {
        if !(0 <= node < self.nodes@.len()) || k < 0 || k >= self.nodes@[node].children@.len() {
            Seq::empty()
        } else {
            let c = self.nodes@[node].children@[k].1 as int;
            if node < c < self.nodes@.len() {
                self.lcp_from(node, k + 1) + self.lcp_at(c)
            } else {
                self.lcp_from(node, k + 1)
            }
        }
    }

    /// Appends the results found below `node`, whose word is `prefix`.
    fn collect(&self, node: usize, prefix: &String, out: &mut Vec<(String, Vec<String>)>)
        requires
            self.wf(),
            node < self.nodes@.len(),
            prefix@ == self.paths@[node as int],
        ensures
            entries_view(final(out)@) == entries_view(old(out)@) + self.lcp_at(node as int),
        decreases self.nodes@.len() - node,
    {
        let nd = &self.nodes[node];
        let ch = &nd.children;
        if ch.len() > 1 || (nd.is_end && ch.len() > 0) {
            let mut has_end_child = false;
            let mut branches: Vec<String> = Vec::new();
            let mut k: usize = 0;
            while k < ch.len()
                invariant
                    self.wf(),
                    node < self.nodes@.len(),
                    nd == &self.nodes@[node as int],
                    ch == &nd.children,
                    prefix@ == self.paths@[node as int],
                    k <= ch@.len(),
                    branches@.len() == k,
                    forall|q: int| 0 <= q < k ==> (#[trigger] branches@[q])@ == self.paths@[node as int].push(ch@[q].0),
                    has_end_child <==> exists|q: int| 0 <= q < k && #[trigger] self.nodes@[ch@[q].1 as int].is_end,
                decreases ch.len() - k,
            {
                let (c, j) = ch[k];
                assert(ch@[k as int] == (c, j));
                let mut b = prefix.clone();
                push_char(&mut b, c);
                branches.push(b);
                if self.nodes[j].is_end {
                    has_end_child = true;
                }
                k += 1;
            }
            if nd.is_end || has_end_child {
                let ghost before = out@;
                out.push((prefix.clone(), branches));
                proof {
                    assert(branches@.map_values(|s: String| s@) =~= self.branches(node as int));
                    assert(entries_view(out@) =~= entries_view(before) + self.lcp_at(node as int));
                }
            } else {
                let mut k: usize = ch.len();
                proof {
                    assert(self.lcp_from(node as int, k as int) == Seq::<(Seq<char>, Seq<Seq<char>>)>::empty());
                    assert(entries_view(out@) =~= entries_view(old(out)@) + self.lcp_from(node as int, k as int));
                }
                while k > 0
                    invariant
                        self.wf(),
                        node < self.nodes@.len(),
                        nd == &self.nodes@[node as int],
                        ch == &nd.children,
                        k <= ch@.len(),
                        prefix@ == self.paths@[node as int],
                        entries_view(out@) == entries_view(old(out)@) + self.lcp_from(node as int, k as int),
                    decreases k,
                {
                    let (c, j) = ch[k - 1];
                    assert(ch@[k - 1] == (c, j));
                    assert(self.nodes@[node as int].children@[k - 1] == (c, j));
                    let mut b = prefix.clone();
                    push_char(&mut b, c);
                    self.collect(j, &b, out);
                    k -= 1;
                    proof {
                        assert(entries_view(out@) =~= entries_view(old(out)@) + self.lcp_from(node as int, k as int));
                    }
                }
            }
        } else if ch.len() == 1 && !nd.is_end {
            let (c, j) = ch[0];
            assert(ch@[0] == (c, j));
            let mut b = prefix.clone();
            push_char(&mut b, c);
            self.collect(j, &b, out);
        } else {
            assert(entries_view(out@) =~= entries_view(old(out)@) + self.lcp_at(node as int));
        }
    }

    /// The branch points of the tree with their branches, as found by a depth-first
    /// search from the root that stops at the first branch point where a word ends.
    pub fn extract_longest_common_prefix(&self) -> (r: Vec<(String, Vec<String>)>)
        requires
            self.wf(),
        ensures
            entries_view(r@) == self.lcp_at(0),
    {
        let mut out: Vec<(String, Vec<String>)> = Vec::new();
        let prefix = String::new();
        proof {
            assert(prefix@ =~= self.paths@[0]);
        }
        self.collect(0, &prefix, &mut out);
        assert(entries_view(Seq::<(String, Vec<String>)>::empty()) =~= Seq::empty());
        out
    }
}


pub open spec fn label_seq(label: Option<char>) -> Seq<char> {
    match label {
        Some(c) => seq![c],
        None => Seq::empty(),
    }
}

impl Trie {
    /// The drawing of `node` and its subtree: a line with the edge symbol, an end mark
    /// and the count, then the children in increasing order, the last one drawn with a
    /// corner.
    pub open spec fn node_text(&self, node: int, label: Seq<char>, last: bool, indent: Seq<char>) -> Seq<char>
        decreases self.nodes@.len() - node, self.nodes@[node].children@.len() + 1,
    {
        if !(0 <= node < self.nodes@.len()) {
            Seq::empty()
        } else {
            let nd = self.nodes@[node];
            indent + (if last { "`-- "@ } else { "|-- "@ }) + label + (if nd.is_end { " (end)"@ } else { Seq::empty() })
                + " ["@ + decimal(nd.count as nat) + "]\n"@
                + self.children_text(node, 0, indent + (if last { "    "@ } else { "|   "@ }))
        }
    }

    pub open spec fn children_text(&self, node: int, k: int, indent: Seq<char>) -> Seq<char>
        decreases self.nodes@.len() - node, self.nodes@[node].children@.len() - k,
    {
        if !(0 <= node < self.nodes@.len()) || k < 0 || k >= self.nodes@[node].children@.len() {
            Seq::empty()
        } else {
            let ch = self.nodes@[node].children@;
            let e = ch[k];
            (if node < e.1 < self.nodes@.len() {
                self.node_text(e.1 as int, seq![e.0], k == ch.len() - 1, indent)
            } else {
                Seq::empty()
            }) + self.children_text(node, k + 1, indent)
        }
    }

    #[verifier::rlimit(40)]
    fn render(&self, node: usize, label: Option<char>, last: bool, indent: &String, out: &mut String)
        requires
            self.wf(),
            node < self.nodes@.len(),
        ensures
            final(out)@ == old(out)@ + self.node_text(node as int, label_seq(label), last, indent@),
        decreases self.nodes@.len() - node,
    {
        let nd = &self.nodes[node];
        push_text(out, indent.as_str());
        if last {
            push_text(out, "`-- ");
        } else {
            push_text(out, "|-- ");
        }
        match label {
            Some(c) => push_char(out, c),
            None => {},
        }
        if nd.is_end {
            push_text(out, " (end)");
        }
        push_text(out, " [");
        push_decimal(out, nd.count);
        push_text(out, "]\n");
        let ghost head = out@;
        let mut child_indent = indent.clone();
        if last {
            push_text(&mut child_indent, "    ");
        } else {
            push_text(&mut child_indent, "|   ");
        }
        let ch = &nd.children;
        let mut k: usize = 0;
        proof {
            assert(head =~= old(out)@ + (indent@ + (if last { "`-- "@ } else { "|-- "@ }) + label_seq(label) + (if nd.is_end { " (end)"@ } else { Seq::empty() })
                + " ["@ + decimal(nd.count as nat) + "]\n"@));
        }
        while k < ch.len()
            invariant
                self.wf(),
                node < self.nodes@.len(),
                nd == &self.nodes@[node as int],
                ch == &nd.children,
                k <= ch@.len(),
                out@ + self.children_text(node as int, k as int, child_indent@) == head + self.children_text(node as int, 0, child_indent@),
            decreases ch.len() - k,
        {
            let (c, j) = ch[k];
            assert(self.nodes@[node as int].children@[k as int] == (c, j));
            let ghost before = out@;
            self.render(j, Some(c), k == ch.len() - 1, &child_indent, out);
            proof {
                assert(label_seq(Some(c)) == seq![c]);
                assert(before + self.children_text(node as int, k as int, child_indent@) =~= out@ + self.children_text(node as int, k + 1, child_indent@));
            }
            k += 1;
        }
        proof {
            assert(out@ + Seq::<char>::empty() =~= out@);
            assert(final(out)@ =~= old(out)@ + self.node_text(node as int, label_seq(label), last, indent@));
        }
    }

    /// The tree drawn as text, one node per line.
    pub fn display(&self) -> (r: String)
        requires
            self.wf(),
        ensures
            r@ == self.node_text(0, Seq::empty(), false, Seq::empty()),
    {
        let mut out = String::new();
        let indent = String::new();
        self.render(0, None, false, &indent, &mut out);
        proof {
            assert(out@ =~= self.node_text(0, Seq::empty(), false, Seq::empty()));
        }
        out
    }
}

} // verus!
