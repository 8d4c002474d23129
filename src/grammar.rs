use vstd::prelude::*;
use crate::text::{push_char, push_text};
use crate::trie::{entries_view, Trie};

verus! {

/// The words of a list of strings.
pub open spec fn words(v: Seq<String>) -> Seq<Seq<char>> {
    v.map_values(|s: String| s@)
}

/// The words of a list of string slices.
pub open spec fn str_words(v: Seq<&str>) -> Seq<Seq<char>> {
    v.map_values(|s: &str| s@)
}

/// The words of a list, as a set.
pub open spec fn word_set(v: Seq<String>) -> Set<Seq<char>> {
    Set::new(|w: Seq<char>| exists|i: int| 0 <= i < v.len() && (#[trigger] v[i])@ == w)
}

/// No key occurs twice in a list of entries.
pub open spec fn keys_unique<V>(v: Seq<(String, V)>) -> bool {
    forall|i: int, j: int| 0 <= i < v.len() && 0 <= j < v.len() && i != j ==> (#[trigger] v[i]).0@ != (#[trigger] v[j]).0@
}

/// A list of (non-terminal, alternatives) entries as a map.
pub open spec fn entry_map(v: Seq<(String, Vec<String>)>) -> Map<Seq<char>, Seq<Seq<char>>> {
    Map::new(
        |k: Seq<char>| exists|i: int| 0 <= i < v.len() && (#[trigger] v[i]).0@ == k,
        |k: Seq<char>| {
            let i = choose|i: int| 0 <= i < v.len() && (#[trigger] v[i]).0@ == k;
            words(v[i].1@)
        },
    )
}

/// The terminals that the alternatives `ps` bring: `$`, and every character of them but
/// the blank, as a one-character word.
pub open spec fn new_terminals(ps: Seq<Seq<char>>) -> Set<Seq<char>> {
    Set::new(
        |w: Seq<char>|
            (ps.len() > 0 && w == seq!['$']) || exists|i: int, k: int|
                0 <= i < ps.len() && 0 <= k < ps[i].len() && ps[i][k] != ' ' && w == seq![#[trigger] ps[i][k]],
    )
}

/// A context-free grammar whose symbols are single characters: non-terminals,
/// terminals, an optional start symbol, the alternatives of each non-terminal, and the
/// FIRST and FOLLOW sets once computed.
#[derive(Clone, Debug)]
pub struct Grammar {
    pub non_terminals: Vec<String>,
    pub terminals: Vec<String>,
    pub start_symbol: Option<String>,
    pub productions: Vec<(String, Vec<String>)>,
    pub first_sets: Vec<(String, Vec<String>)>,
    pub follow_sets: Vec<(String, Vec<String>)>,
}

impl Grammar {
    /// The symbol lists hold no duplicates and each non-terminal has one entry.
    pub open spec fn wf(&self) -> bool {
        &&& words(self.non_terminals@).no_duplicates()
        &&& words(self.terminals@).no_duplicates()
        &&& keys_unique(self.productions@)
        &&& keys_unique(self.first_sets@)
        &&& keys_unique(self.follow_sets@)
    }

    /// An empty grammar.
    pub fn new() -> (r: Grammar)
        ensures
            r.wf(),
            r.non_terminals@.len() == 0,
            r.terminals@.len() == 0,
            r.start_symbol is None,
            r.productions@.len() == 0,
            r.first_sets@.len() == 0,
            r.follow_sets@.len() == 0,
    {
        Grammar {
            non_terminals: Vec::new(),
            terminals: Vec::new(),
            start_symbol: None,
            productions: Vec::new(),
            first_sets: Vec::new(),
            follow_sets: Vec::new(),
        }
    }
}

fn string_of(s: &str) -> (r: String)
    ensures
        r@ == s@,
{
    String::from_str(s)
}

fn char_string(c: char) -> (r: String)
    ensures
        r@ == seq![c],
{
    let mut r = String::new();
    push_char(&mut r, c);
    assert(r@ =~= seq![c]);
    r
}

/// The index of `w` in `v`.
fn index_of(v: &Vec<String>, w: &String) -> (r: Option<usize>)
    ensures
        match r {
            Some(i) => i < v@.len() && v@[i as int]@ == w@,
            None => !word_set(v@).contains(w@),
        },
{
    let mut i: usize = 0;
    while i < v.len()
        invariant
            i <= v@.len(),
            forall|j: int| 0 <= j < i ==> v@[j]@ != w@,
        decreases v.len() - i,
    {
        if v[i] == *w {
            return Some(i);
        }
        i += 1;
    }
    None
}

/// Adds `w` to a list of distinct words unless it is there.
fn add_word(v: &mut Vec<String>, w: String)
    requires
        words(old(v)@).no_duplicates(),
    ensures
        words(final(v)@).no_duplicates(),
        word_set(final(v)@) == word_set(old(v)@).insert(w@),
        word_set(old(v)@).contains(w@) ==> final(v)@ == old(v)@,
        !word_set(old(v)@).contains(w@) ==> final(v)@.len() == old(v)@.len() + 1,
{
    match index_of(v, &w) {
        Some(i) => {
            assert(word_set(v@).contains(w@)) by {
                assert(v@[i as int]@ == w@);
            }
            assert(word_set(v@) =~= word_set(v@).insert(w@));
        },
        None => {
            let ghost before = v@;
            v.push(w);
            proof {
                assert(words(v@) =~= words(before).push(w@));
                assert forall|a: int, b: int| 0 <= a < words(v@).len() && 0 <= b < words(v@).len() && a != b
                    implies words(v@)[a] != words(v@)[b] by {
                    if a < before.len() && b < before.len() {
                        assert(words(before)[a] != words(before)[b]);
                    } else if a < before.len() {
                        assert(word_set(before).contains(before[a]@));
                    } else {
                        assert(word_set(before).contains(before[b]@));
                    }
                }
                assert forall|x: Seq<char>| word_set(v@).contains(x) <==> word_set(before).insert(w@).contains(x) by {
                    if word_set(v@).contains(x) {
                        let i = choose|i: int| 0 <= i < v@.len() && (#[trigger] v@[i])@ == x;
                        if i < before.len() {
                            assert(before[i]@ == x);
                        }
                    }
                    if word_set(before).contains(x) {
                        let i = choose|i: int| 0 <= i < before.len() && (#[trigger] before[i])@ == x;
                        assert(v@[i]@ == x);
                    }
                    if x == w@ {
                        assert(v@[before.len() as int]@ == x);
                    }
                }
                assert(word_set(v@) =~= word_set(before).insert(w@));
            }
        },
    }
}

/// The entry of `k` in a list of entries.
fn entry_index(v: &Vec<(String, Vec<String>)>, k: &String) -> (r: Option<usize>)
    ensures
        match r {
            Some(i) => i < v@.len() && v@[i as int].0@ == k@,
            None => forall|i: int| 0 <= i < v@.len() ==> (#[trigger] v@[i]).0@ != k@,
        },
{
    let mut i: usize = 0;
    while i < v.len()
        invariant
            i <= v@.len(),
            forall|j: int| 0 <= j < i ==> (#[trigger] v@[j]).0@ != k@,
        decreases v.len() - i,
    {
        if v[i].0 == *k {
            return Some(i);
        }
        i += 1;
    }
    None
}

/// With distinct keys, the entry found at `i` is the one the map gives.
proof fn lemma_entry_at(v: Seq<(String, Vec<String>)>, i: int)
    requires
        keys_unique(v),
        0 <= i < v.len(),
    ensures
        entry_map(v).contains_key(v[i].0@),
        entry_map(v)[v[i].0@] == words(v[i].1@),
{
    let k = v[i].0@;
    assert(v[i].0@ == k);
    let j = choose|j: int| 0 <= j < v.len() && (#[trigger] v[j]).0@ == k;
    if j != i {
        assert(v[i].0@ != v[j].0@);
    }
}

/// Removes from `v` every word of `drop`.
fn remove_words(v: &Vec<String>, drop: &Vec<String>) -> (r: Vec<String>)
    requires
        words(v@).no_duplicates(),
    ensures
        words(r@).no_duplicates(),
        word_set(r@) == word_set(v@).difference(word_set(drop@)),
{
    let mut r: Vec<String> = Vec::new();
    let mut i: usize = 0;
    while i < v.len()
        invariant
            words(v@).no_duplicates(),
            i <= v@.len(),
            words(r@).no_duplicates(),
            word_set(r@) == word_set(v@.subrange(0, i as int)).difference(word_set(drop@)),
            forall|x: Seq<char>| word_set(r@).contains(x) ==> word_set(v@.subrange(0, i as int)).contains(x),
        decreases v.len() - i,
    {
        let ghost prev = word_set(v@.subrange(0, i as int));
        proof {
            assert forall|x: Seq<char>| word_set(v@.subrange(0, i + 1)).contains(x) <==> prev.insert(v@[i as int]@).contains(x) by {
                if word_set(v@.subrange(0, i + 1)).contains(x) {
                    let j = choose|j: int| 0 <= j < i + 1 && (#[trigger] v@.subrange(0, i + 1)[j])@ == x;
                    if j < i {
                        assert(v@.subrange(0, i as int)[j] == v@[j]);
                    }
                }
                if prev.contains(x) {
                    let j = choose|j: int| 0 <= j < i && (#[trigger] v@.subrange(0, i as int)[j])@ == x;
                    assert(v@.subrange(0, i + 1)[j] == v@[j]);
                }
                if x == v@[i as int]@ {
                    assert(v@.subrange(0, i + 1)[i as int] == v@[i as int]);
                }
            }
            assert(word_set(v@.subrange(0, i + 1)) =~= prev.insert(v@[i as int]@));
        }
        match index_of(drop, &v[i]) {
            Some(_) => {
                proof {
                    assert(word_set(drop@).contains(v@[i as int]@));
                    assert(word_set(r@) =~= word_set(v@.subrange(0, i + 1)).difference(word_set(drop@)));
                }
            },
            None => {
                proof {
                    assert(!prev.contains(v@[i as int]@)) by {
                        if prev.contains(v@[i as int]@) {
                            let j = choose|j: int| 0 <= j < i && (#[trigger] v@.subrange(0, i as int)[j])@ == v@[i as int]@;
                            assert(words(v@)[j] == words(v@)[i as int]);
                        }
                    }
                }
                let ghost before = r@;
                r.push(v[i].clone());
                proof {
                    assert(words(r@) =~= words(before).push(v@[i as int]@));
                    assert forall|a: int, b: int| 0 <= a < words(r@).len() && 0 <= b < words(r@).len() && a != b
                        implies words(r@)[a] != words(r@)[b] by {
                        if a < before.len() && b < before.len() {
                            assert(words(before)[a] != words(before)[b]);
                        } else if a < before.len() {
                            assert(word_set(before).contains(before[a]@));
                        } else {
                            assert(word_set(before).contains(before[b]@));
                        }
                    }
                    assert forall|x: Seq<char>| word_set(r@).contains(x) <==> word_set(before).insert(v@[i as int]@).contains(x) by {
                        if word_set(r@).contains(x) {
                            let j = choose|j: int| 0 <= j < r@.len() && (#[trigger] r@[j])@ == x;
                            if j < before.len() {
                                assert(before[j]@ == x);
                            }
                        }
                        if word_set(before).contains(x) {
                            let j = choose|j: int| 0 <= j < before.len() && (#[trigger] before[j])@ == x;
                            assert(r@[j]@ == x);
                        }
                        if x == v@[i as int]@ {
                            assert(r@[before.len() as int]@ == x);
                        }
                    }
                    assert(word_set(r@) =~= word_set(before).insert(v@[i as int]@));
                    assert(word_set(r@) =~= word_set(v@.subrange(0, i + 1)).difference(word_set(drop@)));
                }
            },
        }
        i += 1;
    }
    assert(v@.subrange(0, i as int) =~= v@);
    r
}


impl Grammar {
    /// Adds the alternatives `production` of `non_terminal` (appended to those it has),
    /// records `non_terminal` as a non-terminal, records as terminals `$` and every
    /// character of the alternatives but blanks and non-terminals, and makes
    /// `non_terminal` the start symbol when asked.
    pub fn add_production(&mut self, non_terminal: &str, production: Vec<&str>, is_start_symbol: bool)
        requires
            old(self).wf(),
        ensures
            final(self).wf(),
            word_set(final(self).non_terminals@) == word_set(old(self).non_terminals@).insert(non_terminal@),
            entry_map(final(self).productions@) == entry_map(old(self).productions@).insert(
                non_terminal@,
                (if entry_map(old(self).productions@).contains_key(non_terminal@) {
                    entry_map(old(self).productions@)[non_terminal@]
                } else {
                    Seq::empty()
                }) + str_words(production@),
            ),
            word_set(final(self).terminals@) == word_set(old(self).terminals@).union(
                new_terminals(str_words(production@)),
            ).difference(word_set(final(self).non_terminals@)),
            is_start_symbol ==> (final(self).start_symbol matches Some(s) && s@ == non_terminal@),
            !is_start_symbol ==> final(self).start_symbol == old(self).start_symbol,
            final(self).first_sets == old(self).first_sets,
            final(self).follow_sets == old(self).follow_sets,
    {
        let nt = string_of(non_terminal);
        add_word(&mut self.non_terminals, nt.clone());
        let ghost ws = str_words(production@);
        let ghost old_terms = word_set(self.terminals@);
        // the alternatives as owned strings
        let mut alts: Vec<String> = Vec::new();
        let mut p: usize = 0;
        while p < production.len()
            invariant
                p <= production@.len(),
                ws == str_words(production@),
                words(alts@) == ws.subrange(0, p as int),
            decreases production.len() - p,
        {
            let ghost before = alts@;
            let w = string_of(production[p]);
            alts.push(w);
            proof {
                assert(words(alts@) =~= words(before).push(w@));
                assert(ws[p as int] == production@[p as int]@);
                assert(ws.subrange(0, p as int + 1) =~= ws.subrange(0, p as int).push(ws[p as int]));
            }
            p += 1;
        }
        assert(ws.subrange(0, p as int) =~= ws);
        // terminals
        let mut p: usize = 0;
        while p < alts.len()
            invariant
                words(alts@) == ws,
                p <= alts@.len(),
                words(self.non_terminals@).no_duplicates(),
                keys_unique(self.productions@),
                keys_unique(self.first_sets@),
                keys_unique(self.follow_sets@),
                self.first_sets == old(self).first_sets,
                self.follow_sets == old(self).follow_sets,
                self.productions == old(self).productions,
                word_set(self.non_terminals@) == word_set(old(self).non_terminals@).insert(non_terminal@),
                !is_start_symbol ==> self.start_symbol == old(self).start_symbol,
                words(self.terminals@).no_duplicates(),
                old_terms.subset_of(word_set(self.terminals@)),
                word_set(self.terminals@).subset_of(old_terms.union(new_terminals(ws))),
                p > 0 ==> word_set(self.terminals@).contains(seq!['$']),
                forall|q: int, k: int| 0 <= q < p && 0 <= k < ws[q].len() && ws[q][k] != ' '
                    ==> word_set(self.terminals@).contains(seq![#[trigger] ws[q][k]]),
            decreases alts.len() - p,
        {
            let ghost t0 = word_set(self.terminals@);
            add_word(&mut self.terminals, char_string('$'));
            proof {
                assert(new_terminals(ws).contains(seq!['$']));
            }
            let a = alts[p].as_str();
            assert(a@ == ws[p as int]);
            let n = a.unicode_len();
            let mut k: usize = 0;
            while k < n
                invariant
                    words(alts@) == ws,
                    p < alts@.len(),
                    words(self.non_terminals@).no_duplicates(),
                    keys_unique(self.productions@),
                    keys_unique(self.first_sets@),
                    keys_unique(self.follow_sets@),
                    self.first_sets == old(self).first_sets,
                    self.follow_sets == old(self).follow_sets,
                    self.productions == old(self).productions,
                    word_set(self.non_terminals@) == word_set(old(self).non_terminals@).insert(non_terminal@),
                    !is_start_symbol ==> self.start_symbol == old(self).start_symbol,
                    a@ == ws[p as int],
                    n == a@.len(),
                    k <= n,
                    words(self.terminals@).no_duplicates(),
                    old_terms.subset_of(word_set(self.terminals@)),
                    word_set(self.terminals@).subset_of(old_terms.union(new_terminals(ws))),
                    word_set(self.terminals@).contains(seq!['$']),
                    t0.subset_of(word_set(self.terminals@)),
                    forall|q: int, j: int| 0 <= q < p && 0 <= j < ws[q].len() && ws[q][j] != ' '
                        ==> word_set(self.terminals@).contains(seq![#[trigger] ws[q][j]]),
                    forall|j: int| 0 <= j < k && ws[p as int][j] != ' ' ==> word_set(self.terminals@).contains(seq![#[trigger] ws[p as int][j]]),
                decreases n - k,
            {
                let c = a.get_char(k);
                if c != ' ' {
                    add_word(&mut self.terminals, char_string(c));
                    proof {
                        assert(ws[p as int][k as int] == c);
                        assert(new_terminals(ws).contains(seq![ws[p as int][k as int]]));
                    }
                }
                k += 1;
            }
            p += 1;
        }
        proof {
            assert forall|w: Seq<char>| new_terminals(ws).contains(w) implies word_set(self.terminals@).contains(w) by {
                if !(ws.len() > 0 && w == seq!['$']) {
                    let (i, k) = choose|i: int, k: int|
                        0 <= i < ws.len() && 0 <= k < ws[i].len() && ws[i][k] != ' ' && w == seq![#[trigger] ws[i][k]];
                }
            }
            assert(word_set(self.terminals@) =~= old_terms.union(new_terminals(ws)));
        }
        let terms = remove_words(&self.terminals, &self.non_terminals);
        self.terminals = terms;
        // alternatives
        let ghost old_map = entry_map(self.productions@);
        let ghost before = self.productions@;
        let ghost mid = *self;
        match entry_index(&self.productions, &nt) {
            Some(i) => {
                proof { lemma_entry_at(self.productions@, i as int); }
                let mut q: usize = 0;
                let ghost start = words(self.productions@[i as int].1@);
                while q < alts.len()
                    invariant
                        self.non_terminals == mid.non_terminals,
                        self.terminals == mid.terminals,
                        self.first_sets == mid.first_sets,
                        self.follow_sets == mid.follow_sets,
                        self.start_symbol == mid.start_symbol,
                        i < self.productions@.len(),
                        self.productions@.len() == before.len(),
                        forall|j: int| 0 <= j < before.len() && j != i ==> #[trigger] self.productions@[j] == before[j],
                        self.productions@[i as int].0 == before[i as int].0,
                        words(self.productions@[i as int].1@) == start + words(alts@).subrange(0, q as int),
                        q <= alts@.len(),
                    decreases alts.len() - q,
                {
                    let ghost prev = self.productions@[i as int].1@;
                    let w = alts[q].clone();
                    self.productions[i].1.push(w);
                    proof {
                        assert(self.productions@[i as int].1@ == prev.push(w));
                        assert(words(prev.push(w)) =~= words(prev).push(w@));
                        assert(words(alts@).subrange(0, q + 1) =~= words(alts@).subrange(0, q as int).push(alts@[q as int]@));
                    }
                    q += 1;
                    assert(words(self.productions@[i as int].1@) =~= start + words(alts@).subrange(0, q as int));
                }
                proof {
                    assert(words(alts@).subrange(0, q as int) =~= ws);
                    let v = self.productions@;
                    assert(keys_unique(v)) by {
                        assert forall|a: int, b: int| 0 <= a < v.len() && 0 <= b < v.len() && a != b implies (#[trigger] v[a]).0@ != (#[trigger] v[b]).0@ by {
                            assert(before[a].0@ != before[b].0@);
                        }
                    }
                    lemma_entry_at(v, i as int);
                    assert forall|k: Seq<char>| entry_map(v).contains_key(k) <==> old_map.insert(nt@, old_map[nt@] + ws).contains_key(k) by {
                        if entry_map(v).contains_key(k) {
                            let j = choose|j: int| 0 <= j < v.len() && (#[trigger] v[j]).0@ == k;
                            assert(before[j].0@ == k);
                        }
                        if old_map.contains_key(k) {
                            let j = choose|j: int| 0 <= j < before.len() && (#[trigger] before[j]).0@ == k;
                            assert(v[j].0@ == k);
                        }
                    }
                    assert forall|k: Seq<char>| #[trigger] entry_map(v).contains_key(k) && k != nt@ implies entry_map(v)[k] == old_map[k] by {
                        let j = choose|j: int| 0 <= j < v.len() && (#[trigger] v[j]).0@ == k;
                        lemma_entry_at(v, j);
                        lemma_entry_at(before, j);
                    }
                    assert(entry_map(v) =~= old_map.insert(nt@, old_map[nt@] + ws));
                }
            },
            None => {
                self.productions.push((nt.clone(), alts));
                proof {
                    let v = self.productions@;
                    assert(keys_unique(v)) by {
                        assert forall|a: int, b: int| 0 <= a < v.len() && 0 <= b < v.len() && a != b implies (#[trigger] v[a]).0@ != (#[trigger] v[b]).0@ by {
                            if a < before.len() && b < before.len() {
                                assert(before[a].0@ != before[b].0@);
                            }
                        }
                    }
                    assert(!old_map.contains_key(nt@));
                    lemma_entry_at(v, before.len() as int);
                    assert forall|k: Seq<char>| entry_map(v).contains_key(k) <==> old_map.insert(nt@, Seq::empty() + ws).contains_key(k) by {
                        if entry_map(v).contains_key(k) && k != nt@ {
                            let j = choose|j: int| 0 <= j < v.len() && (#[trigger] v[j]).0@ == k;
                            assert(before[j].0@ == k);
                        }
                        if old_map.contains_key(k) {
                            let j = choose|j: int| 0 <= j < before.len() && (#[trigger] before[j]).0@ == k;
                            assert(v[j].0@ == k);
                        }
                    }
                    assert forall|k: Seq<char>| #[trigger] entry_map(v).contains_key(k) && k != nt@ implies entry_map(v)[k] == old_map[k] by {
                        let j = choose|j: int| 0 <= j < v.len() && (#[trigger] v[j]).0@ == k;
                        lemma_entry_at(v, j);
                        lemma_entry_at(before, j);
                    }
                    assert(Seq::<Seq<char>>::empty() + ws =~= ws);
                    assert(entry_map(v) =~= old_map.insert(nt@, Seq::empty() + ws));
                }
            },
        }
        if is_start_symbol {
            self.start_symbol = Some(nt);
        }
    }
}

/// The alternatives after adding, for each of the first `i` non-terminals of `nts`, its
/// alternatives in `prods` (none when it has no entry) to those it had.
pub open spec fn add_prod_map(m: Map<Seq<char>, Seq<Seq<char>>>, nts: Seq<Seq<char>>, prods: Seq<(String, Vec<String>)>, i: int) -> Map<Seq<char>, Seq<Seq<char>>>
    decreases i,
{
    if i <= 0 {
        m
    } else {
        let m1 = add_prod_map(m, nts, prods, i - 1);
        let nt = nts[i - 1];
        let alts = if entry_map(prods).contains_key(nt) { entry_map(prods)[nt] } else { Seq::empty() };
        m1.insert(nt, (if m1.contains_key(nt) { m1[nt] } else { Seq::empty() }) + alts)
    }
}

/// Adds the alternatives of each non-terminal of `non_terminals`, in order, from the
/// entries of `productions`; the first becomes the start symbol. A non-terminal with no
/// entry gets no alternatives.
pub fn add_prod(grammar: &mut Grammar, non_terminals: Vec<String>, productions: Vec<(String, Vec<String>)>)
    requires
        old(grammar).wf(),
        keys_unique(productions@),
    ensures
        entry_map(final(grammar).productions@) == add_prod_map(entry_map(old(grammar).productions@), words(non_terminals@), productions@, non_terminals@.len() as int),
        final(grammar).wf(),
        non_terminals@.len() > 0 ==> (final(grammar).start_symbol matches Some(s) && s@ == non_terminals@[0]@),
        non_terminals@.len() == 0 ==> final(grammar).start_symbol == old(grammar).start_symbol,
        word_set(final(grammar).non_terminals@) == word_set(old(grammar).non_terminals@).union(word_set(non_terminals@)),
{
    let mut is_start = true;
    let mut i: usize = 0;
    while i < non_terminals.len()
        invariant
            grammar.wf(),
            i <= non_terminals@.len(),
            is_start == (i == 0),
            i == 0 ==> grammar.start_symbol == old(grammar).start_symbol,
            i > 0 ==> (grammar.start_symbol matches Some(s) && s@ == non_terminals@[0]@),
            word_set(grammar.non_terminals@) == word_set(old(grammar).non_terminals@).union(word_set(non_terminals@.subrange(0, i as int))),
            keys_unique(productions@),
            entry_map(grammar.productions@) == add_prod_map(entry_map(old(grammar).productions@), words(non_terminals@), productions@, i as int),
        decreases non_terminals.len() - i,
    {
        let nt = non_terminals[i].as_str();
        let mut alts: Vec<&str> = Vec::new();
        let ghost want: Seq<Seq<char>> = if entry_map(productions@).contains_key(non_terminals@[i as int]@) {
            entry_map(productions@)[non_terminals@[i as int]@]
        } else {
            Seq::empty()
        };
        match entry_index(&productions, &non_terminals[i]) {
            Some(k) => {
                proof { lemma_entry_at(productions@, k as int); }
                let list = &productions[k].1;
                let mut q: usize = 0;
                while q < list.len()
                    invariant
                        q <= list@.len(),
                        str_words(alts@) == words(list@).subrange(0, q as int),
                    decreases list.len() - q,
                {
                    let ghost b = alts@;
                    let w = list[q].as_str();
                    alts.push(w);
                    assert(str_words(alts@) =~= str_words(b).push(w@));
                    q += 1;
                    assert(str_words(alts@) =~= words(list@).subrange(0, q as int));
                }
                assert(words(list@).subrange(0, q as int) =~= words(list@));
            },
            None => {
                assert(!entry_map(productions@).contains_key(non_terminals@[i as int]@));
                assert(str_words(alts@) =~= Seq::<Seq<char>>::empty());
            },
        }
        assert(str_words(alts@) == want);
        assert(words(non_terminals@)[i as int] == nt@);
        grammar.add_production(nt, alts, is_start);
        is_start = false;
        proof {
            let prev = word_set(non_terminals@.subrange(0, i as int));
            assert forall|x: Seq<char>| word_set(non_terminals@.subrange(0, i + 1)).contains(x) <==> prev.insert(non_terminals@[i as int]@).contains(x) by {
                if word_set(non_terminals@.subrange(0, i + 1)).contains(x) {
                    let j = choose|j: int| 0 <= j < i + 1 && (#[trigger] non_terminals@.subrange(0, i + 1)[j])@ == x;
                    if j < i {
                        assert(non_terminals@.subrange(0, i as int)[j] == non_terminals@[j]);
                    }
                }
                if prev.contains(x) {
                    let j = choose|j: int| 0 <= j < i && (#[trigger] non_terminals@.subrange(0, i as int)[j])@ == x;
                    assert(non_terminals@.subrange(0, i + 1)[j] == non_terminals@[j]);
                }
                if x == non_terminals@[i as int]@ {
                    assert(non_terminals@.subrange(0, i + 1)[i as int] == non_terminals@[i as int]);
                }
            }
            assert(word_set(non_terminals@.subrange(0, i + 1)) =~= prev.insert(non_terminals@[i as int]@));
            assert(word_set(grammar.non_terminals@) =~= word_set(old(grammar).non_terminals@).union(word_set(non_terminals@.subrange(0, i + 1))));
            assert(entry_map(grammar.productions@) == add_prod_map(entry_map(old(grammar).productions@), words(non_terminals@), productions@, i + 1));
        }
        i += 1;
    }
    assert(non_terminals@.subrange(0, i as int) =~= non_terminals@);
}


/// The empty word marker.
pub open spec fn eps() -> Seq<char> {
    seq!['ε']
}

/// The set of words that the entry of `k` lists, if there is one.
pub open spec fn entry_set(v: Seq<(String, Vec<String>)>, k: Seq<char>) -> Option<Set<Seq<char>>> {
    if entry_map(v).contains_key(k) {
        Some(entry_map(v)[k].to_set())
    } else {
        None
    }
}

/// FIRST of the symbols of `p` from index `i` on, by the recorded FIRST sets: a
/// terminal stops the walk; a non-terminal adds its FIRST set but ε, and stops unless it
/// holds ε; a symbol with neither is skipped.
pub open spec fn first_walk(g: Grammar, p: Seq<char>, i: int) -> Set<Seq<char>>
    decreases p.len() - i,
{
    if i < 0 || i >= p.len() {
        Set::empty()
    } else {
        let sym = seq![p[i]];
        if word_set(g.terminals@).contains(sym) {
            set![sym]
        } else {
            match entry_set(g.first_sets@, sym) {
                Some(f) => f.remove(eps()).union(if f.contains(eps()) { first_walk(g, p, i + 1) } else { Set::empty() }),
                None => first_walk(g, p, i + 1),
            }
        }
    }
}

/// FIRST of a production, or {ε} when the walk finds nothing.
pub open spec fn first_of_spec(g: Grammar, p: Seq<char>) -> Set<Seq<char>> {
    if first_walk(g, p, 0).is_empty() {
        set![eps()]
    } else {
        first_walk(g, p, 0)
    }
}

/// Adds every word of `src` but `skip` to `dst`.
fn add_words_except(dst: &mut Vec<String>, src: &Vec<String>, skip: &String)
    requires
        words(old(dst)@).no_duplicates(),
    ensures
        words(final(dst)@).no_duplicates(),
        word_set(final(dst)@) == word_set(old(dst)@).union(word_set(src@).remove(skip@)),
{
    let mut i: usize = 0;
    while i < src.len()
        invariant
            i <= src@.len(),
            words(dst@).no_duplicates(),
            word_set(dst@) == word_set(old(dst)@).union(word_set(src@.subrange(0, i as int)).remove(skip@)),
        decreases src.len() - i,
    {
        let ghost prev = word_set(src@.subrange(0, i as int));
        proof {
            assert forall|x: Seq<char>| word_set(src@.subrange(0, i + 1)).contains(x) <==> prev.insert(src@[i as int]@).contains(x) by {
                if word_set(src@.subrange(0, i + 1)).contains(x) {
                    let j = choose|j: int| 0 <= j < i + 1 && (#[trigger] src@.subrange(0, i + 1)[j])@ == x;
                    if j < i {
                        assert(src@.subrange(0, i as int)[j] == src@[j]);
                    }
                }
                if prev.contains(x) {
                    let j = choose|j: int| 0 <= j < i && (#[trigger] src@.subrange(0, i as int)[j])@ == x;
                    assert(src@.subrange(0, i + 1)[j] == src@[j]);
                }
                if x == src@[i as int]@ {
                    assert(src@.subrange(0, i + 1)[i as int] == src@[i as int]);
                }
            }
            assert(word_set(src@.subrange(0, i + 1)) =~= prev.insert(src@[i as int]@));
        }
        if src[i] != *skip {
            add_word(dst, src[i].clone());
        }
        i += 1;
        proof {
            assert(word_set(dst@) =~= word_set(old(dst)@).union(word_set(src@.subrange(0, i as int)).remove(skip@)));
        }
    }
    assert(src@.subrange(0, i as int) =~= src@);
}

/// Adds every word of `src` to `dst`.
fn add_all(dst: &mut Vec<String>, src: &Vec<String>)
    requires
        words(old(dst)@).no_duplicates(),
    ensures
        words(final(dst)@).no_duplicates(),
        word_set(final(dst)@) == word_set(old(dst)@).union(word_set(src@)),
{
    let mut i: usize = 0;
    while i < src.len()
        invariant
            i <= src@.len(),
            words(dst@).no_duplicates(),
            word_set(dst@) == word_set(old(dst)@).union(word_set(src@.subrange(0, i as int))),
        decreases src.len() - i,
    {
        let ghost prev = word_set(src@.subrange(0, i as int));
        proof {
            assert forall|x: Seq<char>| word_set(src@.subrange(0, i + 1)).contains(x) <==> prev.insert(src@[i as int]@).contains(x) by {
                if word_set(src@.subrange(0, i + 1)).contains(x) {
                    let j = choose|j: int| 0 <= j < i + 1 && (#[trigger] src@.subrange(0, i + 1)[j])@ == x;
                    if j < i {
                        assert(src@.subrange(0, i as int)[j] == src@[j]);
                    }
                }
                if prev.contains(x) {
                    let j = choose|j: int| 0 <= j < i && (#[trigger] src@.subrange(0, i as int)[j])@ == x;
                    assert(src@.subrange(0, i + 1)[j] == src@[j]);
                }
                if x == src@[i as int]@ {
                    assert(src@.subrange(0, i + 1)[i as int] == src@[i as int]);
                }
            }
            assert(word_set(src@.subrange(0, i + 1)) =~= prev.insert(src@[i as int]@));
        }
        add_word(dst, src[i].clone());
        i += 1;
        proof {
            assert(word_set(dst@) =~= word_set(old(dst)@).union(word_set(src@.subrange(0, i as int))));
        }
    }
    assert(src@.subrange(0, i as int) =~= src@);
}

/// Whether `w` is in `v`.
fn has_word(v: &Vec<String>, w: &String) -> (r: bool)
    ensures
        r == word_set(v@).contains(w@),
{
    match index_of(v, w) {
        Some(i) => {
            assert(v@[i as int]@ == w@);
            true
        },
        None => false,
    }
}

proof fn lemma_entry_set(v: Seq<(String, Vec<String>)>, i: int)
    requires
        keys_unique(v),
        0 <= i < v.len(),
    ensures
        entry_set(v, v[i].0@) == Some(word_set(v[i].1@)),
{
    lemma_entry_at(v, i);
    assert(words(v[i].1@).to_set() =~= word_set(v[i].1@)) by {
        assert forall|x: Seq<char>| words(v[i].1@).to_set().contains(x) implies word_set(v[i].1@).contains(x) by {
            let j = choose|j: int| 0 <= j < words(v[i].1@).len() && words(v[i].1@)[j] == x;
        }
        assert forall|x: Seq<char>| word_set(v[i].1@).contains(x) implies words(v[i].1@).to_set().contains(x) by {
            let j = choose|j: int| 0 <= j < v[i].1@.len() && (#[trigger] v[i].1@[j])@ == x;
            assert(words(v[i].1@)[j] == x);
        }
    }
}

impl Grammar {
    /// FIRST of a production by the recorded FIRST sets.
    pub fn first_of(&self, production: &str) -> (r: Vec<String>)
        requires
            self.wf(),
        ensures
            words(r@).no_duplicates(),
            word_set(r@) == first_of_spec(*self, production@),
    {
        let n = production.unicode_len();
        let eps_word = char_string('ε');
        // find where the walk stops
        let mut out: Vec<String> = Vec::new();
        let mut i: usize = 0;
        let mut done = false;
        while i < n && !done
            invariant
                self.wf(),
                n == production@.len(),
                i <= n,
                eps_word@ == eps(),
                words(out@).no_duplicates(),
                !done ==> word_set(out@).union(first_walk(*self, production@, i as int)) == first_walk(*self, production@, 0),
                done ==> word_set(out@) == first_walk(*self, production@, 0),
            decreases n - i + (if done { 0int } else { 1int }),
        {
            let sym = char_string(production.get_char(i));
            assert(sym@ == seq![production@[i as int]]);
            if has_word(&self.terminals, &sym) {
                add_word(&mut out, sym);
                done = true;
            } else {
                match entry_index(&self.first_sets, &sym) {
                    Some(k) => {
                        proof { lemma_entry_set(self.first_sets@, k as int); }
                        let f = &self.first_sets[k].1;
                        add_words_except(&mut out, f, &eps_word);
                        if !has_word(f, &eps_word) {
                            done = true;
                        }
                        i += 1;
                    },
                    None => {
                        proof {
                            assert(!entry_map(self.first_sets@).contains_key(sym@));
                        }
                        i += 1;
                    },
                }
            }
            proof {
                if !done {
                    assert(word_set(out@).union(first_walk(*self, production@, i as int)) =~= first_walk(*self, production@, 0));
                } else {
                    assert(word_set(out@) =~= first_walk(*self, production@, 0));
                }
            }
        }
        if !done {
            assert(first_walk(*self, production@, i as int) =~= Set::empty());
            assert(word_set(out@) =~= first_walk(*self, production@, 0));
        }
        if out.len() == 0 {
            proof {
                assert(word_set(out@) =~= Set::empty());
            }
            let ghost before = out@;
            out.push(eps_word);
            proof {
                assert(words(out@) =~= seq![eps()]);
                assert(word_set(out@) =~= set![eps()]) by {
                    assert(out@[0]@ == eps());
                }
            }
        } else {
            proof {
                assert(word_set(out@).contains(out@[0]@));
            }
        }
        out
    }
}


/// The FOLLOW set recorded for `nt`, empty when there is none.
pub open spec fn follow_of(g: Grammar, nt: Seq<char>) -> Set<Seq<char>> {
    match entry_set(g.follow_sets@, nt) {
        Some(f) => f,
        None => Set::empty(),
    }
}

/// Alternatives `i` and `j` of `nt` clash: their FIRST sets meet, or the first can
/// derive ε and FOLLOW of `nt` meets FIRST of the second.
pub open spec fn ll1_clash(g: Grammar, nt: Seq<char>, ps: Seq<Seq<char>>, i: int, j: int) -> bool {
    let fi = first_of_spec(g, ps[i]);
    let fj = first_of_spec(g, ps[j]);
    !fi.disjoint(fj) || (fi.contains(eps()) && !follow_of(g, nt).disjoint(fj))
}

/// No two alternatives of a non-terminal clash.
pub open spec fn is_ll1_spec(g: Grammar) -> bool {
    forall|e: int, i: int, j: int|
        0 <= e < g.productions@.len() && 0 <= i < j < g.productions@[e].1@.len() ==> !#[trigger] ll1_clash(
            g,
            g.productions@[e].0@,
            words(g.productions@[e].1@),
            i,
            j,
        )
}

fn disjoint_words(a: &Vec<String>, b: &Vec<String>) -> (r: bool)
    ensures
        r == word_set(a@).disjoint(word_set(b@)),
{
    let mut i: usize = 0;
    while i < a.len()
        invariant
            i <= a@.len(),
            forall|k: int| 0 <= k < i ==> !word_set(b@).contains(#[trigger] a@[k]@),
        decreases a.len() - i,
    {
        if has_word(b, &a[i]) {
            assert(word_set(a@).contains(a@[i as int]@));
            return false;
        }
        i += 1;
    }
    assert forall|x: Seq<char>| word_set(a@).contains(x) implies !word_set(b@).contains(x) by {
        let k = choose|k: int| 0 <= k < a@.len() && (#[trigger] a@[k])@ == x;
    }
    true
}

impl Grammar {
    /// The FOLLOW set recorded for `nt`, empty when there is none.
    fn follow_list(&self, nt: &String) -> (r: Vec<String>)
        requires
            self.wf(),
        ensures
            word_set(r@) == follow_of(*self, nt@),
    {
        match entry_index(&self.follow_sets, nt) {
            Some(k) => {
                proof { lemma_entry_set(self.follow_sets@, k as int); }
                let mut r: Vec<String> = Vec::new();
                assert(word_set(r@) =~= Set::empty());
                add_all(&mut r, &self.follow_sets[k].1);
                assert(word_set(r@) =~= follow_of(*self, nt@));
                r
            },
            None => {
                proof {
                    assert(!entry_map(self.follow_sets@).contains_key(nt@));
                }
                let r: Vec<String> = Vec::new();
                assert(word_set(r@) =~= Set::empty());
                r
            },
        }
    }

    /// Whether the grammar is LL(1): for every non-terminal and every two of its
    /// alternatives, their FIRST sets are disjoint, and when the first can derive ε,
    /// FOLLOW of the non-terminal is disjoint from FIRST of the second. A non-terminal
    /// without a recorded FOLLOW set counts as having an empty one.
    pub fn is_ll1(&self) -> (r: bool)
        requires
            self.wf(),
        ensures
            r == is_ll1_spec(*self),
    {
        let eps_word = char_string('ε');
        let mut e: usize = 0;
        while e < self.productions.len()
            invariant
                self.wf(),
                eps_word@ == eps(),
                e <= self.productions@.len(),
                forall|ee: int, i: int, j: int|
                    0 <= ee < e && 0 <= i < j < self.productions@[ee].1@.len() ==> !#[trigger] ll1_clash(
                        *self,
                        self.productions@[ee].0@,
                        words(self.productions@[ee].1@),
                        i,
                        j,
                    ),
            decreases self.productions.len() - e,
        {
            let nt = &self.productions[e].0;
            let ps = &self.productions[e].1;
            let follow = self.follow_list(nt);
            let mut i: usize = 0;
            while i < ps.len()
                invariant
                    self.wf(),
                    eps_word@ == eps(),
                    e < self.productions@.len(),
                    nt == &self.productions@[e as int].0,
                    ps == &self.productions@[e as int].1,
                    word_set(follow@) == follow_of(*self, nt@),
                    i <= ps@.len(),
                    forall|ii: int, j: int| 0 <= ii < i && ii < j < ps@.len() ==> !#[trigger] ll1_clash(*self, nt@, words(ps@), ii, j),
                decreases ps.len() - i,
            {
                let fi = self.first_of(ps[i].as_str());
                let mut j: usize = i + 1;
                while j < ps.len()
                    invariant
                        self.wf(),
                        eps_word@ == eps(),
                        e < self.productions@.len(),
                        nt == &self.productions@[e as int].0,
                        ps == &self.productions@[e as int].1,
                        word_set(follow@) == follow_of(*self, nt@),
                        i < ps@.len(),
                        i < j <= ps@.len(),
                        word_set(fi@) == first_of_spec(*self, words(ps@)[i as int]),
                        forall|jj: int| i < jj < j ==> !#[trigger] ll1_clash(*self, nt@, words(ps@), i as int, jj),
                    decreases ps.len() - j,
                {
                    let fj = self.first_of(ps[j].as_str());
                    assert(words(ps@)[j as int] == ps@[j as int]@);
                    if !disjoint_words(&fi, &fj) {
                        assert(ll1_clash(*self, self.productions@[e as int].0@, words(self.productions@[e as int].1@), i as int, j as int));
                        return false;
                    }
                    if has_word(&fi, &eps_word) && !disjoint_words(&follow, &fj) {
                        assert(ll1_clash(*self, self.productions@[e as int].0@, words(self.productions@[e as int].1@), i as int, j as int));
                        return false;
                    }
                    j += 1;
                }
                i += 1;
            }
            e += 1;
        }
        true
    }
}


/// FIRST of the symbol `sym`, expanding non-terminals to depth `fuel`: a terminal is
/// its own FIRST set; a non-terminal has the union over its alternatives; anything else
/// has none.
pub open spec fn first_sym(g: Grammar, sym: Seq<char>, fuel: nat) -> Set<Seq<char>>
    decreases fuel, 2int, 0int,
{
    if word_set(g.terminals@).contains(sym) {
        set![sym]
    } else if !entry_map(g.productions@).contains_key(sym) {
        Set::empty()
    } else {
        first_alts(g, entry_map(g.productions@)[sym], 0, fuel)
    }
}

/// The union of FIRST over the alternatives `ps` from index `k` on.
pub open spec fn first_alts(g: Grammar, ps: Seq<Seq<char>>, k: int, fuel: nat) -> Set<Seq<char>>
    decreases fuel, 1int, ps.len() - k,
{
    if k < 0 || k >= ps.len() {
        Set::empty()
    } else {
        first_alt(g, ps[k], 0, fuel).union(first_alts(g, ps, k + 1, fuel))
    }
}

/// FIRST of one alternative from its symbol `i` on: ε is recorded and skipped, a
/// terminal ends the walk, another symbol adds its FIRST set but ε and ends the walk
/// unless that set holds ε; running off the end adds ε.
pub open spec fn first_alt(g: Grammar, p: Seq<char>, i: int, fuel: nat) -> Set<Seq<char>>
    decreases fuel, 0int, p.len() - i,
{
    if i < 0 || i >= p.len() {
        set![eps()]
    } else {
        let sym = seq![p[i]];
        if sym == eps() {
            set![eps()].union(first_alt(g, p, i + 1, fuel))
        } else if word_set(g.terminals@).contains(sym) {
            set![sym]
        } else {
            let nested = if fuel == 0 { Set::empty() } else { first_sym(g, sym, (fuel - 1) as nat) };
            nested.remove(eps()).union(if nested.contains(eps()) { first_alt(g, p, i + 1, fuel) } else { Set::empty() })
        }
    }
}

impl Grammar {
    fn first_sym_exec(&self, sym: &String, fuel: usize) -> (r: Vec<String>)
        requires
            self.wf(),
        ensures
            words(r@).no_duplicates(),
            word_set(r@) == first_sym(*self, sym@, fuel as nat),
        decreases fuel, 2int,
    {
        let mut out: Vec<String> = Vec::new();
        if has_word(&self.terminals, sym) {
            add_word(&mut out, sym.clone());
            assert(word_set(out@) =~= set![sym@]);
            return out;
        }
        match entry_index(&self.productions, sym) {
            None => {
                assert(!entry_map(self.productions@).contains_key(sym@));
                assert(word_set(out@) =~= Set::empty());
                out
            },
            Some(e) => {
                proof { lemma_entry_at(self.productions@, e as int); }
                let ps = &self.productions[e].1;
                let ghost wps = words(ps@);
                let mut k: usize = 0;
                assert(word_set(out@) =~= Set::empty());
                while k < ps.len()
                    invariant
                        self.wf(),
                        e < self.productions@.len(),
                        ps == &self.productions@[e as int].1,
                        wps == words(ps@),
                        wps == entry_map(self.productions@)[sym@],
                        k <= ps@.len(),
                        words(out@).no_duplicates(),
                        word_set(out@).union(first_alts(*self, wps, k as int, fuel as nat)) == first_alts(*self, wps, 0, fuel as nat),
                    decreases ps.len() - k,
                {
                    let f = self.first_alt_exec(&ps[k], fuel);
                    assert(wps[k as int] == ps@[k as int]@);
                    add_all(&mut out, &f);
                    k += 1;
                    assert(word_set(out@).union(first_alts(*self, wps, k as int, fuel as nat)) =~= first_alts(*self, wps, 0, fuel as nat));
                }
                assert(first_alts(*self, wps, k as int, fuel as nat) =~= Set::empty());
                assert(word_set(out@) =~= first_sym(*self, sym@, fuel as nat));
                out
            },
        }
    }

    fn first_alt_exec(&self, p: &String, fuel: usize) -> (r: Vec<String>)
        requires
            self.wf(),
        ensures
            words(r@).no_duplicates(),
            word_set(r@) == first_alt(*self, p@, 0, fuel as nat),
        decreases fuel, 1int,
    {
        let eps_word = char_string('ε');
        let text = p.as_str();
        let n = text.unicode_len();
        let mut out: Vec<String> = Vec::new();
        let mut i: usize = 0;
        let mut done = false;
        assert(word_set(out@) =~= Set::empty());
        while i < n && !done
            invariant
                self.wf(),
                text@ == p@,
                n == p@.len(),
                i <= n,
                eps_word@ == eps(),
                words(out@).no_duplicates(),
                !done ==> word_set(out@).union(first_alt(*self, p@, i as int, fuel as nat)) == first_alt(*self, p@, 0, fuel as nat),
                done ==> word_set(out@) == first_alt(*self, p@, 0, fuel as nat),
            decreases n - i + (if done { 0int } else { 1int }),
        {
            let sym = char_string(text.get_char(i));
            assert(sym@ == seq![p@[i as int]]);
            if sym == eps_word {
                add_word(&mut out, sym);
                i += 1;
            } else if has_word(&self.terminals, &sym) {
                add_word(&mut out, sym);
                done = true;
            } else {
                let nested = if fuel == 0 {
                    let v: Vec<String> = Vec::new();
                    assert(word_set(v@) =~= Set::empty());
                    v
                } else {
                    self.first_sym_exec(&sym, fuel - 1)
                };
                add_words_except(&mut out, &nested, &eps_word);
                if has_word(&nested, &eps_word) {
                    i += 1;
                } else {
                    done = true;
                }
            }
            proof {
                if !done {
                    assert(word_set(out@).union(first_alt(*self, p@, i as int, fuel as nat)) =~= first_alt(*self, p@, 0, fuel as nat));
                } else {
                    assert(word_set(out@) =~= first_alt(*self, p@, 0, fuel as nat));
                }
            }
        }
        if !done {
            add_word(&mut out, eps_word);
            assert(word_set(out@) =~= first_alt(*self, p@, 0, fuel as nat));
        }
        out
    }

    /// FIRST of `symbol`, expanding non-terminals to a depth of one more than the
    /// number of non-terminals, which a grammar without left recursion never needs.
    pub fn eliminate_first(&self, symbol: &str) -> (r: Vec<String>)
        requires
            self.wf(),
            self.non_terminals@.len() < usize::MAX,
        ensures
            words(r@).no_duplicates(),
            word_set(r@) == first_sym(*self, symbol@, (self.non_terminals@.len() + 1) as nat),
    {
        let sym = string_of(symbol);
        self.first_sym_exec(&sym, self.non_terminals.len() + 1)
    }

    /// FIRST of every non-terminal, in the order of the non-terminals.
    pub fn calculate_first_sets(&self) -> (r: Vec<(String, Vec<String>)>)
        requires
            self.wf(),
            self.non_terminals@.len() < usize::MAX,
        ensures
            r@.len() == self.non_terminals@.len(),
            keys_unique(r@),
            forall|i: int| 0 <= i < r@.len() ==> (#[trigger] r@[i]).0@ == self.non_terminals@[i]@
                && word_set(r@[i].1@) == first_sym(*self, self.non_terminals@[i]@, (self.non_terminals@.len() + 1) as nat),
    {
        let mut r: Vec<(String, Vec<String>)> = Vec::new();
        let mut i: usize = 0;
        while i < self.non_terminals.len()
            invariant
                self.wf(),
                self.non_terminals@.len() < usize::MAX,
                i <= self.non_terminals@.len(),
                r@.len() == i,
                forall|k: int| 0 <= k < i ==> (#[trigger] r@[k]).0@ == self.non_terminals@[k]@
                    && word_set(r@[k].1@) == first_sym(*self, self.non_terminals@[k]@, (self.non_terminals@.len() + 1) as nat),
            decreases self.non_terminals.len() - i,
        {
            let nt = self.non_terminals[i].clone();
            let f = self.eliminate_first(nt.as_str());
            r.push((nt, f));
            i += 1;
        }
        proof {
            assert forall|a: int, b: int| 0 <= a < r@.len() && 0 <= b < r@.len() && a != b implies (#[trigger] r@[a]).0@ != (#[trigger] r@[b]).0@ by {
                assert(words(self.non_terminals@)[a] != words(self.non_terminals@)[b]);
            }
        }
        r
    }
}


/// FOLLOW sets as a map from non-terminal to set of terminals.
pub type FollowMap = Map<Seq<char>, Set<Seq<char>>>;

pub open spec fn fget(f: FollowMap, k: Seq<char>) -> Set<Seq<char>> {
    if f.contains_key(k) { f[k] } else { Set::empty() }
}

/// One position of the backward walk over an alternative of `lhs`: a non-terminal at
/// `i` takes the trailer into its FOLLOW set; the next trailer is FIRST of the symbol at
/// `i` (and FOLLOW of `lhs` when that FIRST holds ε) if the symbol before it is a
/// non-terminal, nothing if it is not, and FOLLOW of `lhs` at the front.
pub open spec fn follow_pos(g: Grammar, lhs: Seq<char>, p: Seq<char>, i: int, f: FollowMap, trailer: Set<Seq<char>>) -> (FollowMap, Set<Seq<char>>) {
    let sym = seq![p[i]];
    let nts = word_set(g.non_terminals@);
    let f1 = if nts.contains(sym) { f.insert(sym, fget(f, sym).union(trailer)) } else { f };
    let t1 = if i > 0 {
        if nts.contains(seq![p[i - 1]]) {
            match entry_set(g.first_sets@, sym) {
                Some(fs) => fs.remove(eps()).union(if fs.contains(eps()) { fget(f1, lhs) } else { Set::empty() }),
                None => Set::empty(),
            }
        } else {
            Set::empty()
        }
    } else {
        fget(f1, lhs)
    };
    (f1, t1)
}

/// The walk over an alternative from position `i` down to the front.
pub open spec fn follow_alt(g: Grammar, lhs: Seq<char>, p: Seq<char>, i: int, f: FollowMap, trailer: Set<Seq<char>>) -> FollowMap
    decreases i + 1,
{
    if i < 0 || i >= p.len() {
        f
    } else {
        let (f1, t1) = follow_pos(g, lhs, p, i, f, trailer);
        follow_alt(g, lhs, p, i - 1, f1, t1)
    }
}

/// The walks over the alternatives `ps` of `lhs` from index `k` on.
pub open spec fn follow_alts(g: Grammar, lhs: Seq<char>, ps: Seq<Seq<char>>, k: int, f: FollowMap) -> FollowMap
    decreases ps.len() - k,
{
    if k < 0 || k >= ps.len() {
        f
    } else {
        follow_alts(g, lhs, ps, k + 1, follow_alt(g, lhs, ps[k], ps[k].len() - 1, f, fget(f, lhs)))
    }
}

/// One round over the productions from entry `e` on.
pub open spec fn follow_round(g: Grammar, e: int, f: FollowMap) -> FollowMap
    decreases g.productions@.len() - e,
{
    if e < 0 || e >= g.productions@.len() {
        f
    } else {
        follow_round(g, e + 1, follow_alts(g, g.productions@[e].0@, words(g.productions@[e].1@), 0, f))
    }
}

/// `n` rounds from `f`.
pub open spec fn follow_rounds(g: Grammar, f: FollowMap, n: nat) -> FollowMap
    decreases n,
{
    if n == 0 {
        f
    } else {
        follow_rounds(g, follow_round(g, 0, f), (n - 1) as nat)
    }
}

/// The starting FOLLOW sets: the recorded ones, an empty one for each non-terminal
/// without one, and `$` in that of the start symbol.
pub open spec fn follow_init(g: Grammar) -> FollowMap {
    let base = Map::new(
        |k: Seq<char>| entry_map(g.follow_sets@).contains_key(k) || word_set(g.non_terminals@).contains(k),
        |k: Seq<char>| if entry_map(g.follow_sets@).contains_key(k) { entry_map(g.follow_sets@)[k].to_set() } else { Set::empty() },
    );
    match g.start_symbol {
        Some(s) => base.insert(s@, fget(base, s@).insert(seq!['$'])),
        None => base,
    }
}

/// The FOLLOW sets as a map.
pub open spec fn follow_view(v: Seq<(String, Vec<String>)>) -> FollowMap {
    Map::new(|k: Seq<char>| entry_map(v).contains_key(k), |k: Seq<char>| entry_map(v)[k].to_set())
}


/// The number of words over all entries.
pub open spec fn total_len(v: Seq<(String, Vec<String>)>) -> int
    decreases v.len(),
{
    if v.len() == 0 {
        0
    } else {
        total_len(v.drop_last()) + v.last().1@.len()
    }
}

proof fn lemma_total_update(v: Seq<(String, Vec<String>)>, w: Seq<(String, Vec<String>)>, i: int)
    requires
        0 <= i < v.len(),
        w.len() == v.len(),
        forall|j: int| 0 <= j < v.len() && j != i ==> #[trigger] w[j] == v[j],
    ensures
        total_len(w) == total_len(v) - v[i].1@.len() + w[i].1@.len(),
    decreases v.len(),
{
    if i < v.len() - 1 {
        lemma_total_update(v.drop_last(), w.drop_last(), i);
        assert(w.last() == v.last());
    } else {
        assert(w.drop_last() =~= v.drop_last());
    }
}

proof fn lemma_total_bound(v: Seq<(String, Vec<String>)>, b: int)
    requires
        0 <= b,
        forall|j: int| 0 <= j < v.len() ==> (#[trigger] v[j]).1@.len() <= b,
    ensures
        0 <= total_len(v) <= v.len() * b,
    decreases v.len(),
{
    if v.len() > 0 {
        lemma_total_bound(v.drop_last(), b);
        assert(v.last().1@.len() <= b);
        assert((v.len() - 1) * b + b == v.len() * b) by (nonlinear_arith);
    }
}

/// Distinct words within the words of `u` number at most `u.len()`.
proof fn lemma_words_bounded(v: Seq<String>, u: Seq<String>)
    requires
        words(v).no_duplicates(),
        words(u).no_duplicates(),
        word_set(v).subset_of(word_set(u)),
    ensures
        v.len() <= u.len(),
{
    words(v).unique_seq_to_set();
    words(u).unique_seq_to_set();
    assert forall|x: Seq<char>| words(v).to_set().contains(x) implies words(u).to_set().contains(x) by {
        let i = choose|i: int| 0 <= i < words(v).len() && words(v)[i] == x;
        assert(word_set(v).contains(v[i]@));
        let j = choose|j: int| 0 <= j < u.len() && (#[trigger] u[j])@ == x;
        assert(words(u)[j] == x);
    }
    vstd::set_lib::lemma_len_subset(words(v).to_set(), words(u).to_set());
}

proof fn lemma_word_set_to_set(v: Seq<String>)
    ensures
        words(v).to_set() == word_set(v),
{
    assert forall|x: Seq<char>| words(v).to_set().contains(x) <==> word_set(v).contains(x) by {
        if words(v).to_set().contains(x) {
            let i = choose|i: int| 0 <= i < words(v).len() && words(v)[i] == x;
            assert(v[i]@ == x);
        }
        if word_set(v).contains(x) {
            let i = choose|i: int| 0 <= i < v.len() && (#[trigger] v[i])@ == x;
            assert(words(v)[i] == x);
        }
    }
    assert(words(v).to_set() =~= word_set(v));
}

/// Replacing the words of entry `i` changes the map at its key alone.
proof fn lemma_update_entry(v: Seq<(String, Vec<String>)>, w: Seq<(String, Vec<String>)>, i: int)
    requires
        keys_unique(v),
        0 <= i < v.len(),
        w.len() == v.len(),
        forall|j: int| 0 <= j < v.len() && j != i ==> #[trigger] w[j] == v[j],
        w[i].0@ == v[i].0@,
    ensures
        keys_unique(w),
        follow_view(w) == follow_view(v).insert(v[i].0@, word_set(w[i].1@)),
{
    assert forall|a: int, b: int| 0 <= a < w.len() && 0 <= b < w.len() && a != b implies (#[trigger] w[a]).0@ != (#[trigger] w[b]).0@ by {
        assert(v[a].0@ != v[b].0@);
    }
    let k = v[i].0@;
    assert forall|x: Seq<char>| follow_view(w).contains_key(x) <==> follow_view(v).insert(k, word_set(w[i].1@)).contains_key(x) by {
        if entry_map(w).contains_key(x) {
            let j = choose|j: int| 0 <= j < w.len() && (#[trigger] w[j]).0@ == x;
            assert(v[j].0@ == x);
        }
        if entry_map(v).contains_key(x) {
            let j = choose|j: int| 0 <= j < v.len() && (#[trigger] v[j]).0@ == x;
            assert(w[j].0@ == x);
        }
        if x == k {
            assert(w[i].0@ == x);
        }
    }
    assert forall|x: Seq<char>| #[trigger] follow_view(w).contains_key(x) implies follow_view(w)[x] == follow_view(v).insert(k, word_set(w[i].1@))[x] by {
        let j = choose|j: int| 0 <= j < w.len() && (#[trigger] w[j]).0@ == x;
        lemma_entry_at(w, j);
        lemma_word_set_to_set(w[j].1@);
        if j != i {
            lemma_entry_at(v, j);
            lemma_word_set_to_set(v[j].1@);
        }
    }
    assert(follow_view(w) =~= follow_view(v).insert(k, word_set(w[i].1@)));
}

proof fn lemma_follow_view_at(v: Seq<(String, Vec<String>)>, i: int)
    requires
        keys_unique(v),
        0 <= i < v.len(),
    ensures
        follow_view(v).contains_key(v[i].0@),
        follow_view(v)[v[i].0@] == word_set(v[i].1@),
{
    lemma_entry_at(v, i);
    lemma_word_set_to_set(v[i].1@);
}

/// The grammar's non-terminals all have FOLLOW entries, and every word of an entry is
/// one of `u`.
pub open spec fn follow_ok(g: Grammar, v: Seq<(String, Vec<String>)>, u: Seq<String>) -> bool {
    &&& keys_unique(v)
    &&& forall|j: int| 0 <= j < v.len() ==> words((#[trigger] v[j]).1@).no_duplicates()
    &&& forall|j: int| 0 <= j < v.len() ==> word_set((#[trigger] v[j]).1@).subset_of(word_set(u))
    &&& forall|k: Seq<char>| #[trigger] word_set(g.non_terminals@).contains(k) ==> entry_map(v).contains_key(k)
}


/// Adds the words of `t` to the words of entry `i`, reporting whether any was new.
fn extend_entry(follow: &mut Vec<(String, Vec<String>)>, i: usize, t: &Vec<String>) -> (grew: bool)
    requires
        keys_unique(old(follow)@),
        i < old(follow)@.len(),
        words(old(follow)@[i as int].1@).no_duplicates(),
    ensures
        final(follow)@.len() == old(follow)@.len(),
        forall|j: int| 0 <= j < old(follow)@.len() && j != i ==> #[trigger] final(follow)@[j] == old(follow)@[j],
        final(follow)@[i as int].0 == old(follow)@[i as int].0,
        words(final(follow)@[i as int].1@).no_duplicates(),
        word_set(final(follow)@[i as int].1@) == word_set(old(follow)@[i as int].1@).union(word_set(t@)),
        grew ==> final(follow)@[i as int].1@.len() > old(follow)@[i as int].1@.len(),
        !grew ==> final(follow)@[i as int].1@ == old(follow)@[i as int].1@,
        keys_unique(final(follow)@),
        follow_view(final(follow)@) == follow_view(old(follow)@).insert(
            old(follow)@[i as int].0@,
            word_set(old(follow)@[i as int].1@).union(word_set(t@)),
        ),
{
    let mut grew = false;
    let mut k: usize = 0;
    while k < t.len()
        invariant
            follow@.len() == old(follow)@.len(),
            i < follow@.len(),
            forall|j: int| 0 <= j < old(follow)@.len() && j != i ==> #[trigger] follow@[j] == old(follow)@[j],
            follow@[i as int].0 == old(follow)@[i as int].0,
            words(follow@[i as int].1@).no_duplicates(),
            k <= t@.len(),
            word_set(follow@[i as int].1@) == word_set(old(follow)@[i as int].1@).union(word_set(t@.subrange(0, k as int))),
            grew ==> follow@[i as int].1@.len() > old(follow)@[i as int].1@.len(),
            !grew ==> follow@[i as int].1@ == old(follow)@[i as int].1@,
            follow@[i as int].1@.len() >= old(follow)@[i as int].1@.len(),
        decreases t.len() - k,
    {
        let ghost prev = word_set(t@.subrange(0, k as int));
        proof {
            assert forall|x: Seq<char>| word_set(t@.subrange(0, k + 1)).contains(x) <==> prev.insert(t@[k as int]@).contains(x) by {
                if word_set(t@.subrange(0, k + 1)).contains(x) {
                    let j = choose|j: int| 0 <= j < k + 1 && (#[trigger] t@.subrange(0, k + 1)[j])@ == x;
                    if j < k {
                        assert(t@.subrange(0, k as int)[j] == t@[j]);
                    }
                }
                if prev.contains(x) {
                    let j = choose|j: int| 0 <= j < k && (#[trigger] t@.subrange(0, k as int)[j])@ == x;
                    assert(t@.subrange(0, k + 1)[j] == t@[j]);
                }
                if x == t@[k as int]@ {
                    assert(t@.subrange(0, k + 1)[k as int] == t@[k as int]);
                }
            }
            assert(word_set(t@.subrange(0, k + 1)) =~= prev.insert(t@[k as int]@));
        }
        let present = has_word(&follow[i].1, &t[k]);
        if !present {
            add_word(&mut follow[i].1, t[k].clone());
            grew = true;
        }
        k += 1;
        proof {
            assert(word_set(follow@[i as int].1@) =~= word_set(old(follow)@[i as int].1@).union(word_set(t@.subrange(0, k as int))));
        }
    }
    assert(t@.subrange(0, k as int) =~= t@);
    proof {
        lemma_update_entry(old(follow)@, follow@, i as int);
    }
    grew
}

impl Grammar {
    /// The position of the FOLLOW entry of `k`.
    fn follow_index(follow: &Vec<(String, Vec<String>)>, k: &String) -> (r: Option<usize>)
        requires
            keys_unique(follow@),
        ensures
            match r {
                Some(i) => i < follow@.len() && follow@[i as int].0@ == k@ && follow_view(follow@).contains_key(k@)
                    && follow_view(follow@)[k@] == word_set(follow@[i as int].1@),
                None => !follow_view(follow@).contains_key(k@),
            },
    {
        let r = entry_index(follow, k);
        match r {
            Some(i) => {
                proof { lemma_follow_view_at(follow@, i as int); }
            },
            None => {},
        }
        r
    }

    /// The walk over one alternative of `lhs`, from its last symbol to its first.
    fn follow_alt_exec(&self, lhs: &String, p: &String, follow: &mut Vec<(String, Vec<String>)>, u: Ghost<Seq<String>>) -> (grew: bool)
        requires
            self.wf(),
            follow_ok(*self, old(follow)@, u@),
            words(u@).no_duplicates(),
            forall|e: int| 0 <= e < self.first_sets@.len() ==> word_set((#[trigger] self.first_sets@[e]).1@).subset_of(word_set(u@)),
        ensures
            follow_ok(*self, final(follow)@, u@),
            final(follow)@.len() == old(follow)@.len(),
            follow_view(final(follow)@) == follow_alt(*self, lhs@, p@, p@.len() - 1, follow_view(old(follow)@), fget(follow_view(old(follow)@), lhs@)),
            total_len(final(follow)@) >= total_len(old(follow)@),
            grew ==> total_len(final(follow)@) > total_len(old(follow)@),
            !grew ==> follow_view(final(follow)@) == follow_view(old(follow)@),
    {
        let text = p.as_str();
        let n = text.unicode_len();
        let mut grew = false;
        let mut trailer: Vec<String> = match Self::follow_index(follow, lhs) {
            Some(li) => {
                let mut t: Vec<String> = Vec::new();
                assert(word_set(t@) =~= Set::empty());
                add_all(&mut t, &follow[li].1);
                assert(word_set(t@) =~= word_set(follow@[li as int].1@));
                t
            },
            None => {
                let t: Vec<String> = Vec::new();
                assert(word_set(t@) =~= Set::empty());
                t
            },
        };
        let mut i: usize = n;
        while i > 0
            invariant
                self.wf(),
                text@ == p@,
                n == p@.len(),
                i <= n,
                words(u@).no_duplicates(),
                forall|e: int| 0 <= e < self.first_sets@.len() ==> word_set((#[trigger] self.first_sets@[e]).1@).subset_of(word_set(u@)),
                follow_ok(*self, follow@, u@),
                follow@.len() == old(follow)@.len(),
                words(trailer@).no_duplicates(),
                word_set(trailer@).subset_of(word_set(u@)),
                follow_alt(*self, lhs@, p@, i - 1, follow_view(follow@), word_set(trailer@))
                    == follow_alt(*self, lhs@, p@, p@.len() - 1, follow_view(old(follow)@), fget(follow_view(old(follow)@), lhs@)),
                total_len(follow@) >= total_len(old(follow)@),
                grew ==> total_len(follow@) > total_len(old(follow)@),
                !grew ==> follow_view(follow@) == follow_view(old(follow)@),
            decreases i,
        {
            let ghost f0 = follow_view(follow@);
            let ghost t0 = word_set(trailer@);
            let ghost v0 = follow@;
            let pos = i - 1;
            let sym = char_string(text.get_char(pos));
            assert(sym@ == seq![p@[pos as int]]);
            if has_word(&self.non_terminals, &sym) {
                let si = Self::follow_index(follow, &sym).unwrap();
                let g = extend_entry(follow, si, &trailer);
                proof {
                    lemma_total_update(v0, follow@, si as int);
                    assert forall|j: int| 0 <= j < follow@.len() implies word_set((#[trigger] follow@[j]).1@).subset_of(word_set(u@)) by {
                        if j != si {
                            assert(follow@[j] == v0[j]);
                        }
                    }
                    assert forall|j: int| 0 <= j < follow@.len() implies words((#[trigger] follow@[j]).1@).no_duplicates() by {
                        if j != si {
                            assert(follow@[j] == v0[j]);
                        }
                    }
                    assert forall|k: Seq<char>| #[trigger] word_set(self.non_terminals@).contains(k) implies entry_map(follow@).contains_key(k) by {
                        assert(entry_map(v0).contains_key(k));
                        assert(follow_view(v0).contains_key(k));
                        assert(follow_view(follow@).contains_key(k));
                    }
                    if !g {
                        assert(follow_view(follow@) =~= f0);
                    }
                }
                if g {
                    grew = true;
                }
            }
            let ghost f1 = follow_view(follow@);
            assert(f1 == follow_pos(*self, lhs@, p@, pos as int, f0, t0).0);
            // the next trailer
            let mut next: Vec<String> = Vec::new();
            assert(word_set(next@) =~= Set::empty());
            if pos > 0 {
                let prev = char_string(text.get_char(pos - 1));
                assert(prev@ == seq![p@[pos - 1]]);
                if has_word(&self.non_terminals, &prev) {
                    match entry_index(&self.first_sets, &sym) {
                        Some(e) => {
                            proof { lemma_entry_set(self.first_sets@, e as int); }
                            let eps_word = char_string('ε');
                            add_words_except(&mut next, &self.first_sets[e].1, &eps_word);
                            if has_word(&self.first_sets[e].1, &eps_word) {
                                match Self::follow_index(follow, lhs) {
                                    Some(li) => add_all(&mut next, &follow[li].1),
                                    None => {},
                                }
                            }
                        },
                        None => {
                            assert(!entry_map(self.first_sets@).contains_key(sym@));
                        },
                    }
                }
            } else {
                match Self::follow_index(follow, lhs) {
                    Some(li) => add_all(&mut next, &follow[li].1),
                    None => {},
                }
            }
            proof {
                assert(word_set(next@) =~= follow_pos(*self, lhs@, p@, pos as int, f0, t0).1);
                assert(word_set(next@).subset_of(word_set(u@)));
            }
            trailer = next;
            i -= 1;
        }
        grew
    }
}


proof fn lemma_rounds_succ(g: Grammar, f: FollowMap, n: nat)
    ensures
        follow_rounds(g, f, n + 1) == follow_round(g, 0, follow_rounds(g, f, n)),
    decreases n,
{
    assert(follow_rounds(g, f, n + 1) == follow_rounds(g, follow_round(g, 0, f), n));
    if n > 0 {
        lemma_rounds_succ(g, follow_round(g, 0, f), (n - 1) as nat);
        assert(follow_rounds(g, f, n) == follow_rounds(g, follow_round(g, 0, f), (n - 1) as nat));
    } else {
        assert(follow_rounds(g, follow_round(g, 0, f), 0) == follow_round(g, 0, f));
    }
}

impl Grammar {
    /// One round of the FOLLOW computation over all productions.
    fn follow_round_exec(&self, follow: &mut Vec<(String, Vec<String>)>, u: Ghost<Seq<String>>) -> (grew: bool)
        requires
            self.wf(),
            follow_ok(*self, old(follow)@, u@),
            words(u@).no_duplicates(),
            forall|e: int| 0 <= e < self.first_sets@.len() ==> word_set((#[trigger] self.first_sets@[e]).1@).subset_of(word_set(u@)),
        ensures
            follow_ok(*self, final(follow)@, u@),
            final(follow)@.len() == old(follow)@.len(),
            follow_view(final(follow)@) == follow_round(*self, 0, follow_view(old(follow)@)),
            total_len(final(follow)@) >= total_len(old(follow)@),
            grew ==> total_len(final(follow)@) > total_len(old(follow)@),
            !grew ==> follow_view(final(follow)@) == follow_view(old(follow)@),
    {
        let mut grew = false;
        let mut e: usize = 0;
        while e < self.productions.len()
            invariant
                self.wf(),
                words(u@).no_duplicates(),
                forall|q: int| 0 <= q < self.first_sets@.len() ==> word_set((#[trigger] self.first_sets@[q]).1@).subset_of(word_set(u@)),
                follow_ok(*self, follow@, u@),
                follow@.len() == old(follow)@.len(),
                e <= self.productions@.len(),
                follow_round(*self, e as int, follow_view(follow@)) == follow_round(*self, 0, follow_view(old(follow)@)),
                total_len(follow@) >= total_len(old(follow)@),
                grew ==> total_len(follow@) > total_len(old(follow)@),
                !grew ==> follow_view(follow@) == follow_view(old(follow)@),
            decreases self.productions.len() - e,
        {
            let lhs = &self.productions[e].0;
            let ps = &self.productions[e].1;
            let ghost f_e = follow_view(follow@);
            let mut k: usize = 0;
            while k < ps.len()
                invariant
                    self.wf(),
                    words(u@).no_duplicates(),
                    forall|q: int| 0 <= q < self.first_sets@.len() ==> word_set((#[trigger] self.first_sets@[q]).1@).subset_of(word_set(u@)),
                    follow_ok(*self, follow@, u@),
                    follow@.len() == old(follow)@.len(),
                    e < self.productions@.len(),
                    lhs == &self.productions@[e as int].0,
                    ps == &self.productions@[e as int].1,
                    k <= ps@.len(),
                    follow_alts(*self, lhs@, words(ps@), k as int, follow_view(follow@)) == follow_alts(*self, lhs@, words(ps@), 0, f_e),
                    total_len(follow@) >= total_len(old(follow)@),
                    grew ==> total_len(follow@) > total_len(old(follow)@),
                    !grew ==> follow_view(follow@) == follow_view(old(follow)@),
                decreases ps.len() - k,
            {
                assert(words(ps@)[k as int] == ps@[k as int]@);
                if self.follow_alt_exec(lhs, &ps[k], follow, u) {
                    grew = true;
                }
                k += 1;
            }
            assert(follow_view(follow@) == follow_alts(*self, lhs@, words(ps@), 0, f_e));
            e += 1;
        }
        grew
    }

    /// Computes the FOLLOW sets by rounds over the productions until a round adds
    /// nothing, starting from the recorded sets, an empty set for every other
    /// non-terminal, and `$` for the start symbol. Returns the sets it records.
    pub fn calculate_follow_sets(&mut self) -> (r: Vec<(String, Vec<String>)>)
        requires
            old(self).wf(),
        ensures
            final(self).wf(),
            final(self).non_terminals == old(self).non_terminals,
            final(self).terminals == old(self).terminals,
            final(self).productions == old(self).productions,
            final(self).first_sets == old(self).first_sets,
            final(self).start_symbol == old(self).start_symbol,
            exists|n: nat| follow_view(final(self).follow_sets@) == follow_rounds(*old(self), follow_init(*old(self)), n),
            follow_round(*old(self), 0, follow_view(final(self).follow_sets@)) == follow_view(final(self).follow_sets@),
            follow_view(r@) == follow_view(final(self).follow_sets@),
    {
        let ghost g = *self;
        let mut follow = copy_entries(&self.follow_sets);
        // an entry for every non-terminal
        let mut i: usize = 0;
        while i < self.non_terminals.len()
            invariant
                *self == g,
                g.wf(),
                i <= self.non_terminals@.len(),
                keys_unique(follow@),
                forall|j: int| 0 <= j < follow@.len() ==> words((#[trigger] follow@[j]).1@).no_duplicates(),
                forall|k: Seq<char>| follow_view(follow@).contains_key(k) <==> (entry_map(g.follow_sets@).contains_key(k)
                    || word_set(self.non_terminals@.subrange(0, i as int)).contains(k)),
                forall|k: Seq<char>| #[trigger] follow_view(follow@).contains_key(k) ==> follow_view(follow@)[k]
                    == (if entry_map(g.follow_sets@).contains_key(k) { entry_map(g.follow_sets@)[k].to_set() } else { Set::empty() }),
            decreases self.non_terminals.len() - i,
        {
            let ghost prev = word_set(self.non_terminals@.subrange(0, i as int));
            proof {
                assert forall|x: Seq<char>| word_set(self.non_terminals@.subrange(0, i + 1)).contains(x) <==> prev.insert(self.non_terminals@[i as int]@).contains(x) by {
                    if word_set(self.non_terminals@.subrange(0, i + 1)).contains(x) {
                        let j = choose|j: int| 0 <= j < i + 1 && (#[trigger] self.non_terminals@.subrange(0, i + 1)[j])@ == x;
                        if j < i {
                            assert(self.non_terminals@.subrange(0, i as int)[j] == self.non_terminals@[j]);
                        }
                    }
                    if prev.contains(x) {
                        let j = choose|j: int| 0 <= j < i && (#[trigger] self.non_terminals@.subrange(0, i as int)[j])@ == x;
                        assert(self.non_terminals@.subrange(0, i + 1)[j] == self.non_terminals@[j]);
                    }
                    if x == self.non_terminals@[i as int]@ {
                        assert(self.non_terminals@.subrange(0, i + 1)[i as int] == self.non_terminals@[i as int]);
                    }
                }
                assert(word_set(self.non_terminals@.subrange(0, i + 1)) =~= prev.insert(self.non_terminals@[i as int]@));
            }
            let nt = &self.non_terminals[i];
            match Self::follow_index(&follow, nt) {
                Some(_) => {},
                None => {
                    proof {
                        assert(!entry_map(g.follow_sets@).contains_key(nt@));
                    }
                    let ghost before = follow@;
                    follow.push((nt.clone(), Vec::new()));
                    proof { lemma_push_entry(before, follow@); }
                },
            }
            i += 1;
        }
        assert(self.non_terminals@.subrange(0, i as int) =~= self.non_terminals@);
        let ghost base = Map::new(
            |k: Seq<char>| entry_map(g.follow_sets@).contains_key(k) || word_set(g.non_terminals@).contains(k),
            |k: Seq<char>| if entry_map(g.follow_sets@).contains_key(k) { entry_map(g.follow_sets@)[k].to_set() } else { Set::empty() },
        );
        assert(follow_view(follow@) =~= base);
        // `$` for the start symbol
        match &self.start_symbol {
            Some(st) => {
                let si = match Self::follow_index(&follow, st) {
                    Some(si) => si,
                    None => {
                        let ghost before = follow@;
                        follow.push((st.clone(), Vec::new()));
                        proof { lemma_push_entry(before, follow@); }
                        follow.len() - 1
                    },
                };
                proof { lemma_follow_view_at(follow@, si as int); }
                let mut dollar: Vec<String> = Vec::new();
                add_word(&mut dollar, char_string('$'));
                assert(word_set(dollar@) =~= set![seq!['$']]);
                let ghost mid = follow_view(follow@);
                assert(mid[st@] == fget(base, st@));
                extend_entry(&mut follow, si, &dollar);
                assert(fget(base, st@).union(set![seq!['$']]) =~= fget(base, st@).insert(seq!['$']));
                assert(follow_view(follow@) =~= follow_init(g));
            },
            None => {
                assert(follow_view(follow@) =~= follow_init(g));
            },
        }
        // every word that can appear
        let mut u: Vec<String> = Vec::new();
        let mut j: usize = 0;
        while j < follow.len()
            invariant
                j <= follow@.len(),
                words(u@).no_duplicates(),
                forall|q: int| 0 <= q < j ==> word_set((#[trigger] follow@[q]).1@).subset_of(word_set(u@)),
            decreases follow.len() - j,
        {
            add_all(&mut u, &follow[j].1);
            j += 1;
        }
        let mut j: usize = 0;
        while j < self.first_sets.len()
            invariant
                j <= self.first_sets@.len(),
                words(u@).no_duplicates(),
                forall|q: int| 0 <= q < follow@.len() ==> word_set((#[trigger] follow@[q]).1@).subset_of(word_set(u@)),
                forall|q: int| 0 <= q < j ==> word_set((#[trigger] self.first_sets@[q]).1@).subset_of(word_set(u@)),
            decreases self.first_sets.len() - j,
        {
            add_all(&mut u, &self.first_sets[j].1);
            j += 1;
        }
        let ghost uv = u@;
        let ghost bound = follow@.len() * uv.len();
        let ghost init = follow_init(g);
        let ghost mut n: nat = 0;
        let mut changed = true;
        proof {
            assert forall|k: Seq<char>| #[trigger] word_set(g.non_terminals@).contains(k) implies entry_map(follow@).contains_key(k) by {
                assert(follow_view(follow@).contains_key(k));
            }
            assert forall|q: int| 0 <= q < follow@.len() implies (#[trigger] follow@[q]).1@.len() <= uv.len() by {
                lemma_words_bounded(follow@[q].1@, uv);
            }
            lemma_total_bound(follow@, uv.len() as int);
        }
        while changed
            invariant
                *self == g,
                g.wf(),
                words(uv).no_duplicates(),
                forall|q: int| 0 <= q < self.first_sets@.len() ==> word_set((#[trigger] self.first_sets@[q]).1@).subset_of(word_set(uv)),
                follow_ok(g, follow@, uv),
                bound == follow@.len() * uv.len(),
                0 <= total_len(follow@) <= bound,
                follow_view(follow@) == follow_rounds(g, init, n),
                !changed ==> follow_round(g, 0, follow_view(follow@)) == follow_view(follow@),
            decreases 2 * (bound - total_len(follow@)) + (if changed { 1int } else { 0int }),
        {
            let ghost t0 = total_len(follow@);
            let ghost f0 = follow_view(follow@);
            let grew = self.follow_round_exec(&mut follow, Ghost(uv));
            proof {
                lemma_rounds_succ(g, init, n);
                n = n + 1;
                assert forall|q: int| 0 <= q < follow@.len() implies (#[trigger] follow@[q]).1@.len() <= uv.len() by {
                    lemma_words_bounded(follow@[q].1@, uv);
                }
                lemma_total_bound(follow@, uv.len() as int);
            }
            changed = grew;
        }
        let r = copy_entries(&follow);
        self.follow_sets = follow;
        r
    }
}

/// A copy of a list of entries with duplicate words dropped.
fn copy_entries(v: &Vec<(String, Vec<String>)>) -> (r: Vec<(String, Vec<String>)>)
    requires
        keys_unique(v@),
    ensures
        keys_unique(r@),
        r@.len() == v@.len(),
        forall|j: int| 0 <= j < r@.len() ==> words((#[trigger] r@[j]).1@).no_duplicates(),
        forall|j: int| 0 <= j < r@.len() ==> (#[trigger] r@[j]).0@ == v@[j].0@ && word_set(r@[j].1@) == word_set(v@[j].1@),
        follow_view(r@) == follow_view(v@),
{
    let mut r: Vec<(String, Vec<String>)> = Vec::new();
    let mut i: usize = 0;
    while i < v.len()
        invariant
            keys_unique(v@),
            i <= v@.len(),
            r@.len() == i,
            forall|j: int| 0 <= j < i ==> words((#[trigger] r@[j]).1@).no_duplicates(),
            forall|j: int| 0 <= j < i ==> (#[trigger] r@[j]).0@ == v@[j].0@ && word_set(r@[j].1@) == word_set(v@[j].1@),
        decreases v.len() - i,
    {
        let mut ws: Vec<String> = Vec::new();
        assert(word_set(ws@) =~= Set::empty());
        add_all(&mut ws, &v[i].1);
        r.push((v[i].0.clone(), ws));
        i += 1;
    }
    proof {
        assert forall|a: int, b: int| 0 <= a < r@.len() && 0 <= b < r@.len() && a != b implies (#[trigger] r@[a]).0@ != (#[trigger] r@[b]).0@ by {
            assert(v@[a].0@ != v@[b].0@);
        }
        assert forall|k: Seq<char>| follow_view(r@).contains_key(k) <==> follow_view(v@).contains_key(k) by {
            if entry_map(r@).contains_key(k) {
                let j = choose|j: int| 0 <= j < r@.len() && (#[trigger] r@[j]).0@ == k;
                assert(v@[j].0@ == k);
            }
            if entry_map(v@).contains_key(k) {
                let j = choose|j: int| 0 <= j < v@.len() && (#[trigger] v@[j]).0@ == k;
                assert(r@[j].0@ == k);
            }
        }
        assert forall|k: Seq<char>| #[trigger] follow_view(r@).contains_key(k) implies follow_view(r@)[k] == follow_view(v@)[k] by {
            let j = choose|j: int| 0 <= j < r@.len() && (#[trigger] r@[j]).0@ == k;
            lemma_follow_view_at(r@, j);
            lemma_follow_view_at(v@, j);
        }
        assert(follow_view(r@) =~= follow_view(v@));
    }
    r
}

/// Appending an entry for a new key extends the map by that key.
proof fn lemma_push_entry(v: Seq<(String, Vec<String>)>, w: Seq<(String, Vec<String>)>)
    requires
        keys_unique(v),
        w.len() == v.len() + 1,
        forall|j: int| 0 <= j < v.len() ==> #[trigger] w[j] == v[j],
        !entry_map(v).contains_key(w[v.len() as int].0@),
    ensures
        keys_unique(w),
        follow_view(w) == follow_view(v).insert(w[v.len() as int].0@, word_set(w[v.len() as int].1@)),
{
    let n = v.len() as int;
    assert forall|a: int, b: int| 0 <= a < w.len() && 0 <= b < w.len() && a != b implies (#[trigger] w[a]).0@ != (#[trigger] w[b]).0@ by {
        if a < n && b < n {
            assert(v[a].0@ != v[b].0@);
        } else if a < n {
            assert(entry_map(v).contains_key(v[a].0@));
        } else {
            assert(entry_map(v).contains_key(v[b].0@));
        }
    }
    let k = w[n].0@;
    assert forall|x: Seq<char>| follow_view(w).contains_key(x) <==> follow_view(v).insert(k, word_set(w[n].1@)).contains_key(x) by {
        if entry_map(w).contains_key(x) && x != k {
            let j = choose|j: int| 0 <= j < w.len() && (#[trigger] w[j]).0@ == x;
            assert(v[j].0@ == x);
        }
        if entry_map(v).contains_key(x) {
            let j = choose|j: int| 0 <= j < v.len() && (#[trigger] v[j]).0@ == x;
            assert(w[j].0@ == x);
        }
        if x == k {
            assert(w[n].0@ == x);
        }
    }
    assert forall|x: Seq<char>| #[trigger] follow_view(w).contains_key(x) implies follow_view(w)[x] == follow_view(v).insert(k, word_set(w[n].1@))[x] by {
        let j = choose|j: int| 0 <= j < w.len() && (#[trigger] w[j]).0@ == x;
        lemma_follow_view_at(w, j);
        if j < n {
            lemma_follow_view_at(v, j);
        }
    }
    assert(follow_view(w) =~= follow_view(v).insert(k, word_set(w[n].1@)));
}



/// Whether `c` is white space in the sense of `char::is_whitespace`.
pub uninterp spec fn is_white(c: char) -> bool;

/// Relies on `char::is_whitespace`: whether the character has the Unicode White_Space
/// property; the blank is one.
#[verifier::external_body]
fn char_is_whitespace(c: char) -> (r: bool)
    ensures
        r == is_white(c),
        c == ' ' ==> r,
{
    c.is_whitespace()
}

/// The words of `s` between runs of white space, from position `i` on, with `cur` the
/// part of a word read so far.
pub open spec fn split_from(s: Seq<char>, i: int, cur: Seq<char>) -> Seq<Seq<char>>
    decreases s.len() - i,
{
    if i < 0 || i >= s.len() {
        if cur.len() > 0 { seq![cur] } else { Seq::empty() }
    } else if is_white(s[i]) {
        (if cur.len() > 0 { seq![cur] } else { Seq::empty() }) + split_from(s, i + 1, Seq::empty())
    } else {
        split_from(s, i + 1, cur.push(s[i]))
    }
}

/// The words of `s` between runs of white space.
pub open spec fn split_white(s: Seq<char>) -> Seq<Seq<char>> {
    split_from(s, 0, Seq::empty())
}

/// Splits `s` at runs of white space.
fn split_whitespace(s: &str) -> (r: Vec<String>)
    ensures
        words(r@) == split_white(s@),
{
    let n = s.unicode_len();
    let mut out: Vec<String> = Vec::new();
    let mut cur = String::new();
    let mut has_cur = false;
    let mut i: usize = 0;
    while i < n
        invariant
            n == s@.len(),
            i <= n,
            has_cur == (cur@.len() > 0),
            words(out@) + split_from(s@, i as int, cur@) == split_white(s@),
        decreases n - i,
    {
        let c = s.get_char(i);
        let ghost before = words(out@);
        let ghost cur0 = cur@;
        if char_is_whitespace(c) {
            if has_cur {
                out.push(cur);
                assert(words(out@) =~= before.push(cur0));
                cur = String::new();
                has_cur = false;
            }
            proof {
                assert(s@[i as int] == c);
                assert(split_from(s@, i as int, cur0) == (if cur0.len() > 0 { seq![cur0] } else { Seq::<Seq<char>>::empty() })
                    + split_from(s@, i + 1, Seq::empty()));
                assert(cur@ =~= Seq::<char>::empty());
                assert(words(out@) + split_from(s@, i + 1, cur@) =~= before + split_from(s@, i as int, cur0));
            }
        } else {
            push_char(&mut cur, c);
            has_cur = true;
        }
        i += 1;
    }
    if has_cur {
        let ghost before = words(out@);
        let ghost cur0 = cur@;
        out.push(cur);
        assert(words(out@) =~= before.push(cur0));
        assert(words(out@) =~= before + split_from(s@, n as int, cur0));
    } else {
        assert(words(out@) =~= words(out@) + split_from(s@, n as int, cur@));
    }
    out
}


pub type ProdMap = Map<Seq<char>, Seq<Seq<char>>>;

/// Replacing the words of entry `i` changes the alternatives of its key alone.
proof fn lemma_set_entry(v: Seq<(String, Vec<String>)>, w: Seq<(String, Vec<String>)>, i: int)
    requires
        keys_unique(v),
        0 <= i < v.len(),
        w.len() == v.len(),
        forall|j: int| 0 <= j < v.len() && j != i ==> #[trigger] w[j] == v[j],
        w[i].0@ == v[i].0@,
    ensures
        keys_unique(w),
        entry_map(w) == entry_map(v).insert(v[i].0@, words(w[i].1@)),
{
    assert forall|a: int, b: int| 0 <= a < w.len() && 0 <= b < w.len() && a != b implies (#[trigger] w[a]).0@ != (#[trigger] w[b]).0@ by {
        assert(v[a].0@ != v[b].0@);
    }
    let k = v[i].0@;
    assert forall|x: Seq<char>| entry_map(w).contains_key(x) <==> entry_map(v).insert(k, words(w[i].1@)).contains_key(x) by {
        if entry_map(w).contains_key(x) {
            let j = choose|j: int| 0 <= j < w.len() && (#[trigger] w[j]).0@ == x;
            assert(v[j].0@ == x);
        }
        if entry_map(v).contains_key(x) {
            let j = choose|j: int| 0 <= j < v.len() && (#[trigger] v[j]).0@ == x;
            assert(w[j].0@ == x);
        }
        if x == k {
            assert(w[i].0@ == x);
        }
    }
    assert forall|x: Seq<char>| #[trigger] entry_map(w).contains_key(x) implies entry_map(w)[x] == entry_map(v).insert(k, words(w[i].1@))[x] by {
        let j = choose|j: int| 0 <= j < w.len() && (#[trigger] w[j]).0@ == x;
        lemma_entry_at(w, j);
        if j != i {
            lemma_entry_at(v, j);
        }
    }
    assert(entry_map(w) =~= entry_map(v).insert(k, words(w[i].1@)));
}

/// Appending an entry for a new key adds that key.
proof fn lemma_add_entry(v: Seq<(String, Vec<String>)>, w: Seq<(String, Vec<String>)>)
    requires
        keys_unique(v),
        w.len() == v.len() + 1,
        forall|j: int| 0 <= j < v.len() ==> #[trigger] w[j] == v[j],
        !entry_map(v).contains_key(w[v.len() as int].0@),
    ensures
        keys_unique(w),
        entry_map(w) == entry_map(v).insert(w[v.len() as int].0@, words(w[v.len() as int].1@)),
{
    let n = v.len() as int;
    assert forall|a: int, b: int| 0 <= a < w.len() && 0 <= b < w.len() && a != b implies (#[trigger] w[a]).0@ != (#[trigger] w[b]).0@ by {
        if a < n && b < n {
            assert(v[a].0@ != v[b].0@);
        } else if a < n {
            assert(entry_map(v).contains_key(v[a].0@));
        } else {
            assert(entry_map(v).contains_key(v[b].0@));
        }
    }
    let k = w[n].0@;
    assert forall|x: Seq<char>| entry_map(w).contains_key(x) <==> entry_map(v).insert(k, words(w[n].1@)).contains_key(x) by {
        if entry_map(w).contains_key(x) && x != k {
            let j = choose|j: int| 0 <= j < w.len() && (#[trigger] w[j]).0@ == x;
            assert(v[j].0@ == x);
        }
        if entry_map(v).contains_key(x) {
            let j = choose|j: int| 0 <= j < v.len() && (#[trigger] v[j]).0@ == x;
            assert(w[j].0@ == x);
        }
        if x == k {
            assert(w[n].0@ == x);
        }
    }
    assert forall|x: Seq<char>| #[trigger] entry_map(w).contains_key(x) implies entry_map(w)[x] == entry_map(v).insert(k, words(w[n].1@))[x] by {
        let j = choose|j: int| 0 <= j < w.len() && (#[trigger] w[j]).0@ == x;
        lemma_entry_at(w, j);
        if j < n {
            lemma_entry_at(v, j);
        }
    }
    assert(entry_map(w) =~= entry_map(v).insert(k, words(w[n].1@)));
}

/// Sets the alternatives of `k`, adding an entry when it has none.
fn set_entry(v: &mut Vec<(String, Vec<String>)>, k: &String, alts: Vec<String>)
    requires
        keys_unique(old(v)@),
    ensures
        keys_unique(final(v)@),
        entry_map(final(v)@) == entry_map(old(v)@).insert(k@, words(alts@)),
{
    let ghost before = v@;
    match entry_index(v, k) {
        Some(i) => {
            v[i].1 = alts;
            proof { lemma_set_entry(before, v@, i as int); }
        },
        None => {
            proof {
                assert(!entry_map(before).contains_key(k@));
            }
            v.push((k.clone(), alts));
            proof { lemma_add_entry(before, v@); }
        },
    }
}

/// One alternative after the substitution of `aj`: an alternative that starts with
/// `aj` becomes each alternative of `aj` followed by its rest (none when `aj` has no
/// entry); any other stays.
pub open spec fn subst_one(p: Seq<char>, aj: Seq<char>, aj_alts: Option<Seq<Seq<char>>>) -> Seq<Seq<char>> {
    if aj.is_prefix_of(p) {
        match aj_alts {
            Some(q) => q.map_values(|x: Seq<char>| x + p.skip(aj.len() as int)),
            None => Seq::empty(),
        }
    } else {
        seq![p]
    }
}

pub open spec fn subst(ps: Seq<Seq<char>>, aj: Seq<char>, aj_alts: Option<Seq<Seq<char>>>) -> Seq<Seq<char>>
    decreases ps.len(),
{
    if ps.len() == 0 {
        Seq::empty()
    } else {
        subst(ps.drop_last(), aj, aj_alts) + subst_one(ps.last(), aj, aj_alts)
    }
}

pub open spec fn opt_alts(m: ProdMap, k: Seq<char>) -> Option<Seq<Seq<char>>> {
    if m.contains_key(k) { Some(m[k]) } else { None }
}

/// The alternatives of `nt` that start with it, without that start.
pub open spec fn recursive_rests(ps: Seq<Seq<char>>, nt: Seq<char>) -> Seq<Seq<char>>
    decreases ps.len(),
{
    if ps.len() == 0 {
        Seq::empty()
    } else {
        recursive_rests(ps.drop_last(), nt) + if nt.is_prefix_of(ps.last()) { seq![ps.last().skip(nt.len() as int)] } else { Seq::empty() }
    }
}

/// The alternatives of `nt` that do not start with it.
pub open spec fn non_recursive(ps: Seq<Seq<char>>, nt: Seq<char>) -> Seq<Seq<char>>
    decreases ps.len(),
{
    if ps.len() == 0 {
        Seq::empty()
    } else {
        non_recursive(ps.drop_last(), nt) + if nt.is_prefix_of(ps.last()) { Seq::empty() } else { seq![ps.last()] }
    }
}

pub open spec fn primed(nt: Seq<char>) -> Seq<char> {
    nt.push('\'')
}

/// Removes direct left recursion of `nt`: with recursive alternatives `nt β` and others
/// `α`, `nt` gets `α nt'` and the new `nt'` gets `β nt'` and ε.
pub open spec fn direct_step(m: ProdMap, n: Set<Seq<char>>, nt: Seq<char>) -> (ProdMap, Set<Seq<char>>) {
    if !m.contains_key(nt) {
        (m, n)
    } else {
        let rec = recursive_rests(m[nt], nt);
        let non = non_recursive(m[nt], nt);
        let nt2 = primed(nt);
        if rec.len() == 0 {
            (m, n)
        } else {
            (
                m.insert(nt2, rec.map_values(|x: Seq<char>| x + nt2).push(eps())).insert(nt, non.map_values(|x: Seq<char>| x + nt2)),
                n.insert(nt2),
            )
        }
    }
}

/// Substitutes the first `j` non-terminals of `order` into the alternatives of `ai`.
pub open spec fn subst_upto(m: ProdMap, order: Seq<Seq<char>>, ai: Seq<char>, j: int) -> ProdMap
    decreases j,
{
    if j <= 0 {
        m
    } else {
        let m1 = subst_upto(m, order, ai, j - 1);
        if m1.contains_key(ai) {
            m1.insert(ai, subst(m1[ai], order[j - 1], opt_alts(m1, order[j - 1])))
        } else {
            m1
        }
    }
}

/// The grammar after the first `i` non-terminals of `order` are processed.
pub open spec fn elim_upto(m: ProdMap, n: Set<Seq<char>>, order: Seq<Seq<char>>, i: int) -> (ProdMap, Set<Seq<char>>)
    decreases i,
{
    if i <= 0 {
        (m, n)
    } else {
        let (m1, n1) = elim_upto(m, n, order, i - 1);
        direct_step(subst_upto(m1, order, order[i - 1], i - 1), n1, order[i - 1])
    }
}


/// Whether `s` starts with `p`.
fn starts_with(s: &String, p: &String) -> (r: bool)
    ensures
        r == p@.is_prefix_of(s@),
{
    let a = s.as_str();
    let b = p.as_str();
    let n = a.unicode_len();
    let m = b.unicode_len();
    if m > n {
        return false;
    }
    let mut i: usize = 0;
    while i < m
        invariant
            a@ == s@,
            b@ == p@,
            n == s@.len(),
            m == p@.len(),
            m <= n,
            i <= m,
            forall|k: int| 0 <= k < i ==> s@[k] == p@[k],
        decreases m - i,
    {
        if a.get_char(i) != b.get_char(i) {
            return false;
        }
        i += 1;
    }
    true
}

/// `s` without its first `k` characters, followed by `tail`.
fn rest_then(s: &String, k: usize, tail: &String) -> (r: String)
    requires
        k <= s@.len(),
    ensures
        r@ == s@.skip(k as int) + tail@,
{
    let a = s.as_str();
    let n = a.unicode_len();
    let rest = a.substring_char(k, n);
    let mut r = String::from_str(rest);
    push_text(&mut r, tail.as_str());
    assert(rest@ =~= s@.skip(k as int));
    r
}

/// `a` followed by `b`.
fn joined(a: &String, b: &String) -> (r: String)
    ensures
        r@ == a@ + b@,
{
    let mut r = a.clone();
    push_text(&mut r, b.as_str());
    r
}

/// A copy of a list of strings.
fn copy_words(v: &Vec<String>) -> (r: Vec<String>)
    ensures
        words(r@) == words(v@),
{
    let mut r: Vec<String> = Vec::new();
    let mut i: usize = 0;
    while i < v.len()
        invariant
            i <= v@.len(),
            words(r@) == words(v@).subrange(0, i as int),
        decreases v.len() - i,
    {
        let ghost before = r@;
        let w = v[i].clone();
        r.push(w);
        assert(words(r@) =~= words(before).push(v@[i as int]@));
        i += 1;
        assert(words(r@) =~= words(v@).subrange(0, i as int));
    }
    assert(words(v@).subrange(0, i as int) =~= words(v@));
    r
}

fn subst_exec(ps: &Vec<String>, aj: &String, aj_alts: &Vec<String>, has: bool) -> (r: Vec<String>)
    ensures
        words(r@) == subst(words(ps@), aj@, if has { Some(words(aj_alts@)) } else { None }),
{
    let ghost o: Option<Seq<Seq<char>>> = if has { Some(words(aj_alts@)) } else { None };
    let mut r: Vec<String> = Vec::new();
    let empty = String::new();
    let mut i: usize = 0;
    while i < ps.len()
        invariant
            i <= ps@.len(),
            empty@ == Seq::<char>::empty(),
            o == (if has { Some(words(aj_alts@)) } else { None::<Seq<Seq<char>>> }),
            words(r@) == subst(words(ps@).subrange(0, i as int), aj@, o),
        decreases ps.len() - i,
    {
        let p = &ps[i];
        let ghost before = words(r@);
        proof {
            assert(words(ps@).subrange(0, i + 1).drop_last() =~= words(ps@).subrange(0, i as int));
            assert(words(ps@).subrange(0, i + 1).last() == p@);
        }
        if starts_with(p, aj) {
            if has {
                let mut q: usize = 0;
                while q < aj_alts.len()
                    invariant
                        q <= aj_alts@.len(),
                        aj@.is_prefix_of(p@),
                        empty@ == Seq::<char>::empty(),
                        words(r@) == before + words(aj_alts@).subrange(0, q as int).map_values(|x: Seq<char>| x + p@.skip(aj@.len() as int)),
                    decreases aj_alts.len() - q,
                {
                    let w = rest_then(p, aj.as_str().unicode_len(), &empty);
                    let x = joined(&aj_alts[q], &w);
                    let ghost b2 = r@;
                    r.push(x);
                    proof {
                        assert(words(r@) =~= words(b2).push(x@));
                        assert(x@ =~= aj_alts@[q as int]@ + p@.skip(aj@.len() as int));
                    }
                    q += 1;
                    assert(words(r@) =~= before + words(aj_alts@).subrange(0, q as int).map_values(|x: Seq<char>| x + p@.skip(aj@.len() as int)));
                }
                assert(words(aj_alts@).subrange(0, q as int) =~= words(aj_alts@));
            } else {
                assert(words(r@) =~= before + Seq::<Seq<char>>::empty());
            }
        } else {
            let ghost b2 = r@;
            r.push(p.clone());
            assert(words(r@) =~= words(b2).push(p@));
            assert(words(r@) =~= before + seq![p@]);
        }
        i += 1;
    }
    assert(words(ps@).subrange(0, i as int) =~= words(ps@));
    r
}

impl Grammar {
    /// Removes direct left recursion of `non_terminal`: with recursive alternatives
    /// `A β` and others `α`, `A` gets `α A'` and a new non-terminal `A'` gets `β A'`
    /// and ε.
    fn eliminate_direct_left_recursion(&mut self, non_terminal: &String)
        requires
            old(self).wf(),
        ensures
            final(self).wf(),
            (entry_map(final(self).productions@), word_set(final(self).non_terminals@)) == direct_step(
                entry_map(old(self).productions@),
                word_set(old(self).non_terminals@),
                non_terminal@,
            ),
            final(self).terminals == old(self).terminals,
            final(self).first_sets == old(self).first_sets,
            final(self).follow_sets == old(self).follow_sets,
            final(self).start_symbol == old(self).start_symbol,
    {
        let e = match entry_index(&self.productions, non_terminal) {
            Some(e) => e,
            None => {
                assert(!entry_map(self.productions@).contains_key(non_terminal@));
                return;
            },
        };
        proof { lemma_entry_at(self.productions@, e as int); }
        let ps = copy_words(&self.productions[e].1);
        let ghost wps = words(ps@);
        let nl = non_terminal.as_str().unicode_len();
        let mut rec: Vec<String> = Vec::new();
        let mut non: Vec<String> = Vec::new();
        let empty = String::new();
        let mut i: usize = 0;
        while i < ps.len()
            invariant
                i <= ps@.len(),
                wps == words(ps@),
                nl == non_terminal@.len(),
                empty@ == Seq::<char>::empty(),
                words(rec@) == recursive_rests(wps.subrange(0, i as int), non_terminal@),
                words(non@) == non_recursive(wps.subrange(0, i as int), non_terminal@),
            decreases ps.len() - i,
        {
            proof {
                assert(wps.subrange(0, i + 1).drop_last() =~= wps.subrange(0, i as int));
                assert(wps.subrange(0, i + 1).last() == ps@[i as int]@);
            }
            let p = &ps[i];
            if starts_with(p, non_terminal) {
                let ghost b = rec@;
                let r = rest_then(p, nl, &empty);
                rec.push(r);
                assert(words(rec@) =~= words(b).push(r@));
                assert(r@ =~= p@.skip(nl as int));
                assert(words(rec@) =~= recursive_rests(wps.subrange(0, i + 1), non_terminal@));
                assert(non_recursive(wps.subrange(0, i + 1), non_terminal@) =~= non_recursive(wps.subrange(0, i as int), non_terminal@));
            } else {
                let ghost b = non@;
                non.push(p.clone());
                assert(words(non@) =~= words(b).push(p@));
                assert(words(non@) =~= non_recursive(wps.subrange(0, i + 1), non_terminal@));
                assert(recursive_rests(wps.subrange(0, i + 1), non_terminal@) =~= recursive_rests(wps.subrange(0, i as int), non_terminal@));
            }
            i += 1;
        }
        assert(wps.subrange(0, i as int) =~= wps);
        if rec.len() == 0 {
            return;
        }
        let mut nt2 = non_terminal.clone();
        push_char(&mut nt2, '\'');
        assert(nt2@ == primed(non_terminal@));
        add_word(&mut self.non_terminals, nt2.clone());
        let mut new_non: Vec<String> = Vec::new();
        let mut i: usize = 0;
        while i < non.len()
            invariant
                i <= non@.len(),
                words(new_non@) == words(non@).subrange(0, i as int).map_values(|x: Seq<char>| x + nt2@),
            decreases non.len() - i,
        {
            let ghost b = new_non@;
            let x = joined(&non[i], &nt2);
            new_non.push(x);
            assert(words(new_non@) =~= words(b).push(x@));
            i += 1;
            assert(words(new_non@) =~= words(non@).subrange(0, i as int).map_values(|x: Seq<char>| x + nt2@));
        }
        assert(words(non@).subrange(0, i as int) =~= words(non@));
        let mut new_rec: Vec<String> = Vec::new();
        let mut i: usize = 0;
        while i < rec.len()
            invariant
                i <= rec@.len(),
                words(new_rec@) == words(rec@).subrange(0, i as int).map_values(|x: Seq<char>| x + nt2@),
            decreases rec.len() - i,
        {
            let ghost b = new_rec@;
            let x = joined(&rec[i], &nt2);
            new_rec.push(x);
            assert(words(new_rec@) =~= words(b).push(x@));
            i += 1;
            assert(words(new_rec@) =~= words(rec@).subrange(0, i as int).map_values(|x: Seq<char>| x + nt2@));
        }
        assert(words(rec@).subrange(0, i as int) =~= words(rec@));
        let ghost b = new_rec@;
        let eps_word = char_string('ε');
        new_rec.push(eps_word);
        assert(words(new_rec@) =~= words(b).push(eps()));
        set_entry(&mut self.productions, &nt2, new_rec);
        set_entry(&mut self.productions, non_terminal, new_non);
    }

    /// Removes left recursion: for each non-terminal in order, alternatives that start
    /// with an earlier non-terminal have that non-terminal's alternatives substituted,
    /// then direct left recursion is removed. New non-terminals are not visited.
    pub fn eliminate_left_recursion(&mut self)
        requires
            old(self).wf(),
        ensures
            final(self).wf(),
            (entry_map(final(self).productions@), word_set(final(self).non_terminals@)) == elim_upto(
                entry_map(old(self).productions@),
                word_set(old(self).non_terminals@),
                words(old(self).non_terminals@),
                old(self).non_terminals@.len() as int,
            ),
            final(self).terminals == old(self).terminals,
            final(self).start_symbol == old(self).start_symbol,
    {
        let order = copy_words(&self.non_terminals);
        let ghost wo = words(order@);
        let ghost m0 = entry_map(self.productions@);
        let ghost n0 = word_set(self.non_terminals@);
        let mut i: usize = 0;
        while i < order.len()
            invariant
                self.wf(),
                wo == words(order@),
                wo == words(old(self).non_terminals@),
                m0 == entry_map(old(self).productions@),
                n0 == word_set(old(self).non_terminals@),
                i <= order@.len(),
                (entry_map(self.productions@), word_set(self.non_terminals@)) == elim_upto(m0, n0, wo, i as int),
                self.terminals == old(self).terminals,
                self.start_symbol == old(self).start_symbol,
            decreases order.len() - i,
        {
            let ai = &order[i];
            assert(wo[i as int] == ai@);
            let ghost mi = entry_map(self.productions@);
            let ghost ni = word_set(self.non_terminals@);
            let mut j: usize = 0;
            while j < i
                invariant
                    self.wf(),
                    wo == words(order@),
                    i < order@.len(),
                    ai == &order@[i as int],
                    j <= i,
                    entry_map(self.productions@) == subst_upto(mi, wo, ai@, j as int),
                    word_set(self.non_terminals@) == ni,
                    self.terminals == old(self).terminals,
                    self.start_symbol == old(self).start_symbol,
                decreases i - j,
            {
                let aj = &order[j];
                assert(wo[j as int] == aj@);
                match entry_index(&self.productions, ai) {
                    Some(ei) => {
                        proof { lemma_entry_at(self.productions@, ei as int); }
                        let (aj_alts, has) = match entry_index(&self.productions, aj) {
                            Some(ej) => {
                                proof { lemma_entry_at(self.productions@, ej as int); }
                                (copy_words(&self.productions[ej].1), true)
                            },
                            None => {
                                assert(!entry_map(self.productions@).contains_key(aj@));
                                (Vec::new(), false)
                            },
                        };
                        let new_alts = subst_exec(&self.productions[ei].1, aj, &aj_alts, has);
                        set_entry(&mut self.productions, ai, new_alts);
                    },
                    None => {
                        assert(!entry_map(self.productions@).contains_key(ai@));
                    },
                }
                j += 1;
            }
            self.eliminate_direct_left_recursion(ai);
            i += 1;
        }
    }
}


/// A predictive parsing table: (non-terminal, terminal) to the words of a production.
pub type TableMap = Map<(Seq<char>, Seq<char>), Seq<Seq<char>>>;

pub open spec fn tkey(e: ((String, String), Vec<String>)) -> (Seq<char>, Seq<char>) {
    (e.0.0@, e.0.1@)
}

pub open spec fn tkeys_unique(v: Seq<((String, String), Vec<String>)>) -> bool {
    forall|i: int, j: int| 0 <= i < v.len() && 0 <= j < v.len() && i != j ==> tkey(#[trigger] v[i]) != tkey(#[trigger] v[j])
}

/// A list of table cells as a map.
pub open spec fn table_view(v: Seq<((String, String), Vec<String>)>) -> TableMap {
    Map::new(
        |k: (Seq<char>, Seq<char>)| exists|i: int| 0 <= i < v.len() && tkey(#[trigger] v[i]) == k,
        |k: (Seq<char>, Seq<char>)| {
            let i = choose|i: int| 0 <= i < v.len() && tkey(#[trigger] v[i]) == k;
            words(v[i].1@)
        },
    )
}

/// The cells (nt, x) for every x of `ts` set to `row`.
pub open spec fn table_fill(t: TableMap, nt: Seq<char>, ts: Set<Seq<char>>, row: Seq<Seq<char>>) -> TableMap {
    Map::new(
        |k: (Seq<char>, Seq<char>)| t.contains_key(k) || (k.0 == nt && ts.contains(k.1)),
        |k: (Seq<char>, Seq<char>)| if k.0 == nt && ts.contains(k.1) { row } else { t[k] },
    )
}

/// The cells for one alternative `p` of `nt`: each terminal of FIRST(p) but ε, and each
/// of FOLLOW(nt) when FIRST(p) holds ε and FOLLOW(nt) is recorded, gets the words of `p`.
pub open spec fn table_alt(g: Grammar, nt: Seq<char>, p: Seq<char>, t: TableMap) -> TableMap {
    let f = first_of_spec(g, p);
    let row = split_white(p);
    let t1 = table_fill(t, nt, f.remove(eps()), row);
    if f.contains(eps()) && entry_map(g.follow_sets@).contains_key(nt) {
        table_fill(t1, nt, follow_of(g, nt), row)
    } else {
        t1
    }
}

pub open spec fn table_alts(g: Grammar, nt: Seq<char>, ps: Seq<Seq<char>>, t: TableMap) -> TableMap
    decreases ps.len(),
{
    if ps.len() == 0 {
        t
    } else {
        table_alt(g, nt, ps.last(), table_alts(g, nt, ps.drop_last(), t))
    }
}

/// The table after the first `n` production entries.
pub open spec fn table_rows(g: Grammar, n: int) -> TableMap
    decreases n,
{
    if n <= 0 {
        Map::empty()
    } else {
        table_alts(g, g.productions@[n - 1].0@, words(g.productions@[n - 1].1@), table_rows(g, n - 1))
    }
}

fn cell_index(v: &Vec<((String, String), Vec<String>)>, nt: &String, x: &String) -> (r: Option<usize>)
    ensures
        match r {
            Some(i) => i < v@.len() && tkey(v@[i as int]) == (nt@, x@),
            None => forall|i: int| 0 <= i < v@.len() ==> tkey(#[trigger] v@[i]) != (nt@, x@),
        },
{
    let mut i: usize = 0;
    while i < v.len()
        invariant
            i <= v@.len(),
            forall|j: int| 0 <= j < i ==> tkey(#[trigger] v@[j]) != (nt@, x@),
        decreases v.len() - i,
    {
        if v[i].0.0 == *nt && v[i].0.1 == *x {
            return Some(i);
        }
        i += 1;
    }
    None
}

proof fn lemma_cell_at(v: Seq<((String, String), Vec<String>)>, i: int)
    requires
        tkeys_unique(v),
        0 <= i < v.len(),
    ensures
        table_view(v).contains_key(tkey(v[i])),
        table_view(v)[tkey(v[i])] == words(v[i].1@),
{
    let k = tkey(v[i]);
    let j = choose|j: int| 0 <= j < v.len() && tkey(#[trigger] v[j]) == k;
    if j != i {
        assert(tkey(v[i]) != tkey(v[j]));
    }
}

/// Sets the cell (nt, x) to `row`.
fn set_cell(v: &mut Vec<((String, String), Vec<String>)>, nt: &String, x: &String, row: Vec<String>)
    requires
        tkeys_unique(old(v)@),
    ensures
        tkeys_unique(final(v)@),
        table_view(final(v)@) == table_view(old(v)@).insert((nt@, x@), words(row@)),
{
    let ghost before = v@;
    let ghost k = (nt@, x@);
    match cell_index(v, nt, x) {
        Some(i) => {
            v[i].1 = row;
            proof {
                assert forall|a: int, b: int| 0 <= a < v@.len() && 0 <= b < v@.len() && a != b implies tkey(#[trigger] v@[a]) != tkey(#[trigger] v@[b]) by {
                    assert(tkey(before[a]) != tkey(before[b]));
                }
                assert forall|y: (Seq<char>, Seq<char>)| #[trigger] table_view(v@).contains_key(y) == table_view(before).insert(k, words(row@)).contains_key(y) by {
                    if table_view(v@).contains_key(y) {
                        let j = choose|j: int| 0 <= j < v@.len() && tkey(#[trigger] v@[j]) == y;
                        assert(tkey(before[j]) == y);
                    }
                    if table_view(before).contains_key(y) {
                        let j = choose|j: int| 0 <= j < before.len() && tkey(#[trigger] before[j]) == y;
                        assert(tkey(v@[j]) == y);
                    }
                    if y == k {
                        assert(tkey(v@[i as int]) == y);
                    }
                }
                assert forall|y: (Seq<char>, Seq<char>)| #[trigger] table_view(v@).contains_key(y) implies table_view(v@)[y] == table_view(before).insert(k, words(row@))[y] by {
                    let j = choose|j: int| 0 <= j < v@.len() && tkey(#[trigger] v@[j]) == y;
                    lemma_cell_at(v@, j);
                    if j != i {
                        lemma_cell_at(before, j);
                    }
                }
                assert(table_view(v@) =~= table_view(before).insert(k, words(row@)));
            }
        },
        None => {
            v.push(((nt.clone(), x.clone()), row));
            proof {
                let n = before.len() as int;
                assert forall|a: int, b: int| 0 <= a < v@.len() && 0 <= b < v@.len() && a != b implies tkey(#[trigger] v@[a]) != tkey(#[trigger] v@[b]) by {
                    if a < n && b < n {
                        assert(tkey(before[a]) != tkey(before[b]));
                    } else if a < n {
                        assert(v@[a] == before[a]);
                    } else {
                        assert(v@[b] == before[b]);
                    }
                }
                assert forall|y: (Seq<char>, Seq<char>)| #[trigger] table_view(v@).contains_key(y) == table_view(before).insert(k, words(row@)).contains_key(y) by {
                    if table_view(v@).contains_key(y) && y != k {
                        let j = choose|j: int| 0 <= j < v@.len() && tkey(#[trigger] v@[j]) == y;
                        assert(tkey(before[j]) == y);
                    }
                    if table_view(before).contains_key(y) {
                        let j = choose|j: int| 0 <= j < before.len() && tkey(#[trigger] before[j]) == y;
                        assert(tkey(v@[j]) == y);
                    }
                    if y == k {
                        assert(tkey(v@[n]) == y);
                    }
                }
                assert forall|y: (Seq<char>, Seq<char>)| #[trigger] table_view(v@).contains_key(y) implies table_view(v@)[y] == table_view(before).insert(k, words(row@))[y] by {
                    let j = choose|j: int| 0 <= j < v@.len() && tkey(#[trigger] v@[j]) == y;
                    lemma_cell_at(v@, j);
                    if j < n {
                        lemma_cell_at(before, j);
                    }
                }
                assert(table_view(v@) =~= table_view(before).insert(k, words(row@)));
            }
        },
    }
}

/// The words of `ts`, without `skip` when `use_skip` holds.
pub open spec fn cell_set(ts: Seq<String>, skip: Seq<char>, use_skip: bool) -> Set<Seq<char>> {
    if use_skip { word_set(ts).remove(skip) } else { word_set(ts) }
}

/// Sets the cells (nt, x) to `row` for every x of `ts`, but `skip` when `use_skip` holds.
fn fill_cells(v: &mut Vec<((String, String), Vec<String>)>, nt: &String, ts: &Vec<String>, skip: &String, use_skip: bool, row: &Vec<String>)
    requires
        tkeys_unique(old(v)@),
    ensures
        tkeys_unique(final(v)@),
        table_view(final(v)@) == table_fill(table_view(old(v)@), nt@, cell_set(ts@, skip@, use_skip), words(row@)),
{
    let mut q: usize = 0;
    while q < ts.len()
        invariant
            q <= ts@.len(),
            tkeys_unique(v@),
            table_view(v@) == table_fill(table_view(old(v)@), nt@, cell_set(ts@.subrange(0, q as int), skip@, use_skip), words(row@)),
        decreases ts.len() - q,
    {
        let ghost prev = word_set(ts@.subrange(0, q as int));
        proof {
            assert forall|x: Seq<char>| word_set(ts@.subrange(0, q + 1)).contains(x) <==> prev.insert(ts@[q as int]@).contains(x) by {
                if word_set(ts@.subrange(0, q + 1)).contains(x) {
                    let j = choose|j: int| 0 <= j < q + 1 && (#[trigger] ts@.subrange(0, q + 1)[j])@ == x;
                    if j < q {
                        assert(ts@.subrange(0, q as int)[j] == ts@[j]);
                    }
                }
                if prev.contains(x) {
                    let j = choose|j: int| 0 <= j < q && (#[trigger] ts@.subrange(0, q as int)[j])@ == x;
                    assert(ts@.subrange(0, q + 1)[j] == ts@[j]);
                }
                if x == ts@[q as int]@ {
                    assert(ts@.subrange(0, q + 1)[q as int] == ts@[q as int]);
                }
            }
            assert(word_set(ts@.subrange(0, q + 1)) =~= prev.insert(ts@[q as int]@));
        }
        if !use_skip || ts[q] != *skip {
            let r = copy_words(row);
            set_cell(v, nt, &ts[q], r);
        }
        q += 1;
        proof {
            assert(table_view(v@) =~= table_fill(table_view(old(v)@), nt@, cell_set(ts@.subrange(0, q as int), skip@, use_skip), words(row@)));
        }
    }
    assert(ts@.subrange(0, q as int) =~= ts@);
}

impl Grammar {
    /// The predictive parsing table: for each alternative of each non-terminal, in
    /// order, the cells of the terminals of its FIRST set, and, when that holds ε, of the
    /// FOLLOW set of the non-terminal, get its words; a later alternative overwrites.
    pub fn create_predictive_parsing_table(&self) -> (r: Vec<((String, String), Vec<String>)>)
        requires
            self.wf(),
        ensures
            tkeys_unique(r@),
            table_view(r@) == table_rows(*self, self.productions@.len() as int),
    {
        let mut table: Vec<((String, String), Vec<String>)> = Vec::new();
        let eps_word = char_string('ε');
        assert(table_view(table@) =~= table_rows(*self, 0));
        let mut e: usize = 0;
        while e < self.productions.len()
            invariant
                self.wf(),
                eps_word@ == eps(),
                e <= self.productions@.len(),
                tkeys_unique(table@),
                table_view(table@) == table_rows(*self, e as int),
            decreases self.productions.len() - e,
        {
            let nt = &self.productions[e].0;
            let ps = &self.productions[e].1;
            let ghost t0 = table_view(table@);
            let mut k: usize = 0;
            while k < ps.len()
                invariant
                    self.wf(),
                    eps_word@ == eps(),
                        e < self.productions@.len(),
                    nt == &self.productions@[e as int].0,
                    ps == &self.productions@[e as int].1,
                    k <= ps@.len(),
                    tkeys_unique(table@),
                    table_view(table@) == table_alts(*self, nt@, words(ps@).subrange(0, k as int), t0),
                decreases ps.len() - k,
            {
                let p = ps[k].as_str();
                let first = self.first_of(p);
                let row = split_whitespace(p);
                let ghost t1 = table_view(table@);
                fill_cells(&mut table, nt, &first, &eps_word, true, &row);
                if has_word(&first, &eps_word) {
                    match entry_index(&self.follow_sets, nt) {
                        Some(fi) => {
                            proof { lemma_entry_set(self.follow_sets@, fi as int); }
                            fill_cells(&mut table, nt, &self.follow_sets[fi].1, &eps_word, false, &row);
                        },
                        None => {
                            assert(!entry_map(self.follow_sets@).contains_key(nt@));
                        },
                    }
                }
                proof {
                    assert(words(ps@).subrange(0, k + 1).drop_last() =~= words(ps@).subrange(0, k as int));
                    assert(words(ps@).subrange(0, k + 1).last() == p@);
                }
                k += 1;
            }
            assert(words(ps@).subrange(0, k as int) =~= words(ps@));
            e += 1;
        }
        table
    }
}


pub open spec fn dollar() -> Seq<char> {
    seq!['$']
}

/// Pushes the characters of `w` below index `k`, last first, as one-character symbols,
/// leaving out ε.
pub open spec fn push_rev(stack: Seq<Seq<char>>, w: Seq<char>, k: int) -> Seq<Seq<char>>
    decreases k,
{
    if k <= 0 || k > w.len() {
        stack
    } else {
        let c = w[k - 1];
        push_rev(if c != 'ε' { stack.push(seq![c]) } else { stack }, w, k - 1)
    }
}

/// Pushes the first `i` words of a table entry in order.
pub open spec fn push_row(stack: Seq<Seq<char>>, row: Seq<Seq<char>>, i: int) -> Seq<Seq<char>>
    decreases i,
{
    if i <= 0 || i > row.len() {
        stack
    } else {
        push_rev(push_row(stack, row, i - 1), row[i - 1], row[i - 1].len() as int)
    }
}

/// The LL(1) parser from a stack and the input from position `pos`, for at most `fuel`
/// steps: a terminal on top must match the input, a non-terminal is replaced by its
/// table entry, and once the input is at `$` the stack is emptied; at the end only `$`
/// may be left.
pub open spec fn parse_run(g: Grammar, t: TableMap, stack: Seq<Seq<char>>, buf: Seq<Seq<char>>, pos: int, fuel: nat) -> Result<(), Seq<char>>
    decreases fuel,
{
    if stack.len() == 0 {
        if pos == buf.len() - 1 {
            Ok(())
        } else {
            Err("Syntax error: input not fully consumed"@)
        }
    } else if fuel == 0 {
        Err("Parsing stopped: step limit reached"@)
    } else {
        let top = stack.last();
        let rest = stack.drop_last();
        let cur = buf[pos];
        if cur != dollar() {
            if word_set(g.terminals@).contains(top) || top == dollar() {
                if top == cur {
                    parse_run(g, t, rest, buf, pos + 1, (fuel - 1) as nat)
                } else {
                    Err("Syntax error: expected "@ + top + ", found "@ + cur)
                }
            } else if word_set(g.non_terminals@).contains(top) {
                if t.contains_key((top, cur)) {
                    parse_run(g, t, push_row(rest, t[(top, cur)], t[(top, cur)].len() as int), buf, pos, (fuel - 1) as nat)
                } else {
                    Err("Syntax error: no rule for "@ + top + " when seeing "@ + cur)
                }
            } else {
                Err("Unknown symbol on stack: "@ + top)
            }
        } else {
            parse_run(g, t, rest, buf, pos, (fuel - 1) as nat)
        }
    }
}

/// The input as one-character symbols followed by `$`.
pub open spec fn input_symbols(s: Seq<char>) -> Seq<Seq<char>> {
    s.map_values(|c: char| seq![c]).push(dollar())
}

pub open spec fn result_view(r: Result<(), String>) -> Result<(), Seq<char>> {
    match r {
        Ok(()) => Ok(()),
        Err(e) => Err(e@),
    }
}

/// The table entry of (nt, x).
fn cell_row(v: &Vec<((String, String), Vec<String>)>, nt: &String, x: &String) -> (r: Option<Vec<String>>)
    requires
        tkeys_unique(v@),
    ensures
        match r {
            Some(row) => table_view(v@).contains_key((nt@, x@)) && words(row@) == table_view(v@)[(nt@, x@)],
            None => !table_view(v@).contains_key((nt@, x@)),
        },
{
    match cell_index(v, nt, x) {
        Some(i) => {
            proof { lemma_cell_at(v@, i as int); }
            Some(copy_words(&v[i].1))
        },
        None => None,
    }
}

fn push_word_rev(stack: &mut Vec<String>, w: &String)
    ensures
        words(final(stack)@) == push_rev(words(old(stack)@), w@, w@.len() as int),
{
    let a = w.as_str();
    let n = a.unicode_len();
    let mut k: usize = n;
    assert(a@ == w@);
    while k > 0
        invariant
            a@ == w@,
            n == w@.len(),
            k <= n,
            push_rev(words(stack@), w@, k as int) == push_rev(words(old(stack)@), w@, n as int),
        decreases k,
    {
        let c = a.get_char(k - 1);
        if c != 'ε' {
            let ghost b = stack@;
            stack.push(char_string(c));
            assert(words(stack@) =~= words(b).push(seq![c]));
        }
        k -= 1;
    }
}

fn message2(a: &str, x: &String, b: &str, y: &String) -> (r: String)
    ensures
        r@ == a@ + x@ + b@ + y@,
{
    let mut m = String::from_str(a);
    push_text(&mut m, x.as_str());
    push_text(&mut m, b);
    push_text(&mut m, y.as_str());
    m
}

impl Grammar {
    /// Parses `input` with the predictive table, one symbol per character, giving up
    /// after `usize::MAX` steps.
    pub fn ll1_parse(&self, input: &str) -> (r: Result<(), String>)
        requires
            self.wf(),
        ensures
            self.start_symbol is None ==> result_view(r) == Err::<(), Seq<char>>("Start symbol is not defined"@),
            self.start_symbol matches Some(s) ==> result_view(r) == parse_run(
                *self,
                table_rows(*self, self.productions@.len() as int),
                seq![dollar(), s@],
                input_symbols(input@),
                0,
                usize::MAX as nat,
            ),
    {
        let table = self.create_predictive_parsing_table();
        let ghost t = table_view(table@);
        let mut stack: Vec<String> = Vec::new();
        stack.push(char_string('$'));
        match &self.start_symbol {
            Some(s) => stack.push(s.clone()),
            None => return Err(String::from_str("Start symbol is not defined")),
        }
        let ghost s0 = words(stack@);
        let n = input.unicode_len();
        let mut buf: Vec<String> = Vec::new();
        let mut i: usize = 0;
        while i < n
            invariant
                n == input@.len(),
                i <= n,
                words(buf@) == input@.subrange(0, i as int).map_values(|c: char| seq![c]),
            decreases n - i,
        {
            let ghost b = buf@;
            let c = input.get_char(i);
            buf.push(char_string(c));
            assert(words(buf@) =~= words(b).push(seq![c]));
            assert(input@.subrange(0, i + 1) =~= input@.subrange(0, i as int).push(c));
            i += 1;
            assert(words(buf@) =~= input@.subrange(0, i as int).map_values(|c: char| seq![c]));
        }
        buf.push(char_string('$'));
        assert(input@.subrange(0, n as int) =~= input@);
        assert(words(buf@) =~= input_symbols(input@));
        let dollar_word = char_string('$');
        let mut pos: usize = 0;
        let mut fuel: usize = usize::MAX;
        proof {
            assert(s0 =~= seq![dollar(), self.start_symbol->Some_0@]);
        }
        while stack.len() > 0 && fuel > 0
            invariant
                self.wf(),
                tkeys_unique(table@),
                t == table_view(table@),
                t == table_rows(*self, self.productions@.len() as int),
                dollar_word@ == dollar(),
                self.start_symbol is Some,
                s0 == seq![dollar(), self.start_symbol->Some_0@],
                words(buf@) == input_symbols(input@),
                pos < buf@.len(),
                parse_run(*self, t, words(stack@), words(buf@), pos as int, fuel as nat) == parse_run(*self, t, s0, input_symbols(input@), 0, usize::MAX as nat),
            decreases fuel,
        {
            let ghost st = words(stack@);
            let top = stack.pop().unwrap();
            assert(words(stack@) =~= st.drop_last());
            assert(top@ == st.last());
            let cur = &buf[pos];
            assert(cur@ == words(buf@)[pos as int]);
            if *cur != dollar_word {
                if has_word(&self.terminals, &top) || top == dollar_word {
                    if top == *cur {
                        let ghost ins = input_symbols(input@);
                        assert(ins[ins.len() - 1] == dollar());
                        assert(words(buf@).len() == buf@.len());
                        assert(words(buf@)[buf@.len() - 1] == dollar());
                        assert(pos != buf@.len() - 1);
                        let blen = buf.len();
                        assert(pos + 1 < blen);
                        pos += 1;
                    } else {
                        return Err(message2("Syntax error: expected ", &top, ", found ", cur));
                    }
                } else if has_word(&self.non_terminals, &top) {
                    match cell_row(&table, &top, cur) {
                        Some(row) => {
                            let mut q: usize = 0;
                            let ghost base = words(stack@);
                            while q < row.len()
                                invariant
                                    q <= row@.len(),
                                    words(stack@) == push_row(base, words(row@), q as int),
                                decreases row.len() - q,
                            {
                                push_word_rev(&mut stack, &row[q]);
                                q += 1;
                            }
                        },
                        None => {
                            return Err(message2("Syntax error: no rule for ", &top, " when seeing ", cur));
                        },
                    }
                } else {
                    let mut m = String::from_str("Unknown symbol on stack: ");
                    push_text(&mut m, top.as_str());
                    return Err(m);
                }
            }
            fuel -= 1;
        }
        if stack.len() == 0 {
            if pos == buf.len() - 1 {
                Ok(())
            } else {
                Err(String::from_str("Syntax error: input not fully consumed"))
            }
        } else {
            Err(String::from_str("Parsing stopped: step limit reached"))
        }
    }
}


/// The rests of the alternatives that start with `prefix`.
pub open spec fn strip_all(ps: Seq<Seq<char>>, prefix: Seq<char>) -> Seq<Seq<char>>
    decreases ps.len(),
{
    if ps.len() == 0 {
        Seq::empty()
    } else {
        strip_all(ps.drop_last(), prefix) + if prefix.is_prefix_of(ps.last()) { seq![ps.last().skip(prefix.len() as int)] } else { Seq::empty() }
    }
}

/// An empty rest stands for ε.
pub open spec fn eps_if_empty(w: Seq<char>) -> Seq<char> {
    if w.len() == 0 { eps() } else { w }
}

/// `nt` followed by `k` primes.
pub open spec fn primes(nt: Seq<char>, k: int) -> Seq<char>
    decreases k,
{
    if k <= 0 { nt } else { primes(nt, k - 1).push('\'') }
}

/// Factoring by the first `k` prefixes: each prefix that some alternative starts with
/// gives the alternative `prefix A'...'` and a rule for `A'...'` with the rests.
pub open spec fn factor_steps(ps: Seq<Seq<char>>, nt: Seq<char>, prefixes: Seq<Seq<char>>, k: int) -> (Seq<Seq<char>>, Seq<(Seq<char>, Seq<Seq<char>>)>)
    decreases k,
{
    if k <= 0 || k > prefixes.len() {
        (Seq::empty(), Seq::empty())
    } else {
        let (a, r) = factor_steps(ps, nt, prefixes, k - 1);
        let name = primes(nt, k);
        let suf = strip_all(ps, prefixes[k - 1]);
        if suf.len() > 0 {
            (a.push(prefixes[k - 1] + name), r.push((name, suf.map_values(|w: Seq<char>| eps_if_empty(w)))))
        } else {
            (a, r)
        }
    }
}

/// The alternatives that start with none of the prefixes.
pub open spec fn unmatched(ps: Seq<Seq<char>>, prefixes: Seq<Seq<char>>) -> Seq<Seq<char>>
    decreases ps.len(),
{
    if ps.len() == 0 {
        Seq::empty()
    } else {
        unmatched(ps.drop_last(), prefixes) + if exists|k: int| 0 <= k < prefixes.len() && (#[trigger] prefixes[k]).is_prefix_of(ps.last()) {
            Seq::empty()
        } else {
            seq![ps.last()]
        }
    }
}

/// The prefixes that a tree of the alternatives `ps` reports.
pub open spec fn trie_prefixes(t: Trie, ps: Seq<Seq<char>>) -> bool {
    t.wf() && forall|w: Seq<char>| t.has_word(w) <==> ps.contains(w)
}

pub open spec fn lcp_prefixes(t: Trie) -> Seq<Seq<char>> {
    t.lcp_at(0).map_values(|e: (Seq<char>, Seq<Seq<char>>)| e.0)
}

impl Grammar {
    /// A prefix tree of the alternatives of `non_terminal`, if it has an entry.
    pub fn build_trie_for_nonterminal(&self, non_terminal: &str) -> (r: Option<Trie>)
        requires
            self.wf(),
        ensures
            r is Some <==> entry_map(self.productions@).contains_key(non_terminal@),
            r matches Some(t) ==> trie_prefixes(t, entry_map(self.productions@)[non_terminal@]),
    {
        let nt = string_of(non_terminal);
        match entry_index(&self.productions, &nt) {
            Some(e) => {
                proof { lemma_entry_at(self.productions@, e as int); }
                let ps = &self.productions[e].1;
                let mut trie = Trie::new();
                let mut i: usize = 0;
                while i < ps.len()
                    invariant
                        i <= ps@.len(),
                        trie.wf(),
                        forall|w: Seq<char>| trie.has_word(w) <==> words(ps@).subrange(0, i as int).contains(w),
                    decreases ps.len() - i,
                {
                    let word = ps[i].as_str();
                    let ghost before = trie;
                    trie.insert(word);
                    proof {
                        assert(word@ == ps@[i as int]@);
                        assert forall|w: Seq<char>| words(ps@).subrange(0, i + 1).contains(w) <==> (words(ps@).subrange(0, i as int).contains(w) || w == ps@[i as int]@) by {
                            let a = words(ps@).subrange(0, i + 1);
                            let b = words(ps@).subrange(0, i as int);
                            if a.contains(w) {
                                let j = choose|j: int| 0 <= j < a.len() && a[j] == w;
                                if j < i {
                                    assert(b[j] == w);
                                }
                            }
                            if b.contains(w) {
                                let j = choose|j: int| 0 <= j < b.len() && b[j] == w;
                                assert(a[j] == w);
                            }
                            if w == ps@[i as int]@ {
                                assert(a[i as int] == w);
                            }
                        }
                        assert forall|w: Seq<char>| trie.has_word(w) <==> words(ps@).subrange(0, i + 1).contains(w) by {
                            assert(trie.has_word(w) <==> (before.has_word(w) || w == word@));
                            assert(before.has_word(w) <==> words(ps@).subrange(0, i as int).contains(w));
                            assert(words(ps@).subrange(0, i + 1).contains(w) <==> (words(ps@).subrange(0, i as int).contains(w) || w == ps@[i as int]@));
                        }
                    }
                    i += 1;
                }
                assert(words(ps@).subrange(0, i as int) =~= words(ps@));
                Some(trie)
            },
            None => {
                assert(!entry_map(self.productions@).contains_key(nt@));
                None
            },
        }
    }
}


pub type Rules = Seq<(Seq<char>, Seq<Seq<char>>)>;

pub open spec fn rules_view(v: Seq<(String, Vec<String>)>) -> Rules {
    v.map_values(|e: (String, Vec<String>)| (e.0@, words(e.1@)))
}

/// The rules set in order, a later one replacing an earlier one of the same name.
pub open spec fn apply_rules(m: ProdMap, r: Rules) -> ProdMap
    decreases r.len(),
{
    if r.len() == 0 {
        m
    } else {
        apply_rules(m, r.drop_last()).insert(r.last().0, r.last().1)
    }
}

pub open spec fn rule_names(r: Rules) -> Set<Seq<char>> {
    Set::new(|w: Seq<char>| exists|k: int| 0 <= k < r.len() && (#[trigger] r[k]).0 == w)
}

/// Left factoring of the first `i` non-terminals of `order`, non-terminal `order[j]`
/// by the prefixes `pre[j]`: the alternatives it gets, the non-terminals, and the new
/// rules in order.
pub open spec fn lcf_upto(m0: ProdMap, n0: Set<Seq<char>>, order: Seq<Seq<char>>, pre: Seq<Seq<Seq<char>>>, i: int) -> (ProdMap, Set<Seq<char>>, Rules)
    decreases i,
{
    if i <= 0 {
        (m0, n0, Seq::empty())
    } else {
        let (m, n, r) = lcf_upto(m0, n0, order, pre, i - 1);
        let nt = order[i - 1];
        if !m0.contains_key(nt) {
            (m, n, r)
        } else {
            let ps = m0[nt];
            let (a, rs) = factor_steps(ps, nt, pre[i - 1], pre[i - 1].len() as int);
            (m.insert(nt, a + unmatched(ps, pre[i - 1])), n.union(rule_names(rs)), r + rs)
        }
    }
}

/// Each prefix list is the one that a prefix tree of the alternatives reports.
pub open spec fn prefixes_from_tries(m0: ProdMap, order: Seq<Seq<char>>, pre: Seq<Seq<Seq<char>>>) -> bool {
    &&& pre.len() == order.len()
    &&& forall|j: int| 0 <= j < pre.len() && #[trigger] m0.contains_key(order[j])
        ==> exists|t: Trie| #[trigger] trie_prefixes(t, m0[order[j]]) && pre[j] == lcp_prefixes(t)
}

/// Left factoring by the prefix lists `pre` ends with alternatives `m` and
/// non-terminals `n`.
pub open spec fn lcf_outcome(m0: ProdMap, n0: Set<Seq<char>>, order: Seq<Seq<char>>, pre: Seq<Seq<Seq<char>>>, m: ProdMap, n: Set<Seq<char>>) -> bool {
    &&& prefixes_from_tries(m0, order, pre)
    &&& {
        let (mm, nn, r) = lcf_upto(m0, n0, order, pre, pre.len() as int);
        m == apply_rules(mm, r) && n == nn
    }
}

/// `m` and `m0` agree on every key but `nt`.
pub open spec fn same_except(m: ProdMap, m0: ProdMap, nt: Seq<char>) -> bool {
    forall|k: Seq<char>| k != nt ==> (#[trigger] m.contains_key(k) == m0.contains_key(k) && (m0.contains_key(k) ==> m[k] == m0[k]))
}

/// The rests of the alternatives that start with `prefix`, an empty rest written ε.
fn strip_prefix_all(ps: &Vec<String>, prefix: &String) -> (r: Vec<String>)
    ensures
        words(r@) == strip_all(words(ps@), prefix@),
{
    let mut r: Vec<String> = Vec::new();
    let empty = String::new();
    let pl = prefix.as_str().unicode_len();
    let mut i: usize = 0;
    while i < ps.len()
        invariant
            i <= ps@.len(),
            empty@ == Seq::<char>::empty(),
            pl == prefix@.len(),
            words(r@) == strip_all(words(ps@).subrange(0, i as int), prefix@),
        decreases ps.len() - i,
    {
        proof {
            assert(words(ps@).subrange(0, i + 1).drop_last() =~= words(ps@).subrange(0, i as int));
            assert(words(ps@).subrange(0, i + 1).last() == ps@[i as int]@);
        }
        if starts_with(&ps[i], prefix) {
            let ghost b = r@;
            let w = rest_then(&ps[i], pl, &empty);
            r.push(w);
            assert(words(r@) =~= words(b).push(w@));
            assert(w@ =~= ps@[i as int]@.skip(pl as int));
        }
        i += 1;
        assert(words(r@) =~= strip_all(words(ps@).subrange(0, i as int), prefix@));
    }
    assert(words(ps@).subrange(0, i as int) =~= words(ps@));
    r
}

/// Whether some prefix of `prefixes` starts `p`.
fn any_prefix(prefixes: &Vec<String>, p: &String) -> (r: bool)
    ensures
        r == exists|k: int| 0 <= k < prefixes@.len() && (#[trigger] words(prefixes@)[k]).is_prefix_of(p@),
{
    let mut k: usize = 0;
    while k < prefixes.len()
        invariant
            k <= prefixes@.len(),
            forall|j: int| 0 <= j < k ==> !(#[trigger] words(prefixes@)[j]).is_prefix_of(p@),
        decreases prefixes.len() - k,
    {
        if starts_with(p, &prefixes[k]) {
            assert(words(prefixes@)[k as int] == prefixes@[k as int]@);
            return true;
        }
        k += 1;
    }
    false
}

impl Grammar {
    /// Left factoring: the alternatives of each non-terminal `A`, in order, are put in a
    /// prefix tree; for the k-th prefix the tree reports, when some alternatives start
    /// with it, `A` gets `prefix A'..'` (k primes) and a new rule gives `A'..'` the rests
    /// (ε for an empty one); alternatives with none of the prefixes stay. The new rules
    /// are added at the end, in order.
    pub fn eliminate_left_common_factor(&mut self)
        requires
            old(self).wf(),
        ensures
            final(self).wf(),
            exists|pre: Seq<Seq<Seq<char>>>| #[trigger] lcf_outcome(
                entry_map(old(self).productions@),
                word_set(old(self).non_terminals@),
                words(old(self).non_terminals@),
                pre,
                entry_map(final(self).productions@),
                word_set(final(self).non_terminals@),
            ),
            final(self).terminals == old(self).terminals,
            final(self).start_symbol == old(self).start_symbol,
    {
        let order = copy_words(&self.non_terminals);
        let ghost wo = words(order@);
        let ghost m0 = entry_map(self.productions@);
        let ghost n0 = word_set(self.non_terminals@);
        let ghost mut pre: Seq<Seq<Seq<char>>> = Seq::empty();
        let mut rules: Vec<(String, Vec<String>)> = Vec::new();
        let mut i: usize = 0;
        while i < order.len()
            invariant
                self.wf(),
                wo == words(order@),
                wo == words(old(self).non_terminals@),
                wo.no_duplicates(),
                m0 == entry_map(old(self).productions@),
                n0 == word_set(old(self).non_terminals@),
                i <= order@.len(),
                pre.len() == i,
                forall|j: int| 0 <= j < i && #[trigger] m0.contains_key(wo[j]) ==> exists|t: Trie| #[trigger] trie_prefixes(t, m0[wo[j]]) && pre[j] == lcp_prefixes(t),
                ({
                    let (m, n, r) = lcf_upto(m0, n0, wo, pre, i as int);
                    entry_map(self.productions@) == m && word_set(self.non_terminals@) == n && rules_view(rules@) == r
                }),
                forall|k: Seq<char>| !wo.subrange(0, i as int).contains(k) ==> (#[trigger] entry_map(self.productions@).contains_key(k) == m0.contains_key(k)
                    && (m0.contains_key(k) ==> entry_map(self.productions@)[k] == m0[k])),
                self.terminals == old(self).terminals,
                self.start_symbol == old(self).start_symbol,
            decreases order.len() - i,
        {
            let nt = &order[i];
            assert(wo[i as int] == nt@);
            assert(!wo.subrange(0, i as int).contains(nt@)) by {
                if wo.subrange(0, i as int).contains(nt@) {
                    let j = choose|j: int| 0 <= j < i && wo.subrange(0, i as int)[j] == nt@;
                    assert(wo[j] == wo[i as int]);
                }
            }
            let ghost (m_i, n_i, r_i) = lcf_upto(m0, n0, wo, pre, i as int);
            let ghost pre_old = pre;
            match self.build_trie_for_nonterminal(nt.as_str()) {
                None => {
                    proof {
                        pre = pre.push(Seq::empty());
                        assert(!m0.contains_key(nt@));
                        lemma_lcf_prefix(m0, n0, wo, pre, i as int);
                        assert(pre.subrange(0, i as int) =~= pre_old);
                        assert(lcf_upto(m0, n0, wo, pre, i as int) == (m_i, n_i, r_i));
                        assert(same_except(entry_map(self.productions@), m_i, nt@));
                    }
                },
                Some(trie) => {
                    let e = entry_index(&self.productions, nt).unwrap();
                    proof { lemma_entry_at(self.productions@, e as int); }
                    let ps = copy_words(&self.productions[e].1);
                    let lcp = trie.extract_longest_common_prefix();
                    let mut prefixes: Vec<String> = Vec::new();
                    let mut q: usize = 0;
                    while q < lcp.len()
                        invariant
                            q <= lcp@.len(),
                            words(prefixes@) == entries_view(lcp@).subrange(0, q as int).map_values(|e: (Seq<char>, Seq<Seq<char>>)| e.0),
                        decreases lcp.len() - q,
                    {
                        let ghost b = prefixes@;
                        let w = lcp[q].0.clone();
                        prefixes.push(w);
                        assert(words(prefixes@) =~= words(b).push(w@));
                        q += 1;
                        assert(words(prefixes@) =~= entries_view(lcp@).subrange(0, q as int).map_values(|e: (Seq<char>, Seq<Seq<char>>)| e.0));
                    }
                    assert(entries_view(lcp@).subrange(0, q as int) =~= entries_view(lcp@));
                    let ghost pw = words(prefixes@);
                    assert(pw == lcp_prefixes(trie));
                    let mut new_alts: Vec<String> = Vec::new();
                    let mut name = nt.clone();
                    let ghost m_before = entry_map(self.productions@);
                    let mut k: usize = 0;
                    while k < prefixes.len()
                        invariant
                            self.wf(),
                            k <= prefixes@.len(),
                            pw == words(prefixes@),
                            name@ == primes(nt@, k as int),
                            words(new_alts@) == factor_steps(words(ps@), nt@, pw, k as int).0,
                            rules_view(rules@) == r_i + factor_steps(words(ps@), nt@, pw, k as int).1,
                            word_set(self.non_terminals@) == n_i.union(rule_names(factor_steps(words(ps@), nt@, pw, k as int).1)),
                            entry_map(self.productions@) == m_before,
                            self.terminals == old(self).terminals,
                            self.start_symbol == old(self).start_symbol,
                        decreases prefixes.len() - k,
                    {
                        push_char(&mut name, '\'');
                        let suffixes = strip_prefix_all(&ps, &prefixes[k]);
                        if suffixes.len() > 0 {
                            add_word(&mut self.non_terminals, name.clone());
                            let mut rests: Vec<String> = Vec::new();
                            let mut q: usize = 0;
                            while q < suffixes.len()
                                invariant
                                    q <= suffixes@.len(),
                                    words(rests@) == words(suffixes@).subrange(0, q as int).map_values(|w: Seq<char>| eps_if_empty(w)),
                                decreases suffixes.len() - q,
                            {
                                let ghost b = rests@;
                                let w = if suffixes[q].as_str().unicode_len() == 0 { char_string('ε') } else { suffixes[q].clone() };
                                rests.push(w);
                                assert(words(rests@) =~= words(b).push(w@));
                                q += 1;
                                assert(words(rests@) =~= words(suffixes@).subrange(0, q as int).map_values(|w: Seq<char>| eps_if_empty(w)));
                            }
                            assert(words(suffixes@).subrange(0, q as int) =~= words(suffixes@));
                            let ghost rb = rules@;
                            rules.push((name.clone(), rests));
                            let ghost ab = new_alts@;
                            let alt = joined(&prefixes[k], &name);
                            new_alts.push(alt);
                            proof {
                                assert(words(new_alts@) =~= words(ab).push(alt@));
                                assert(rules_view(rules@) =~= rules_view(rb).push((name@, words(rests@))));
                                let fs = factor_steps(words(ps@), nt@, pw, k as int + 1).1;
                                let f0 = factor_steps(words(ps@), nt@, pw, k as int).1;
                                assert(fs == f0.push((name@, words(rests@))));
                                assert(rule_names(fs) =~= rule_names(f0).insert(name@)) by {
                                    assert forall|w: Seq<char>| rule_names(fs).contains(w) <==> rule_names(f0).insert(name@).contains(w) by {
                                        if rule_names(fs).contains(w) {
                                            let j = choose|j: int| 0 <= j < fs.len() && (#[trigger] fs[j]).0 == w;
                                            if j < f0.len() {
                                                assert(f0[j] == fs[j]);
                                            }
                                        }
                                        if rule_names(f0).contains(w) {
                                            let j = choose|j: int| 0 <= j < f0.len() && (#[trigger] f0[j]).0 == w;
                                            assert(fs[j] == f0[j]);
                                        }
                                        if w == name@ {
                                            assert(fs[f0.len() as int].0 == w);
                                        }
                                    }
                                }
                                assert(word_set(self.non_terminals@) =~= n_i.union(rule_names(fs)));
                                assert(rules_view(rules@) =~= r_i + fs);
                            }
                        }
                        k += 1;
                    }
                    let mut q: usize = 0;
                    let ghost fa = factor_steps(words(ps@), nt@, pw, pw.len() as int).0;
                    while q < ps.len()
                        invariant
                            q <= ps@.len(),
                            pw == words(prefixes@),
                            words(new_alts@) == fa + unmatched(words(ps@).subrange(0, q as int), pw),
                        decreases ps.len() - q,
                    {
                        proof {
                            assert(words(ps@).subrange(0, q + 1).drop_last() =~= words(ps@).subrange(0, q as int));
                            assert(words(ps@).subrange(0, q + 1).last() == ps@[q as int]@);
                        }
                        if !any_prefix(&prefixes, &ps[q]) {
                            let ghost b = new_alts@;
                            new_alts.push(ps[q].clone());
                            assert(words(new_alts@) =~= words(b).push(ps@[q as int]@));
                        }
                        q += 1;
                        assert(words(new_alts@) =~= fa + unmatched(words(ps@).subrange(0, q as int), pw));
                    }
                    assert(words(ps@).subrange(0, q as int) =~= words(ps@));
                    set_entry(&mut self.productions, nt, new_alts);
                    proof {
                        pre = pre.push(pw);
                        assert(words(ps@) == m0[nt@]);
                        lemma_lcf_prefix(m0, n0, wo, pre, i as int);
                        assert(pre.subrange(0, i as int) =~= pre_old);
                        assert(lcf_upto(m0, n0, wo, pre, i as int) == (m_i, n_i, r_i));
                        assert(pre[i as int] == pw);
                        assert(m0.contains_key(nt@));
                        assert(same_except(entry_map(self.productions@), m_i, nt@));
                        assert(trie_prefixes(trie, m0[wo[i as int]]) && pre[i as int] == lcp_prefixes(trie));
                    }
                },
            }
            proof {
                assert forall|j: int| 0 <= j < i + 1 && #[trigger] m0.contains_key(wo[j]) implies exists|t: Trie| #[trigger] trie_prefixes(t, m0[wo[j]]) && pre[j] == lcp_prefixes(t) by {
                    if j < i {
                    }
                }
                assert(same_except(entry_map(self.productions@), m_i, nt@));
                assert forall|k: Seq<char>| !wo.subrange(0, i + 1).contains(k) implies (#[trigger] entry_map(self.productions@).contains_key(k) == m0.contains_key(k)
                    && (m0.contains_key(k) ==> entry_map(self.productions@)[k] == m0[k])) by {
                    assert(!wo.subrange(0, i as int).contains(k)) by {
                        if wo.subrange(0, i as int).contains(k) {
                            let j = choose|j: int| 0 <= j < i && wo.subrange(0, i as int)[j] == k;
                            assert(wo.subrange(0, i + 1)[j] == k);
                        }
                    }
                    assert(k != nt@) by {
                        if k == nt@ {
                            assert(wo.subrange(0, i + 1)[i as int] == k);
                        }
                    }
                    assert(entry_map(self.productions@).contains_key(k) == m_i.contains_key(k));
                }
            }
            i += 1;
        }
        let ghost (m_n, n_n, r_n) = lcf_upto(m0, n0, wo, pre, i as int);
        let mut k: usize = 0;
        while k < rules.len()
            invariant
                self.wf(),
                k <= rules@.len(),
                entry_map(self.productions@) == apply_rules(m_n, rules_view(rules@).subrange(0, k as int)),
                word_set(self.non_terminals@) == n_n,
                self.terminals == old(self).terminals,
                self.start_symbol == old(self).start_symbol,
            decreases rules.len() - k,
        {
            let alts = copy_words(&rules[k].1);
            set_entry(&mut self.productions, &rules[k].0, alts);
            proof {
                let rv = rules_view(rules@);
                assert(rv.subrange(0, k + 1).drop_last() =~= rv.subrange(0, k as int));
                assert(rv.subrange(0, k + 1).last() == (rules@[k as int].0@, words(rules@[k as int].1@)));
            }
            k += 1;
        }
        proof {
            assert(rules_view(rules@).subrange(0, k as int) =~= r_n);
            assert(lcf_outcome(m0, n0, wo, pre, entry_map(self.productions@), word_set(self.non_terminals@)));
        }
    }
}

/// The factoring of the first `i` non-terminals does not look at prefixes beyond.
proof fn lemma_lcf_prefix(m0: ProdMap, n0: Set<Seq<char>>, order: Seq<Seq<char>>, pre: Seq<Seq<Seq<char>>>, i: int)
    requires
        0 <= i < pre.len(),
    ensures
        lcf_upto(m0, n0, order, pre, i) == lcf_upto(m0, n0, order, pre.subrange(0, i), i),
    decreases i,
{
    if i > 0 {
        lemma_lcf_prefix(m0, n0, order, pre, i - 1);
        lemma_lcf_prefix(m0, n0, order, pre.subrange(0, i), i - 1);
        assert(pre.subrange(0, i).subrange(0, i - 1) =~= pre.subrange(0, i - 1));
    }
}

} // verus!
