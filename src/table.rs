use vstd::prelude::*;

verus! {

/// The map that an association list stands for; a later entry wins over an
/// earlier one with the same key.
pub open spec fn as_map<V>(e: Seq<(Seq<char>, V)>) -> Map<Seq<char>, V>
    decreases e.len(),
{
    if e.len() == 0 {
        Map::empty()
    } else {
        as_map(e.drop_last()).insert(e.last().0, e.last().1)
    }
}

pub open spec fn distinct_keys<V>(e: Seq<(Seq<char>, V)>) -> bool {
    forall|i: int, j: int| 0 <= i < j < e.len() ==> e[i].0 != e[j].0
}

/// A key is in the map exactly when some entry has it.
pub proof fn lemma_as_map_keys<V>(e: Seq<(Seq<char>, V)>, k: Seq<char>)
    ensures
        as_map(e).contains_key(k) <==> exists|i: int| 0 <= i < e.len() && e[i].0 == k,
    decreases e.len(),
{
    if e.len() > 0 {
        let d = e.drop_last();
        lemma_as_map_keys(d, k);
        if as_map(e).contains_key(k) && k != e.last().0 {
            let i = choose|i: int| 0 <= i < d.len() && d[i].0 == k;
            assert(e[i].0 == k);
        }
        if exists|i: int| 0 <= i < e.len() && e[i].0 == k {
            let i = choose|i: int| 0 <= i < e.len() && e[i].0 == k;
            if i < d.len() {
                assert(d[i].0 == k);
            }
        }
    }
}

/// With distinct keys, each entry's value is the map's value at its key.
pub proof fn lemma_as_map_entry<V>(e: Seq<(Seq<char>, V)>, i: int)
    requires
        distinct_keys(e),
        0 <= i < e.len(),
    ensures
        as_map(e).contains_key(e[i].0),
        as_map(e)[e[i].0] == e[i].1,
    decreases e.len(),
{
    let d = e.drop_last();
    if i < e.len() - 1 {
        assert(d[i] == e[i]);
        lemma_as_map_entry(d, i);
    }
}

/// Replacing the value of one entry replaces the map's value at its key.
pub proof fn lemma_as_map_update<V>(e: Seq<(Seq<char>, V)>, i: int, v: V)
    requires
        distinct_keys(e),
        0 <= i < e.len(),
    ensures
        as_map(e.update(i, (e[i].0, v))) == as_map(e).insert(e[i].0, v),
    decreases e.len(),
{
    let u = e.update(i, (e[i].0, v));
    let d = e.drop_last();
    if i == e.len() - 1 {
        assert(u.drop_last() =~= d);
        assert(as_map(e).insert(e[i].0, v) =~= as_map(d).insert(e[i].0, v));
    } else {
        assert(u.drop_last() =~= d.update(i, (e[i].0, v)));
        assert(d[i] == e[i]);
        lemma_as_map_update(d, i, v);
        assert(e.last().0 != e[i].0);
        assert(as_map(u) =~= as_map(e).insert(e[i].0, v));
    }
}

/// Pushing an entry under a new key keeps the keys distinct.
pub proof fn lemma_distinct_push<V>(e: Seq<(Seq<char>, V)>, k: Seq<char>, v: V)
    requires
        distinct_keys(e),
        !as_map(e).contains_key(k),
    ensures
        distinct_keys(e.push((k, v))),
{
    lemma_as_map_keys(e, k);
    let p = e.push((k, v));
    assert forall|i: int, j: int| 0 <= i < j < p.len() implies p[i].0 != p[j].0 by {
        if j == e.len() {
            assert(p[i] == e[i]);
        } else {
            assert(p[i] == e[i] && p[j] == e[j]);
        }
    }
}

pub proof fn lemma_distinct_update<V>(e: Seq<(Seq<char>, V)>, i: int, v: V)
    requires
        distinct_keys(e),
        0 <= i < e.len(),
    ensures
        distinct_keys(e.update(i, (e[i].0, v))),
{
    let u = e.update(i, (e[i].0, v));
    assert forall|a: int, b: int| 0 <= a < b < u.len() implies u[a].0 != u[b].0 by {
        assert(u[a].0 == e[a].0 && u[b].0 == e[b].0);
    }
}

/// How often each term occurs in `toks`: a term met again counts one more,
/// a term met first counts one.
pub open spec fn frequencies(toks: Seq<Seq<char>>) -> Map<Seq<char>, nat>
    decreases toks.len(),
{
    if toks.len() == 0 {
        Map::empty()
    } else {
        let m = frequencies(toks.drop_last());
        let t = toks.last();
        m.insert(
            t,
            if m.contains_key(t) {
                m[t] + 1
            } else {
                1
            },
        )
    }
}

pub proof fn lemma_frequencies_bound(toks: Seq<Seq<char>>, t: Seq<char>)
    ensures
        frequencies(toks).contains_key(t) ==> 1 <= frequencies(toks)[t] <= toks.len(),
    decreases toks.len(),
{
    if toks.len() > 0 {
        lemma_frequencies_bound(toks.drop_last(), t);
    }
}

/// The sum of the values of a finite map.
pub open spec fn sum_values(m: Map<Seq<char>, nat>) -> nat
    decreases m.dom().len(),
    when m.dom().finite()
{
    if m.dom().len() == 0 {
        0
    } else {
        let k = m.dom().choose();
        m[k] + sum_values(m.remove(k))
    }
}

/// The sum may be split at any key.
pub proof fn lemma_sum_values_remove(m: Map<Seq<char>, nat>, k: Seq<char>)
    requires
        m.dom().finite(),
        m.dom().contains(k),
    ensures
        sum_values(m) == m[k] + sum_values(m.remove(k)),
    decreases m.dom().len(),
{
    let j = m.dom().choose();
    if j != k {
        let mj = m.remove(j);
        let mk = m.remove(k);
        lemma_sum_values_remove(mj, k);
        lemma_sum_values_remove(mk, j);
        assert(mj.remove(k) =~= mk.remove(j));
    }
}

pub proof fn lemma_sum_values_insert(m: Map<Seq<char>, nat>, k: Seq<char>, v: nat)
    requires
        m.dom().finite(),
        !m.dom().contains(k),
    ensures
        sum_values(m.insert(k, v)) == sum_values(m) + v,
{
    lemma_sum_values_remove(m.insert(k, v), k);
    assert(m.insert(k, v).remove(k) =~= m);
}

/// Frequencies account for every token: their sum is the token count.
pub proof fn lemma_frequencies_sum(toks: Seq<Seq<char>>)
    ensures
        frequencies(toks).dom().finite(),
        sum_values(frequencies(toks)) == toks.len(),
    decreases toks.len(),
{
    if toks.len() == 0 {
        assert(frequencies(toks).dom() =~= Set::<Seq<char>>::empty());
    } else {
        let d = toks.drop_last();
        let m = frequencies(d);
        let t = toks.last();
        lemma_frequencies_sum(d);
        if m.contains_key(t) {
            lemma_sum_values_remove(m, t);
            let n = m.insert(t, m[t] + 1);
            lemma_sum_values_remove(n, t);
            assert(n.remove(t) =~= m.remove(t));
        } else {
            lemma_sum_values_insert(m, t, 1);
        }
    }
}

/// The term-frequency table of one document: each term with how often it
/// occurs. Its view maps each term present to its count.
pub struct TermFreq {
    entries: Vec<(String, usize)>,
}

pub open spec fn entry_view(e: (String, usize)) -> (Seq<char>, nat) {
    (e.0@, e.1 as nat)
}

impl TermFreq {
    pub closed spec fn pairs(&self) -> Seq<(Seq<char>, nat)> {
        self.entries@.map_values(|e: (String, usize)| entry_view(e))
    }

    /// Each term has at most one entry.
    pub closed spec fn wf(&self) -> bool {
        distinct_keys(self.pairs())
    }
}

impl View for TermFreq {
    type V = Map<Seq<char>, nat>;

    closed spec fn view(&self) -> Map<Seq<char>, nat> {
        as_map(self.pairs())
    }
}

impl TermFreq {
    pub fn new() -> (r: TermFreq)
        ensures
            r.wf(),
            r@ == Map::<Seq<char>, nat>::empty(),
    {
        let r = TermFreq { entries: Vec::new() };
        assert(r.pairs() =~= Seq::<(Seq<char>, nat)>::empty());
        r
    }

    /// The position of `term`'s entry, if it has one.
    fn find(&self, term: &String) -> (r: Option<usize>)
        requires
            self.wf(),
        ensures
            match r {
                Some(i) => i < self.pairs().len() && self.pairs()[i as int].0 == term@,
                None => !self@.contains_key(term@),
            },
    {
        let mut i: usize = 0;
        while i < self.entries.len()
            invariant
                i <= self.entries@.len(),
                forall|j: int| 0 <= j < i ==> self.pairs()[j].0 != term@,
            decreases self.entries@.len() - i,
        {
            if self.entries[i].0 == *term {
                return Some(i);
            }
            i += 1;
        }
        proof {
            lemma_as_map_keys(self.pairs(), term@);
        }
        None
    }

    /// How often `term` occurs; 0 when it does not.
    pub fn count(&self, term: &String) -> (r: usize)
        requires
            self.wf(),
        ensures
            r == (if self@.contains_key(term@) {
                self@[term@]
            } else {
                0
            }),
    {
        match self.find(term) {
            Some(i) => {
                proof {
                    lemma_as_map_entry(self.pairs(), i as int);
                }
                self.entries[i].1
            },
            None => 0,
        }
    }

    /// Whether `term` has an entry.
    pub fn contains(&self, term: &String) -> (r: bool)
        requires
            self.wf(),
        ensures
            r == self@.contains_key(term@),
    {
        match self.find(term) {
            Some(i) => {
                proof {
                    lemma_as_map_entry(self.pairs(), i as int);
                }
                true
            },
            None => false,
        }
    }

    /// Sets the count of `term`.
    pub fn insert(&mut self, term: String, count: usize)
        requires
            old(self).wf(),
        ensures
            final(self).wf(),
            final(self)@ == old(self)@.insert(term@, count as nat),
    {
        match self.find(&term) {
            Some(i) => {
                let ghost e = self.pairs();
                let ghost k = term@;
                proof {
                    lemma_as_map_update(e, i as int, count as nat);
                    lemma_distinct_update(e, i as int, count as nat);
                }
                self.entries.set(i, (term, count));
                assert(self.pairs() =~= e.update(i as int, (e[i as int].0, count as nat)));
                assert(e[i as int].0 == k);
            },
            None => {
                let ghost e = self.pairs();
                let ghost k = term@;
                proof {
                    lemma_distinct_push(e, k, count as nat);
                }
                self.entries.push((term, count));
                assert(self.pairs() =~= e.push((k, count as nat)));
                assert(e.push((k, count as nat)).drop_last() =~= e);
            },
        }
    }

    /// Counts one more occurrence of `term`.
    pub fn add(&mut self, term: String)
        requires
            old(self).wf(),
            old(self)@.contains_key(term@) ==> old(self)@[term@] < usize::MAX,
        ensures
            final(self).wf(),
            final(self)@ == old(self)@.insert(
                term@,
                if old(self)@.contains_key(term@) {
                    old(self)@[term@] + 1
                } else {
                    1
                },
            ),
    {
        let c = self.count(&term);
        self.insert(term, c + 1);
    }

    /// The number of term occurrences in the document: the sum of the counts.
    pub fn total(&self) -> (r: u128)
        requires
            self.wf(),
        ensures
            self@.dom().finite(),
            r == sum_values(self@),
    {
        let mut sum: u128 = 0;
        let mut i: usize = 0;
        let n: usize = self.entries.len();
        let ghost e = self.pairs();
        proof {
            assert(e.take(0) =~= Seq::<(Seq<char>, nat)>::empty());
            assert(as_map(e.take(0)).dom() =~= Set::<Seq<char>>::empty());
        }
        while i < n
            invariant
                e == self.pairs(),
                distinct_keys(e),
                i <= e.len(),
                n == e.len(),
                as_map(e.take(i as int)).dom().finite(),
                sum == sum_values(as_map(e.take(i as int))),
                sum <= i * (usize::MAX as int),
            decreases e.len() - i,
        {
            let c = self.entries[i].1;
            let ghost pre = e.take(i as int);
            proof {
                assert(e.take(i + 1) =~= pre.push(e[i as int]));
                assert(pre.push(e[i as int]).drop_last() =~= pre);
                assert(distinct_keys(pre)) by {
                    assert forall|a: int, b: int| 0 <= a < b < pre.len() implies pre[a].0 != pre[b].0 by {
                        assert(pre[a] == e[a] && pre[b] == e[b]);
                    }
                }
                lemma_as_map_keys(pre, e[i as int].0);
                assert(!as_map(pre).dom().contains(e[i as int].0));
                lemma_sum_values_insert(as_map(pre), e[i as int].0, c as nat);
                assert((i + 1) * (usize::MAX as int) == i * (usize::MAX as int) + usize::MAX) by (nonlinear_arith);
                assert(i * (usize::MAX as int) + usize::MAX <= u128::MAX) by (nonlinear_arith)
                    requires i < usize::MAX;
            }
            sum = sum + c as u128;
            i += 1;
        }
        assert(e.take(i as int) =~= e);
        sum
    }

    /// The number of distinct terms.
    pub fn len(&self) -> (r: usize)
        requires
            self.wf(),
        ensures
            r == self@.dom().len(),
    {
        proof {
            lemma_as_map_len(self.pairs());
        }
        self.entries.len()
    }

    /// The entries, one per term, in no particular order.
    pub fn entries(&self) -> (r: &Vec<(String, usize)>)
        ensures
            r@.map_values(|e: (String, usize)| entry_view(e)) == self.pairs(),
            self.wf() ==> distinct_keys(self.pairs()),
            as_map(self.pairs()) == self@,
    {
        &self.entries
    }
}

/// Growing a prefix of an association list with distinct keys by one entry
/// adds one new key.
pub proof fn lemma_prefix_step<V>(e: Seq<(Seq<char>, V)>, i: int)
    requires
        distinct_keys(e),
        0 <= i < e.len(),
    ensures
        as_map(e.take(i + 1)) == as_map(e.take(i)).insert(e[i].0, e[i].1),
        !as_map(e.take(i)).contains_key(e[i].0),
        as_map(e.take(i)).dom().finite(),
{
    let pre = e.take(i);
    assert(e.take(i + 1) =~= pre.push(e[i]));
    assert(pre.push(e[i]).drop_last() =~= pre);
    assert(distinct_keys(pre)) by {
        assert forall|a: int, b: int| 0 <= a < b < pre.len() implies pre[a].0 != pre[b].0 by {
            assert(pre[a] == e[a] && pre[b] == e[b]);
        }
    }
    lemma_as_map_keys(pre, e[i].0);
    lemma_as_map_len(pre);
}

/// With distinct keys, the map has one key per entry.
pub proof fn lemma_as_map_len<V>(e: Seq<(Seq<char>, V)>)
    requires
        distinct_keys(e),
    ensures
        as_map(e).dom().finite(),
        as_map(e).dom().len() == e.len(),
    decreases e.len(),
{
    if e.len() > 0 {
        let d = e.drop_last();
        assert(distinct_keys(d)) by {
            assert forall|i: int, j: int| 0 <= i < j < d.len() implies d[i].0 != d[j].0 by {
                assert(d[i] == e[i] && d[j] == e[j]);
            }
        }
        lemma_as_map_len(d);
        lemma_as_map_keys(d, e.last().0);
        if as_map(d).contains_key(e.last().0) {
            let i = choose|i: int| 0 <= i < d.len() && d[i].0 == e.last().0;
            assert(e[i].0 == e[e.len() - 1].0);
        }
    }
}

} // verus!
