use vstd::prelude::*;
use crate::lexer::{Lexer, tokens};
use crate::table::{
    as_map,
    distinct_keys,
    entry_view,
    frequencies,
    lemma_as_map_entry,
    lemma_as_map_keys,
    lemma_as_map_len,
    lemma_as_map_update,
    lemma_distinct_push,
    lemma_distinct_update,
    lemma_frequencies_bound,
    lemma_frequencies_sum,
    sum_values,
    TermFreq,
};

verus! {

broadcast use vstd::seq_lib::group_to_multiset_ensures;

/// Builds the term-frequency table of one document.
pub fn term_frequencies(content: &[char]) -> (r: TermFreq)
    ensures
        r.wf(),
        r@ == frequencies(tokens(content@)),
        r@.dom().finite(),
        sum_values(r@) == tokens(content@).len(),
{
    let mut table = TermFreq::new();
    let n: usize = content.len();
    let mut lexer = Lexer::new(content);
    let ghost done: Seq<Seq<char>> = seq![];
    assert(frequencies(done) =~= Map::<Seq<char>, nat>::empty());
    loop
        invariant
            table.wf(),
            table@ == frequencies(done),
            done + tokens(lexer@) == tokens(content@),
            done.len() + lexer@.len() <= content@.len(),
            n == content@.len(),
        decreases lexer@.len(),
    {
        let ghost pending = tokens(lexer@);
        match lexer.next_token() {
            None => {
                assert(done =~= tokens(content@));
                proof {
                    lemma_frequencies_sum(done);
                }
                return table;
            },
            Some(t) => {
                let ghost k = t@;
                proof {
                    lemma_frequencies_bound(done, k);
                }
                table.add(t);
                proof {
                    assert(done.push(k).drop_last() =~= done);
                    done = done.push(k);
                    assert(done + tokens(lexer@) =~= tokens(content@));
                }
            },
        }
    }
}

/// The index: each document path with its term-frequency table. Its view
/// maps each path to the table's view.
pub struct Index {
    docs: Vec<(String, TermFreq)>,
}

pub open spec fn document_entry(d: (String, TermFreq)) -> (Seq<char>, Map<Seq<char>, nat>) {
    (d.0@, d.1@)
}

impl Index {
    pub closed spec fn pairs(&self) -> Seq<(Seq<char>, Map<Seq<char>, nat>)> {
        self.docs@.map_values(|d: (String, TermFreq)| document_entry(d))
    }

    /// Each path has at most one entry, and each table is well formed.
    pub closed spec fn wf(&self) -> bool {
        &&& distinct_keys(self.pairs())
        &&& forall|i: int| 0 <= i < self.docs@.len() ==> (#[trigger] self.docs@[i]).1.wf()
    }
}

impl View for Index {
    type V = Map<Seq<char>, Map<Seq<char>, nat>>;

    closed spec fn view(&self) -> Map<Seq<char>, Map<Seq<char>, nat>> {
        as_map(self.pairs())
    }
}

impl Index {
    pub fn new() -> (r: Index)
        ensures
            r.wf(),
            r@ == Map::<Seq<char>, Map<Seq<char>, nat>>::empty(),
    {
        let r = Index { docs: Vec::new() };
        assert(r.pairs() =~= Seq::<(Seq<char>, Map<Seq<char>, nat>)>::empty());
        r
    }

    fn find(&self, path: &String) -> (r: Option<usize>)
        requires
            self.wf(),
        ensures
            match r {
                Some(i) => i < self.pairs().len() && self.pairs()[i as int].0 == path@,
                None => !self@.contains_key(path@),
            },
    {
        let mut i: usize = 0;
        while i < self.docs.len()
            invariant
                i <= self.docs@.len(),
                forall|j: int| 0 <= j < i ==> self.pairs()[j].0 != path@,
            decreases self.docs@.len() - i,
        {
            if self.docs[i].0 == *path {
                return Some(i);
            }
            i += 1;
        }
        proof {
            lemma_as_map_keys(self.pairs(), path@);
        }
        None
    }

    /// Puts `table` under `path`, replacing what was there.
    pub fn insert(&mut self, path: String, table: TermFreq)
        requires
            old(self).wf(),
            table.wf(),
        ensures
            final(self).wf(),
            final(self)@ == old(self)@.insert(path@, table@),
    {
        let ghost e = self.pairs();
        let ghost k = path@;
        let ghost v = table@;
        match self.find(&path) {
            Some(i) => {
                proof {
                    lemma_as_map_update(e, i as int, v);
                    lemma_distinct_update(e, i as int, v);
                }
                self.docs.set(i, (path, table));
                assert(self.pairs() =~= e.update(i as int, (e[i as int].0, v)));
            },
            None => {
                proof {
                    lemma_distinct_push(e, k, v);
                }
                self.docs.push((path, table));
                assert(self.pairs() =~= e.push((k, v)));
                assert(e.push((k, v)).drop_last() =~= e);
            },
        }
    }

    /// Tokenizes `content` and records its term-frequency table under `path`.
    pub fn add_document(&mut self, path: String, content: &[char])
        requires
            old(self).wf(),
        ensures
            final(self).wf(),
            final(self)@ == old(self)@.insert(path@, frequencies(tokens(content@))),
    {
        let table = term_frequencies(content);
        self.insert(path, table);
    }

    /// The number of documents.
    pub fn len(&self) -> (r: usize)
        requires
            self.wf(),
        ensures
            r == self@.dom().len(),
    {
        proof {
            lemma_as_map_len(self.pairs());
        }
        self.docs.len()
    }

    /// The table of the document at `path`.
    pub fn get(&self, path: &String) -> (r: Option<&TermFreq>)
        requires
            self.wf(),
        ensures
            match r {
                Some(t) => self@.contains_key(path@) && t@ == self@[path@] && t.wf(),
                None => !self@.contains_key(path@),
            },
    {
        match self.find(path) {
            Some(i) => {
                proof {
                    lemma_as_map_entry(self.pairs(), i as int);
                }
                Some(&self.docs[i].1)
            },
            None => None,
        }
    }

    /// The documents, one entry per path, in no particular order.
    pub fn documents(&self) -> (r: &Vec<(String, TermFreq)>)
        ensures
            r@.map_values(|d: (String, TermFreq)| document_entry(d)) == self.pairs(),
            as_map(self.pairs()) == self@,
            self.wf() ==> distinct_keys(self.pairs()),
            self.wf() ==> forall|i: int| 0 <= i < r@.len() ==> (#[trigger] r@[i]).1.wf(),
    {
        &self.docs
    }
}

/// The map that a stored form of the index stands for: path to term to
/// count, a later entry winning over an earlier one with the same key.
pub open spec fn stored_view(v: Seq<(String, Vec<(String, usize)>)>) -> Map<
    Seq<char>,
    Map<Seq<char>, nat>,
> {
    as_map(v.map_values(|d: (String, Vec<(String, usize)>)| stored_entry(d)))
}

pub open spec fn stored_entry(d: (String, Vec<(String, usize)>)) -> (Seq<char>, Map<Seq<char>, nat>) {
    (d.0@, as_map(d.1@.map_values(|e: (String, usize)| entry_view(e))))
}

impl Index {
    /// The index in its stored form: each path with its (term, count) list.
    pub fn export(&self) -> (r: Vec<(String, Vec<(String, usize)>)>)
        requires
            self.wf(),
        ensures
            stored_view(r@) == self@,
            r@.len() == self@.dom().len(),
    {
        let docs = self.documents();
        let ghost e = self.pairs();
        let mut out: Vec<(String, Vec<(String, usize)>)> = Vec::new();
        let mut i: usize = 0;
        while i < docs.len()
            invariant
                i <= docs@.len(),
                e == docs@.map_values(|d: (String, TermFreq)| document_entry(d)),
                forall|k: int| 0 <= k < docs@.len() ==> (#[trigger] docs@[k]).1.wf(),
                out@.map_values(|d: (String, Vec<(String, usize)>)| stored_entry(d)) == e.take(
                    i as int,
                ),
            decreases docs@.len() - i,
        {
            let path = docs[i].0.clone();
            let table = &docs[i].1;
            let entries = copy_entries(table.entries());
            proof {
                assert(entries@.map_values(|x: (String, usize)| entry_view(x)) =~= table.pairs());
                assert(stored_entry((path, entries)) == e[i as int]);
            }
            let ghost before = out@;
            let ghost item = (path, entries);
            out.push((path, entries));
            proof {
                assert(out@ == before.push(item));
                assert(out@.map_values(|d: (String, Vec<(String, usize)>)| stored_entry(d)) =~= before.map_values(
                    |d: (String, Vec<(String, usize)>)| stored_entry(d),
                ).push(stored_entry(item)));
                assert(e.take(i + 1) =~= e.take(i as int).push(e[i as int]));
            }
            i += 1;
        }
        assert(e.take(i as int) =~= e);
        proof {
            lemma_as_map_len(e);
        }
        out
    }

    /// Builds an index from its stored form; a later entry for a path or a
    /// term replaces an earlier one.
    pub fn import(stored: Vec<(String, Vec<(String, usize)>)>) -> (r: Index)
        ensures
            r.wf(),
            r@ == stored_view(stored@),
    {
        let ghost sv = stored@.map_values(|d: (String, Vec<(String, usize)>)| stored_entry(d));
        let mut index = Index::new();
        assert(sv.take(0) =~= Seq::<(Seq<char>, Map<Seq<char>, nat>)>::empty());
        let mut i: usize = 0;
        let n: usize = stored.len();
        while i < n
            invariant
                n == stored@.len(),
                i <= n,
                sv == stored@.map_values(|d: (String, Vec<(String, usize)>)| stored_entry(d)),
                index.wf(),
                index@ == as_map(sv.take(i as int)),
            decreases n - i,
        {
            let entries = &stored[i].1;
            let mut table = TermFreq::new();
            let mut j: usize = 0;
            let ghost ev = entries@.map_values(|e: (String, usize)| entry_view(e));
            assert(as_map(ev.take(0)) =~= Map::<Seq<char>, nat>::empty());
            while j < entries.len()
                invariant
                    j <= entries@.len(),
                    ev == entries@.map_values(|e: (String, usize)| entry_view(e)),
                    table.wf(),
                    table@ == as_map(ev.take(j as int)),
                decreases entries@.len() - j,
            {
                table.insert(entries[j].0.clone(), entries[j].1);
                assert(ev.take(j + 1).drop_last() =~= ev.take(j as int));
                j += 1;
            }
            assert(ev.take(j as int) =~= ev);
            index.insert(stored[i].0.clone(), table);
            assert(sv.take(i + 1).drop_last() =~= sv.take(i as int));
            i += 1;
        }
        assert(sv.take(i as int) =~= sv);
        index
    }
}

fn copy_entries(v: &Vec<(String, usize)>) -> (r: Vec<(String, usize)>)
    ensures
        r@ == v@,
{
    let mut out: Vec<(String, usize)> = Vec::new();
    let mut i: usize = 0;
    while i < v.len()
        invariant
            i <= v@.len(),
            out@ == v@.take(i as int),
        decreases v@.len() - i,
    {
        out.push((v[i].0.clone(), v[i].1));
        assert(out@ =~= v@.take(i + 1));
        i += 1;
    }
    assert(v@.take(i as int) =~= v@);
    out
}

/// Exporting an index and importing what came out gives back an index with
/// the same paths, terms and counts: the stored form loses nothing.
pub fn round_trip(index: &Index) -> (r: Index)
    requires
        index.wf(),
    ensures
        r.wf(),
        r@ == index@,
{
    Index::import(index.export())
}

/// What one document contributes to the index.
pub open spec fn document_view(d: (Seq<char>, Seq<char>)) -> (Seq<char>, Map<Seq<char>, nat>) {
    (d.0, frequencies(tokens(d.1)))
}

/// The index built from documents (path and text) arriving in the order given.
pub open spec fn index_of(docs: Seq<(Seq<char>, Seq<char>)>) -> Map<
    Seq<char>,
    Map<Seq<char>, nat>,
> {
    as_map(docs.map_values(|d: (Seq<char>, Seq<char>)| document_view(d)))
}

/// Adding one more document to the index built so far gives the index of
/// all of them: what `Index::add_document` does, step by step.
pub proof fn lemma_index_of_push(docs: Seq<(Seq<char>, Seq<char>)>, d: (Seq<char>, Seq<char>))
    ensures
        index_of(docs.push(d)) == index_of(docs).insert(d.0, frequencies(tokens(d.1))),
{
    let e = docs.map_values(|x: (Seq<char>, Seq<char>)| document_view(x));
    assert(docs.push(d).map_values(|x: (Seq<char>, Seq<char>)| document_view(x)).drop_last() =~= e);
}

/// The index does not depend on the order in which documents arrive: two
/// arrival orders of the same documents, each path once, give equal indexes.
pub proof fn lemma_arrival_order_irrelevant(
    a: Seq<(Seq<char>, Seq<char>)>,
    b: Seq<(Seq<char>, Seq<char>)>,
)
    requires
        distinct_keys(a),
        distinct_keys(b),
        a.to_multiset() == b.to_multiset(),
    ensures
        index_of(a) == index_of(b),
{
    let ea = a.map_values(|x: (Seq<char>, Seq<char>)| document_view(x));
    let eb = b.map_values(|x: (Seq<char>, Seq<char>)| document_view(x));
    assert(distinct_keys(ea)) by {
        assert forall|i: int, j: int| 0 <= i < j < ea.len() implies ea[i].0 != ea[j].0 by {
            assert(ea[i].0 == a[i].0 && ea[j].0 == a[j].0);
        }
    }
    assert(distinct_keys(eb)) by {
        assert forall|i: int, j: int| 0 <= i < j < eb.len() implies eb[i].0 != eb[j].0 by {
            assert(eb[i].0 == b[i].0 && eb[j].0 == b[j].0);
        }
    }
    assert forall|k: Seq<char>| #[trigger] index_of(a).contains_key(k) implies index_of(b).contains_key(
        k,
    ) && index_of(a)[k] == index_of(b)[k] by {
        lemma_as_map_keys(ea, k);
        let i = choose|i: int| 0 <= i < ea.len() && ea[i].0 == k;
        assert(a.contains(a[i]));
        assert(a.to_multiset().count(a[i]) > 0);
        assert(b.to_multiset().count(a[i]) > 0);
        assert(b.contains(a[i]));
        let j = choose|j: int| 0 <= j < b.len() && b[j] == a[i];
        lemma_as_map_entry(ea, i);
        lemma_as_map_entry(eb, j);
        assert(eb[j] == ea[i]);
    }
    assert forall|k: Seq<char>| #[trigger] index_of(b).contains_key(k) implies index_of(a).contains_key(
        k,
    ) by {
        lemma_as_map_keys(eb, k);
        let j = choose|j: int| 0 <= j < eb.len() && eb[j].0 == k;
        assert(b.contains(b[j]));
        assert(b.to_multiset().count(b[j]) > 0);
        assert(a.to_multiset().count(b[j]) > 0);
        assert(a.contains(b[j]));
        let i = choose|i: int| 0 <= i < a.len() && a[i] == b[j];
        assert(ea[i].0 == k);
        lemma_as_map_keys(ea, k);
    }
    assert(index_of(a) =~= index_of(b));
}

} // verus!
