use vstd::prelude::*;
use crate::index::{document_entry, Index};
use crate::lexer::{tokenize, tokens};
use crate::table::{
    as_map,
    entry_view,
    lemma_as_map_entry,
    lemma_as_map_keys,
    lemma_prefix_step,
    sum_values,
    TermFreq,
};

verus! {

/// How results are presented: for a reader, or as JSON for tools.
#[derive(Debug, Clone, Copy, PartialEq, Eq, Structural)]
pub enum Mode {
    Regular,
    Code,
}

/// How many documents of `idx` hold the term `t` at least once.
pub open spec fn doc_freq(idx: Map<Seq<char>, Map<Seq<char>, nat>>, t: Seq<char>) -> nat {
    idx.dom().filter(|p: Seq<char>| idx[p].contains_key(t)).len()
}

/// Counts the documents of `index` that hold `term`.
pub fn document_frequency(index: &Index, term: &String) -> (r: usize)
    requires
        index.wf(),
    ensures
        r == doc_freq(index@, term@),
{
    let docs = index.documents();
    let n: usize = docs.len();
    let ghost e = docs@.map_values(|d: (String, TermFreq)| document_entry(d));
    let ghost idx = index@;
    let ghost has = |p: Seq<char>| idx[p].contains_key(term@);
    let mut count: usize = 0;
    let mut i: usize = 0;
    assert(as_map(e.take(0)).dom().filter(has) =~= Set::<Seq<char>>::empty());
    while i < n
        invariant
            n == e.len(),
            idx == index@,
            idx == as_map(e),
            crate::table::distinct_keys(e),
            e == docs@.map_values(|d: (String, TermFreq)| document_entry(d)),
            forall|k: int| 0 <= k < docs@.len() ==> (#[trigger] docs@[k]).1.wf(),
            i <= n,
            count <= i,
            count == as_map(e.take(i as int)).dom().filter(has).len(),
            has == (|p: Seq<char>| idx[p].contains_key(term@)),
        decreases n - i,
    {
        proof {
            lemma_prefix_step(e, i as int);
            lemma_as_map_entry(e, i as int);
            let pre = as_map(e.take(i as int)).dom();
            let post = as_map(e.take(i + 1)).dom();
            assert(post =~= pre.insert(e[i as int].0));
            if has(e[i as int].0) {
                assert(post.filter(has) =~= pre.filter(has).insert(e[i as int].0));
            } else {
                assert(post.filter(has) =~= pre.filter(has));
            }
        }
        if docs[i].1.contains(term) {
            count += 1;
        }
        i += 1;
    }
    assert(e.take(n as int) =~= e);
    count
}

/// What the query terms `terms` find in the table `table` of a document of
/// `idx`: for each term that the table holds, in query order, its count
/// there and its document frequency.
pub open spec fn hits_of(
    idx: Map<Seq<char>, Map<Seq<char>, nat>>,
    table: Map<Seq<char>, nat>,
    terms: Seq<Seq<char>>,
) -> Seq<(nat, nat)>
    decreases terms.len(),
{
    if terms.len() == 0 {
        seq![]
    } else {
        let prev = hits_of(idx, table, terms.drop_last());
        let t = terms.last();
        if table.contains_key(t) {
            prev.push((table[t], doc_freq(idx, t)))
        } else {
            prev
        }
    }
}

/// A document scores above zero when some hit occurs in it and is missing
/// from some other document: its term frequency and its inverse document
/// frequency are then both positive.
pub open spec fn scores_positive(hits: Seq<(nat, nat)>, documents: nat) -> bool {
    exists|k: int| 0 <= k < hits.len() && hits[k].0 > 0 && hits[k].1 < documents
}

/// A document that may rank, with what its TF-IDF score is made of: it is
/// the sum, over `hits` (count, document frequency), of
/// `count / total * ln(documents / document frequency)`.
pub struct Candidate {
    pub path: String,
    pub total: u128,
    pub hits: Vec<(usize, usize)>,
}

pub open spec fn hits_view(hits: Seq<(usize, usize)>) -> Seq<(nat, nat)> {
    hits.map_values(|h: (usize, usize)| (h.0 as nat, h.1 as nat))
}

/// What a query comes to before any arithmetic on reals.
pub enum SearchOutcome {
    /// The query holds no term.
    NoTerms,
    /// The documents that score above zero, each once; `documents` is the
    /// size of the corpus.
    Candidates { documents: usize, candidates: Vec<Candidate> },
}

/// `c` is a document of `idx` with the parts of its score for `terms`.
pub open spec fn is_candidate(
    idx: Map<Seq<char>, Map<Seq<char>, nat>>,
    terms: Seq<Seq<char>>,
    c: Candidate,
) -> bool {
    &&& idx.contains_key(c.path@)
    &&& idx[c.path@].dom().finite()
    &&& c.total == sum_values(idx[c.path@])
    &&& hits_view(c.hits@) == hits_of(idx, idx[c.path@], terms)
    &&& scores_positive(hits_view(c.hits@), idx.dom().len())
}

/// `cands` lists, each once, exactly the documents of `idx` that score above
/// zero for `terms`, each with the parts of its score. An empty corpus has
/// none.
pub open spec fn exactly_candidates(
    idx: Map<Seq<char>, Map<Seq<char>, nat>>,
    terms: Seq<Seq<char>>,
    cands: Seq<Candidate>,
) -> bool {
    &&& forall|i: int| 0 <= i < cands.len() ==> is_candidate(idx, terms, #[trigger] cands[i])
    &&& forall|i: int, j: int| 0 <= i < j < cands.len() ==> cands[i].path@ != cands[j].path@
    &&& forall|p: Seq<char>|
        #![trigger idx[p]]
        idx.contains_key(p) && scores_positive(hits_of(idx, idx[p], terms), idx.dom().len())
            ==> exists|i: int| 0 <= i < cands.len() && #[trigger] cands[i].path@ == p
    &&& idx.dom().len() == 0 ==> cands.len() == 0
}

/// Tokenizes `query` and gathers, for every document of `index` whose
/// score is above zero, the parts of that score.
pub fn search(index: &Index, query: &[char]) -> (r: SearchOutcome)
    requires
        index.wf(),
    ensures
        r is NoTerms <==> tokens(query@).len() == 0,
        r matches SearchOutcome::Candidates { documents, candidates } ==> {
            &&& documents == index@.dom().len()
            &&& exactly_candidates(index@, tokens(query@), candidates@)
        },
{
    let terms = tokenize(query);
    if terms.len() == 0 {
        assert(terms@.map_values(|t: String| t@).len() == 0);
        return SearchOutcome::NoTerms;
    }
    let ghost tv = terms@.map_values(|t: String| t@);
    let ghost idx = index@;
    let documents = index.len();
    let mut dfs: Vec<usize> = Vec::new();
    let mut j: usize = 0;
    while j < terms.len()
        invariant
            j <= terms@.len(),
            dfs@.len() == j,
            forall|k: int| 0 <= k < j ==> dfs@[k] == doc_freq(idx, #[trigger] terms@[k]@),
            idx == index@,
            index.wf(),
        decreases terms@.len() - j,
    {
        let df = document_frequency(index, &terms[j]);
        dfs.push(df);
        j += 1;
    }
    let docs = index.documents();
    let n: usize = docs.len();
    let ghost e = docs@.map_values(|d: (String, TermFreq)| document_entry(d));
    let mut out: Vec<Candidate> = Vec::new();
    let ghost mut src: Seq<int> = seq![];
    let mut i: usize = 0;
    while i < n
        invariant
            n == e.len(),
            idx == index@,
            idx == as_map(e),
            crate::table::distinct_keys(e),
            e == docs@.map_values(|d: (String, TermFreq)| document_entry(d)),
            forall|k: int| 0 <= k < docs@.len() ==> (#[trigger] docs@[k]).1.wf(),
            documents == idx.dom().len(),
            tv == tokens(query@),
            tv == terms@.map_values(|t: String| t@),
            dfs@.len() == terms@.len(),
            forall|k: int| 0 <= k < terms@.len() ==> dfs@[k] == doc_freq(idx, #[trigger] terms@[k]@),
            i <= n,
            src.len() == out@.len(),
            forall|a: int| 0 <= a < src.len() ==> 0 <= #[trigger] src[a] < i,
            forall|a: int, b: int| 0 <= a < b < src.len() ==> src[a] < src[b],
            forall|a: int|
                0 <= a < out@.len() ==> (#[trigger] out@[a]).path@ == e[src[a]].0 && is_candidate(
                    idx,
                    tv,
                    out@[a],
                ),
            forall|k: int|
                0 <= k < i && scores_positive(hits_of(idx, e[k].1, tv), documents as nat)
                    ==> exists|a: int| 0 <= a < src.len() && #[trigger] src[a] == k,
        decreases n - i,
    {
        let table = &docs[i].1;
        proof {
            lemma_as_map_entry(e, i as int);
        }
        let ghost tab = e[i as int].1;
        let mut hits: Vec<(usize, usize)> = Vec::new();
        let mut positive = false;
        let mut j: usize = 0;
        while j < terms.len()
            invariant
                j <= terms@.len(),
                table.wf(),
                table@ == tab,
                tv == terms@.map_values(|t: String| t@),
                dfs@.len() == terms@.len(),
                forall|k: int| 0 <= k < terms@.len() ==> dfs@[k] == doc_freq(idx, #[trigger] terms@[k]@),
                hits_view(hits@) == hits_of(idx, tab, tv.take(j as int)),
                positive == scores_positive(hits_view(hits@), documents as nat),
            decreases terms@.len() - j,
        {
            let ghost before = hits_view(hits@);
            assert(tv.take(j + 1).drop_last() =~= tv.take(j as int));
            if table.contains(&terms[j]) {
                let c = table.count(&terms[j]);
                hits.push((c, dfs[j]));
                assert(hits_view(hits@) =~= before.push((c as nat, dfs@[j as int] as nat)));
                proof {
                    if scores_positive(before, documents as nat) {
                        let k = choose|k: int|
                            0 <= k < before.len() && before[k].0 > 0 && before[k].1 < documents;
                        assert(hits_view(hits@)[k] == before[k]);
                    }
                }
                if c > 0 && dfs[j] < documents {
                    positive = true;
                    assert(hits_view(hits@)[before.len() as int] == (c as nat, dfs@[j as int] as nat));
                } else {
                    proof {
                        if scores_positive(hits_view(hits@), documents as nat) {
                            let k = choose|k: int|
                                0 <= k < hits_view(hits@).len() && hits_view(hits@)[k].0 > 0
                                    && hits_view(hits@)[k].1 < documents;
                            assert(k < before.len());
                            assert(before[k] == hits_view(hits@)[k]);
                        }
                    }
                }
            }
            j += 1;
        }
        assert(tv.take(j as int) =~= tv);
        let ghost old_src = src;
        if positive {
            let total = table.total();
            let path = docs[i].0.clone();
            let cand = Candidate { path, total, hits };
            proof {
                assert(e[i as int].0 == docs@[i as int].0@);
            }
            out.push(cand);
            proof {
                src = src.push(i as int);
            }
        }
        proof {
            assert forall|k: int|
                0 <= k < i + 1 && scores_positive(hits_of(idx, e[k].1, tv), documents as nat)
                    implies exists|a: int| 0 <= a < src.len() && #[trigger] src[a] == k by {
                if k == i {
                    assert(src[src.len() - 1] == k);
                } else {
                    let a = choose|a: int| 0 <= a < old_src.len() && #[trigger] old_src[a] == k;
                    assert(src[a] == old_src[a]);
                }
            }
        }
        i += 1;
    }
    proof {
        assert forall|a: int, b: int| 0 <= a < b < out@.len() implies out@[a].path@ != out@[b].path@ by {
            assert(out@[a].path@ == e[src[a]].0);
            assert(out@[b].path@ == e[src[b]].0);
        }
        assert forall|p: Seq<char>|
            #![trigger index@[p]]
            index@.contains_key(p) && scores_positive(hits_of(index@, index@[p], tv), index@.dom().len())
                implies exists|a: int| 0 <= a < out@.len() && #[trigger] out@[a].path@ == p by {
            lemma_as_map_keys(e, p);
            let k = choose|k: int| 0 <= k < e.len() && e[k].0 == p;
            lemma_as_map_entry(e, k);
            let a = choose|a: int| 0 <= a < src.len() && #[trigger] src[a] == k;
            assert(out@[a].path@ == p);
        }
        assert(tv.len() == terms@.len());
        if index@.dom().len() == 0 && out@.len() > 0 {
            assert(idx.contains_key(out@[0].path@));
            assert(idx.dom().contains(out@[0].path@));
        }
    }
    SearchOutcome::Candidates { documents, candidates: out }
}

} // verus!
