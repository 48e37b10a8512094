use vstd::prelude::*;
use vstd::utf8::encode_utf8;

verus! {

broadcast use vstd::seq_lib::group_to_multiset_ensures;

/// At most this many documents are returned for a query.
pub const RESULT_LIMIT: usize = 10;

/// Strict lexicographic order on byte strings; a proper prefix comes first.
pub open spec fn bytes_less(x: Seq<u8>, y: Seq<u8>) -> bool
    decreases x.len(),
{
    if x.len() == 0 {
        y.len() > 0
    } else if y.len() == 0 {
        false
    } else if x[0] != y[0] {
        x[0] < y[0]
    } else {
        bytes_less(x.drop_first(), y.drop_first())
    }
}

/// The ranking order on (path, score key) pairs: a higher key first, and
/// among equal keys the path whose UTF-8 bytes come first.
pub open spec fn ranks_before(a: (Seq<char>, u64), b: (Seq<char>, u64)) -> bool {
    a.1 > b.1 || (a.1 == b.1 && bytes_less(encode_utf8(a.0), encode_utf8(b.0)))
}

pub open spec fn scored_view(v: Seq<(String, u64)>) -> Seq<(Seq<char>, u64)> {
    v.map_values(|x: (String, u64)| (x.0@, x.1))
}

pub proof fn lemma_bytes_less_irreflexive(x: Seq<u8>)
    ensures
        !bytes_less(x, x),
    decreases x.len(),
{
    if x.len() > 0 {
        lemma_bytes_less_irreflexive(x.drop_first());
    }
}

pub proof fn lemma_bytes_less_transitive(x: Seq<u8>, y: Seq<u8>, z: Seq<u8>)
    requires
        bytes_less(x, y),
        bytes_less(y, z),
    ensures
        bytes_less(x, z),
    decreases x.len(),
{
    if x.len() > 0 && y.len() > 0 && z.len() > 0 && x[0] == y[0] && y[0] == z[0] {
        lemma_bytes_less_transitive(x.drop_first(), y.drop_first(), z.drop_first());
    }
}

pub proof fn lemma_ranks_before_order(a: (Seq<char>, u64), b: (Seq<char>, u64), c: (Seq<char>, u64))
    ensures
        !ranks_before(a, a),
        ranks_before(a, b) && ranks_before(b, c) ==> ranks_before(a, c),
{
    lemma_bytes_less_irreflexive(encode_utf8(a.0));
    if ranks_before(a, b) && ranks_before(b, c) && a.1 == b.1 && b.1 == c.1 {
        lemma_bytes_less_transitive(encode_utf8(a.0), encode_utf8(b.0), encode_utf8(c.0));
    }
}

proof fn lemma_bytes_less_skip(x: Seq<u8>, y: Seq<u8>, i: int)
    requires
        0 <= i <= x.len(),
        i <= y.len(),
        x.take(i) == y.take(i),
    ensures
        bytes_less(x, y) == bytes_less(x.skip(i), y.skip(i)),
    decreases i,
{
    if i > 0 {
        assert(x[0] == x.take(i)[0] && y[0] == y.take(i)[0]);
        assert(x.drop_first().take(i - 1) =~= x.take(i).drop_first());
        assert(y.drop_first().take(i - 1) =~= y.take(i).drop_first());
        lemma_bytes_less_skip(x.drop_first(), y.drop_first(), i - 1);
        assert(x.drop_first().skip(i - 1) =~= x.skip(i));
        assert(y.drop_first().skip(i - 1) =~= y.skip(i));
    } else {
        assert(x.skip(0) =~= x);
        assert(y.skip(0) =~= y);
    }
}

fn bytes_before(x: &[u8], y: &[u8]) -> (r: bool)
    ensures
        r == bytes_less(x@, y@),
{
    let mut i: usize = 0;
    while i < x.len() && i < y.len() && x[i] == y[i]
        invariant
            i <= x@.len(),
            i <= y@.len(),
            x@.take(i as int) == y@.take(i as int),
        decreases x@.len() - i,
    {
        assert(x@.take(i + 1) =~= x@.take(i as int).push(x@[i as int]));
        assert(y@.take(i + 1) =~= y@.take(i as int).push(y@[i as int]));
        i += 1;
    }
    proof {
        lemma_bytes_less_skip(x@, y@, i as int);
    }
    if i == x.len() {
        i < y.len()
    } else if i == y.len() {
        false
    } else {
        x[i] < y[i]
    }
}

fn ranks_first(a: &(String, u64), b: &(String, u64)) -> (r: bool)
    ensures
        r == ranks_before((a.0@, a.1), (b.0@, b.1)),
{
    if a.1 != b.1 {
        a.1 > b.1
    } else {
        bytes_before(a.0.as_str().as_bytes(), b.0.as_str().as_bytes())
    }
}

/// The position of an entry of `v` that no other entry ranks before.
fn best_of(v: &Vec<(String, u64)>) -> (r: usize)
    requires
        v@.len() > 0,
    ensures
        r < v@.len(),
        forall|k: int|
            0 <= k < v@.len() ==> !ranks_before(
                #[trigger] scored_view(v@)[k],
                scored_view(v@)[r as int],
            ),
{
    let ghost sv = scored_view(v@);
    let mut best: usize = 0;
    let mut j: usize = 1;
    proof {
        lemma_ranks_before_order(sv[0], sv[0], sv[0]);
    }
    while j < v.len()
        invariant
            sv == scored_view(v@),
            0 < j <= v@.len(),
            best < j,
            forall|k: int| 0 <= k < j ==> !ranks_before(#[trigger] sv[k], sv[best as int]),
        decreases v@.len() - j,
    {
        if ranks_first(&v[j], &v[best]) {
            proof {
                assert forall|k: int| 0 <= k < j + 1 implies !ranks_before(
                    #[trigger] sv[k],
                    sv[j as int],
                ) by {
                    lemma_ranks_before_order(sv[k], sv[j as int], sv[best as int]);
                }
            }
            best = j;
        }
        j += 1;
    }
    best
}

/// Orders the scored documents and keeps the first `RESULT_LIMIT`: a higher
/// score key first, equal keys by path. The result is sorted, is drawn from
/// the input, and every entry left out ranks after every entry kept.
pub fn rank(scored: Vec<(String, u64)>) -> (r: Vec<(String, u64)>)
    ensures
        r@.len() == if scored@.len() < RESULT_LIMIT {
            scored@.len()
        } else {
            RESULT_LIMIT as nat
        },
        forall|i: int, j: int|
            0 <= i < j < r@.len() ==> !ranks_before(
                #[trigger] scored_view(r@)[j],
                #[trigger] scored_view(r@)[i],
            ),
        scored_view(r@).to_multiset().subset_of(scored_view(scored@).to_multiset()),
        forall|x: (Seq<char>, u64), i: int|
            scored_view(scored@).to_multiset().count(x) > scored_view(r@).to_multiset().count(x)
                && 0 <= i < r@.len() ==> !#[trigger] ranks_before(x, scored_view(r@)[i]),
{
    let ghost all = scored_view(scored@).to_multiset();
    let mut rest = scored;
    let mut out: Vec<(String, u64)> = Vec::new();
    assert(scored_view(out@) =~= Seq::<(Seq<char>, u64)>::empty());
    assert(all =~= scored_view(out@).to_multiset().add(scored_view(rest@).to_multiset()));
    while out.len() < RESULT_LIMIT && rest.len() > 0
        invariant
            all == scored_view(out@).to_multiset().add(scored_view(rest@).to_multiset()),
            out@.len() <= RESULT_LIMIT,
            out@.len() + rest@.len() == all.len(),
            forall|i: int, j: int|
                0 <= i < j < out@.len() ==> !ranks_before(
                    #[trigger] scored_view(out@)[j],
                    #[trigger] scored_view(out@)[i],
                ),
            forall|k: int, i: int|
                0 <= k < rest@.len() && 0 <= i < out@.len() ==> !ranks_before(
                    #[trigger] scored_view(rest@)[k],
                    #[trigger] scored_view(out@)[i],
                ),
        decreases rest@.len(),
    {
        let b = best_of(&rest);
        let ghost ov = scored_view(out@);
        let ghost rv = scored_view(rest@);
        let item = rest.remove(b);
        out.push(item);
        proof {
            assert(scored_view(rest@) =~= rv.remove(b as int));
            assert(scored_view(out@) =~= ov.push(rv[b as int]));
            assert(all =~= scored_view(out@).to_multiset().add(scored_view(rest@).to_multiset()));
            assert forall|i: int, j: int|
                0 <= i < j < out@.len() implies !ranks_before(
                    #[trigger] scored_view(out@)[j],
                    #[trigger] scored_view(out@)[i],
                ) by {
                if j == out@.len() - 1 {
                    assert(scored_view(out@)[i] == ov[i]);
                }
            }
            assert forall|k: int, i: int|
                0 <= k < rest@.len() && 0 <= i < out@.len() implies !ranks_before(
                    #[trigger] scored_view(rest@)[k],
                    #[trigger] scored_view(out@)[i],
                ) by {
                let kk = if k < b { k } else { k + 1 };
                assert(scored_view(rest@)[k] == rv[kk]);
                if i < ov.len() {
                    assert(scored_view(out@)[i] == ov[i]);
                }
            }
        }
    }
    proof {
        let ov = scored_view(out@);
        let rv = scored_view(rest@);
        assert forall|x: (Seq<char>, u64), i: int|
            all.count(x) > ov.to_multiset().count(x) && 0 <= i < out@.len() implies !#[trigger] ranks_before(
                x,
                scored_view(out@)[i],
            ) by {
            assert(rv.to_multiset().count(x) > 0);
            assert(rv.contains(x));
            let k = choose|k: int| 0 <= k < rv.len() && rv[k] == x;
            assert(scored_view(rest@)[k] == x);
        }
    }
    out
}

} // verus!
