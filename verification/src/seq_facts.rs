//! General facts about filtered sequences, used to pin query results
//! down to canonical filtered listings of the record store.
use vstd::prelude::*;

verus! {

/// The sequence `0, 1, ..., n - 1` of record identifiers.
pub open spec fn ids_upto(n: nat) -> Seq<usize> {
    Seq::new(n, |i: int| i as usize)
}

/// The function resolving an identifier against a sequence.
pub open spec fn elem_at<A>(s: Seq<A>) -> spec_fn(usize) -> A {
    |id: usize| s[id as int]
}

/// A predicate on elements, lifted to a predicate on identifiers.
pub open spec fn lift_pred<A>(s: Seq<A>, rp: spec_fn(A) -> bool) -> spec_fn(usize) -> bool {
    |id: usize| rp(s[id as int])
}

/// Membership in a fixed identifier sequence, as a predicate.
pub open spec fn member_pred(keep: Seq<usize>) -> spec_fn(usize) -> bool {
    |id: usize| keep.contains(id)
}

/// Resolving `0, ..., len - 1` against a sequence gives the sequence.
pub proof fn lemma_ids_upto_map<A>(s: Seq<A>)
    requires
        s.len() <= usize::MAX,
    ensures
        ids_upto(s.len()).map_values(elem_at(s)) == s,
{
    assert forall|i: int| 0 <= i < s.len() implies ids_upto(s.len()).map_values(elem_at(s))[i]
        == s[i] by {
        assert(ids_upto(s.len())[i] == i as usize);
    }
    assert(ids_upto(s.len()).map_values(elem_at(s)) =~= s);
}

/// An element is in a filtered sequence exactly when it is in the
/// sequence and satisfies the predicate.
pub proof fn lemma_filter_contains_iff<A>(s: Seq<A>, p: spec_fn(A) -> bool, x: A)
    ensures
        s.filter(p).contains(x) <==> s.contains(x) && p(x),
    decreases s.len(),
{
    reveal(Seq::filter);
    if s.len() == 0 {
    } else {
        lemma_filter_contains_iff(s.drop_last(), p, x);
        if s.contains(x) && p(x) {
            if x == s.last() {
                assert(s.filter(p).last() == x);
                assert(s.filter(p).contains(x));
            } else {
                let i = choose|i: int| 0 <= i < s.len() && s[i] == x;
                assert(s.drop_last()[i] == x);
                assert(s.drop_last().contains(x));
                assert(s.drop_last().filter(p).contains(x));
                let j = choose|j: int| 0 <= j < s.drop_last().filter(p).len() && s.drop_last().filter(
                    p,
                )[j] == x;
                assert(s.filter(p)[j] == x);
            }
        }
        if s.filter(p).contains(x) {
            let j = choose|j: int| 0 <= j < s.filter(p).len() && s.filter(p)[j] == x;
            if p(s.last()) && j == s.filter(p).len() - 1 {
                assert(x == s.last());
                assert(s[s.len() - 1] == x);
            } else {
                assert(s.drop_last().filter(p)[j] == x);
                assert(s.drop_last().filter(p).contains(x));
                let i = choose|i: int|
                    0 <= i < s.drop_last().len() && s.drop_last()[i] == x;
                assert(s[i] == x);
            }
        }
    }
}



/// A strictly increasing identifier sequence whose membership is exactly
/// `id < n && p(id)` is the filtered listing of `0, ..., n - 1`.
pub proof fn lemma_canonical_listing(s: Seq<usize>, n: nat, p: spec_fn(usize) -> bool)
    requires
        n <= usize::MAX + 1,
        forall|a: int, b: int| 0 <= a < b < s.len() ==> #[trigger] s[a] < #[trigger] s[b],
        forall|id: usize| s.contains(id) <==> (id < n && p(id)),
    ensures
        s == ids_upto(n).filter(p),
    decreases n,
{
    reveal(Seq::filter);
    if n == 0 {
        if s.len() > 0 {
            assert(s.contains(s[0]));
            assert(false);
        }
        assert(ids_upto(0).filter(p) =~= Seq::<usize>::empty());
        assert(s =~= ids_upto(0).filter(p));
    } else {
        let m = (n - 1) as nat;
        let top = (n - 1) as usize;
        assert(ids_upto(n).drop_last() =~= ids_upto(m));
        assert(ids_upto(n).last() == top);
        if p(top) {
            assert(s.contains(top));
            let k = choose|k: int| 0 <= k < s.len() && s[k] == top;
            if k < s.len() - 1 {
                assert(s[k] < s[s.len() - 1]);
                assert(s.contains(s[s.len() - 1]));
                assert(false);
            }
            let d = s.drop_last();
            assert(forall|a: int, b: int|
                0 <= a < b < d.len() ==> #[trigger] d[a] < #[trigger] d[b]) by {
                assert(forall|a: int| 0 <= a < d.len() ==> d[a] == s[a]);
            }
            assert(forall|id: usize| d.contains(id) <==> (id < m && p(id))) by {
                assert forall|id: usize| d.contains(id) implies (id < m && p(id)) by {
                    let i = choose|i: int| 0 <= i < d.len() && d[i] == id;
                    assert(s[i] == id);
                    assert(s.contains(id));
                    assert(s[i] < s[s.len() - 1]);
                }
                assert forall|id: usize| id < m && p(id) implies d.contains(id) by {
                    assert(s.contains(id));
                    let i = choose|i: int| 0 <= i < s.len() && s[i] == id;
                    if i == s.len() - 1 {
                        assert(id == top);
                        assert(false);
                    }
                    assert(d[i] == id);
                }
            }
            lemma_canonical_listing(d, m, p);
            assert(s =~= d.push(top));
            assert(s == ids_upto(n).filter(p));
        } else {
            assert(forall|id: usize| s.contains(id) <==> (id < m && p(id))) by {
                assert forall|id: usize| s.contains(id) implies (id < m && p(id)) by {
                    if id == top {
                        assert(false);
                    }
                }
            }
            lemma_canonical_listing(s, m, p);
        }
    }
}

/// Filtering the identifiers below `m` by a lifted predicate and
/// resolving them against the sequence is the same as filtering the
/// first `m` elements of the sequence itself.
pub proof fn lemma_ids_filter_map<A>(s: Seq<A>, m: nat, rp: spec_fn(A) -> bool)
    requires
        m <= s.len(),
        s.len() <= usize::MAX,
    ensures
        ids_upto(m).filter(lift_pred(s, rp)).map_values(elem_at(s)) == s.take(m as int).filter(rp),
    decreases m,
{
    reveal(Seq::filter);
    let p = lift_pred(s, rp);
    let f = elem_at(s);
    if m == 0 {
        assert(ids_upto(0).filter(p) =~= Seq::<usize>::empty());
        assert(s.take(0).filter(rp) =~= Seq::<A>::empty());
        assert(ids_upto(m).filter(p).map_values(f) =~= s.take(m as int).filter(rp));
    } else {
        let k = (m - 1) as nat;
        let top = (m - 1) as usize;
        lemma_ids_filter_map(s, k, rp);
        assert(ids_upto(m).drop_last() =~= ids_upto(k));
        assert(ids_upto(m).last() == top);
        assert(s.take(m as int).drop_last() =~= s.take(k as int));
        assert(s.take(m as int).last() == s[m - 1]);
        assert(p(top) == rp(s[m - 1]));
        if p(top) {
            assert(ids_upto(m).filter(p) == ids_upto(k).filter(p).push(top));
            assert(ids_upto(m).filter(p).map_values(f) =~= ids_upto(k).filter(p).map_values(
                f,
            ).push(s[m - 1]));
            assert(s.take(m as int).filter(rp) == s.take(k as int).filter(rp).push(s[m - 1]));
        } else {
            assert(ids_upto(m).filter(p) == ids_upto(k).filter(p));
            assert(s.take(m as int).filter(rp) == s.take(k as int).filter(rp));
        }
    }
}


} // verus!
