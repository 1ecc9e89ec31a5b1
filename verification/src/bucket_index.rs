//! A flat secondary index: a sequence of `(key, identifier)` entries kept
//! sorted by key and then by identifier. Exact-match and inclusive range
//! scans walk the entries in order, so results come grouped by ascending
//! key with identifiers in insertion order inside each key.
use vstd::prelude::*;

verus! {

/// Strict order on entries: by key, then by identifier.
pub open spec fn entry_lt(a: (i64, usize), b: (i64, usize)) -> bool {
    a.0 < b.0 || (a.0 == b.0 && a.1 < b.1)
}

/// The identifiers of the entries of `s` whose key lies in `[lo, hi]`,
/// in entry order.
pub open spec fn range_ids_of(s: Seq<(i64, usize)>, lo: int, hi: int) -> Seq<usize>
    decreases s.len(),
{
    if s.len() == 0 {
        Seq::empty()
    } else {
        let rest = range_ids_of(s.drop_last(), lo, hi);
        if lo <= s.last().0 <= hi {
            rest.push(s.last().1)
        } else {
            rest
        }
    }
}

/// An index over `i64` keys mapping to record identifiers.
pub struct BucketIndex {
    entries: Vec<(i64, usize)>,
}

impl BucketIndex {
    /// The entries, in order.
    pub closed spec fn entries_seq(self) -> Seq<(i64, usize)> {
        self.entries@
    }

    /// Entries are strictly sorted by `(key, identifier)`.
    pub closed spec fn wf(self) -> bool {
        forall|i: int, j: int|
            0 <= i < j < self.entries@.len() ==> entry_lt(
                #[trigger] self.entries@[i],
                #[trigger] self.entries@[j],
            )
    }

    /// The identifiers whose key lies in `[lo, hi]`, in entry order.
    pub open spec fn range_ids(self, lo: int, hi: int) -> Seq<usize> {
        range_ids_of(self.entries_seq(), lo, hi)
    }

    pub fn new() -> (r: Self)
        ensures
            r.wf(),
            r.entries_seq() == Seq::<(i64, usize)>::empty(),
    {
        BucketIndex { entries: Vec::new() }
    }

    /// Adds an entry whose identifier is larger than every identifier
    /// already present, keeping the entries sorted.
    pub fn add_entry(&mut self, key: i64, id: usize)
        requires
            old(self).wf(),
            forall|j: int|
                0 <= j < old(self).entries_seq().len() ==> (
                #[trigger] old(self).entries_seq()[j]).1 < id,
        ensures
            final(self).wf(),
            forall|e: (i64, usize)|
                final(self).entries_seq().contains(e) <==> (old(self).entries_seq().contains(e)
                    || e == (key, id)),
    {
        let ghost orig = self.entries@;
        let mut pos: usize = 0;
        while pos < self.entries.len() && self.entries[pos].0 <= key
            invariant
                pos <= self.entries@.len(),
                forall|j: int| 0 <= j < pos ==> (#[trigger] self.entries@[j]).0 <= key,
                self.entries@ == orig,
            decreases self.entries@.len() - pos,
        {
            pos += 1;
        }
        self.entries.insert(pos, (key, id));
        proof {
            let upd = self.entries@;
            assert(forall|j: int| 0 <= j < pos ==> upd[j] == orig[j]);
            assert(forall|j: int| pos < j < upd.len() ==> upd[j] == orig[j - 1]);
            assert(upd[pos as int] == (key, id));
            assert forall|i: int, j: int| 0 <= i < j < upd.len() implies entry_lt(
                #[trigger] upd[i],
                #[trigger] upd[j],
            ) by {
                if i == pos {
                    assert(orig[j - 1].0 > key);
                } else if j == pos {
                    assert(orig[i].0 <= key);
                    assert((old(self).entries_seq()[i]).1 < id);
                }
            }
            assert forall|e: (i64, usize)| upd.contains(e) implies (orig.contains(e) || e == (
                key,
                id,
            )) by {
                let k = choose|k: int| 0 <= k < upd.len() && upd[k] == e;
                if k < pos {
                    assert(orig[k] == e);
                } else if k > pos {
                    assert(orig[k - 1] == e);
                }
            }
            assert forall|e: (i64, usize)| orig.contains(e) implies upd.contains(e) by {
                let k = choose|k: int| 0 <= k < orig.len() && orig[k] == e;
                if k < pos {
                    assert(upd[k] == e);
                } else {
                    assert(upd[k + 1] == e);
                }
            }
            assert(upd.contains((key, id)));
        }
    }

    /// Collects the identifiers whose key lies in `[lo, hi]`, grouped by
    /// ascending key and, inside a key, in insertion order.
    pub fn ids_in_range(&self, lo: i64, hi: i64) -> (r: Vec<usize>)
        ensures
            r@ == self.range_ids(lo as int, hi as int),
    {
        let mut r: Vec<usize> = Vec::new();
        let mut i: usize = 0;
        while i < self.entries.len()
            invariant
                i <= self.entries@.len(),
                r@ == range_ids_of(self.entries@.take(i as int), lo as int, hi as int),
            decreases self.entries@.len() - i,
        {
            let e = self.entries[i];
            proof {
                assert(self.entries@.take(i + 1).drop_last() =~= self.entries@.take(i as int));
                assert(self.entries@.take(i + 1).last() == e);
            }
            if lo <= e.0 && e.0 <= hi {
                r.push(e.1);
            }
            i += 1;
        }
        proof {
            assert(self.entries@.take(self.entries@.len() as int) =~= self.entries@);
        }
        r
    }
}

impl BucketIndex {
    /// The distinct keys present, in ascending order.
    pub fn distinct_keys(&self) -> (r: Vec<i64>)
        requires
            self.wf(),
        ensures
            forall|a: int, b: int| 0 <= a < b < r@.len() ==> #[trigger] r@[a] < #[trigger] r@[b],
            forall|k: i64|
                r@.contains(k) <==> exists|e: (i64, usize)|
                    #[trigger] self.entries_seq().contains(e) && e.0 == k,
    {
        let mut r: Vec<i64> = Vec::new();
        let mut i: usize = 0;
        while i < self.entries.len()
            invariant
                self.wf(),
                i <= self.entries@.len(),
                forall|a: int, b: int| 0 <= a < b < r@.len() ==> #[trigger] r@[a] < #[trigger] r@[b],
                forall|k: i64|
                    r@.contains(k) <==> exists|j: int|
                        0 <= j < i && (#[trigger] self.entries@[j]).0 == k,
                r@.len() > 0 <==> i > 0,
                i > 0 ==> r@.len() > 0 && r@[r@.len() - 1] == self.entries@[i - 1].0,
            decreases self.entries@.len() - i,
        {
            let e = self.entries[i];
            let ghost r0 = r@;
            if r.len() == 0 || r[r.len() - 1] < e.0 {
                r.push(e.0);
                proof {
                    assert forall|a: int, b: int| 0 <= a < b < r@.len() implies #[trigger] r@[a]
                        < #[trigger] r@[b] by {
                        if b == r@.len() - 1 && r0.len() > 0 {
                            assert(r0[a] <= r0[r0.len() - 1]) by {
                                if a < r0.len() - 1 {
                                    assert(r0[a] < r0[r0.len() - 1]);
                                }
                            }
                        }
                    }
                    assert forall|k: i64| r@.contains(k) <==> exists|j: int|
                        0 <= j < i + 1 && (#[trigger] self.entries@[j]).0 == k by {
                        if r@.contains(k) {
                            let a = choose|a: int| 0 <= a < r@.len() && r@[a] == k;
                            if a < r0.len() {
                                assert(r0[a] == k);
                                assert(r0.contains(k));
                            } else {
                                assert(self.entries@[i as int].0 == k);
                            }
                        }
                        if exists|j: int| 0 <= j < i + 1 && (#[trigger] self.entries@[j]).0 == k {
                            let j = choose|j: int|
                                0 <= j < i + 1 && (#[trigger] self.entries@[j]).0 == k;
                            if j < i {
                                assert(r0.contains(k));
                                let a = choose|a: int| 0 <= a < r0.len() && r0[a] == k;
                                assert(r@[a] == k);
                            } else {
                                assert(r@[r@.len() - 1] == k);
                            }
                        }
                    }
                }
            } else {
                proof {
                    if i > 0 {
                        assert(entry_lt(self.entries@[i - 1], self.entries@[i as int]));
                    }
                    assert(r0[r0.len() - 1] == e.0);
                    assert forall|k: i64| r@.contains(k) <==> exists|j: int|
                        0 <= j < i + 1 && (#[trigger] self.entries@[j]).0 == k by {
                        if exists|j: int| 0 <= j < i + 1 && (#[trigger] self.entries@[j]).0 == k {
                            let j = choose|j: int|
                                0 <= j < i + 1 && (#[trigger] self.entries@[j]).0 == k;
                            if j == i {
                                assert(r@[r@.len() - 1] == k);
                            }
                        }
                    }
                }
            }
            i += 1;
        }
        proof {
            assert forall|k: i64| r@.contains(k) <==> exists|e: (i64, usize)|
                #[trigger] self.entries_seq().contains(e) && e.0 == k by {
                if exists|j: int|
                    0 <= j < self.entries@.len() && (#[trigger] self.entries@[j]).0 == k {
                    let j = choose|j: int|
                        0 <= j < self.entries@.len() && (#[trigger] self.entries@[j]).0 == k;
                    assert(self.entries_seq().contains(self.entries@[j]));
                }
                if exists|e: (i64, usize)| #[trigger] self.entries_seq().contains(e) && e.0 == k {
                    let e = choose|e: (i64, usize)|
                        #[trigger] self.entries_seq().contains(e) && e.0 == k;
                    let j = choose|j: int| 0 <= j < self.entries@.len() && self.entries@[j] == e;
                    assert((self.entries@[j]).0 == k);
                }
            }
        }
        r
    }
}

/// Range listings of a well-formed index keep the entry order, stated
/// over the index itself.
pub proof fn lemma_index_sorted(idx: BucketIndex, lo: int, hi: int, kf: spec_fn(usize) -> int)
    requires
        idx.wf(),
        forall|e: (i64, usize)| #[trigger] idx.entries_seq().contains(e) ==> e.0 as int == kf(e.1),
    ensures
        forall|a: int, b: int|
            0 <= a < b < idx.range_ids(lo, hi).len() ==> (kf(
                #[trigger] idx.range_ids(lo, hi)[a],
            ) < kf(#[trigger] idx.range_ids(lo, hi)[b]) || (kf(idx.range_ids(lo, hi)[a]) == kf(
                idx.range_ids(lo, hi)[b],
            ) && idx.range_ids(lo, hi)[a] < idx.range_ids(lo, hi)[b])),
{
    lemma_range_ids_sorted(idx.entries_seq(), lo, hi, kf);
}

/// An empty range lists nothing.
pub proof fn lemma_range_ids_empty(s: Seq<(i64, usize)>, lo: int, hi: int)
    requires
        lo > hi,
    ensures
        range_ids_of(s, lo, hi) == Seq::<usize>::empty(),
    decreases s.len(),
{
    if s.len() == 0 {
    } else {
        lemma_range_ids_empty(s.drop_last(), lo, hi);
    }
}

/// An identifier is listed for `[lo, hi]` exactly when one of the entries
/// files it under a key in the range.
pub proof fn lemma_range_ids_member(s: Seq<(i64, usize)>, lo: int, hi: int, id: usize)
    ensures
        range_ids_of(s, lo, hi).contains(id) <==> exists|e: (i64, usize)|
            #[trigger] s.contains(e) && e.1 == id && lo <= e.0 <= hi,
    decreases s.len(),
{
    if s.len() == 0 {
    } else {
        let d = s.drop_last();
        let rest = range_ids_of(d, lo, hi);
        let r = range_ids_of(s, lo, hi);
        lemma_range_ids_member(d, lo, hi, id);
        if r.contains(id) {
            let j = choose|j: int| 0 <= j < r.len() && r[j] == id;
            if lo <= s.last().0 <= hi && j == r.len() - 1 {
                assert(s.contains(s.last())) by {
                    assert(s[s.len() - 1] == s.last());
                }
                assert(s.contains(s.last()) && s.last().1 == id && lo <= s.last().0 <= hi);
            } else {
                assert(rest[j] == id);
                assert(rest.contains(id));
                let e = choose|e: (i64, usize)| #[trigger] d.contains(e) && e.1 == id && lo <= e.0
                    <= hi;
                let k = choose|k: int| 0 <= k < d.len() && d[k] == e;
                assert(s[k] == e);
                assert(s.contains(e) && e.1 == id && lo <= e.0 <= hi);
            }
        }
        if exists|e: (i64, usize)| #[trigger] s.contains(e) && e.1 == id && lo <= e.0 <= hi {
            let e = choose|e: (i64, usize)| #[trigger] s.contains(e) && e.1 == id && lo <= e.0
                <= hi;
            let k = choose|k: int| 0 <= k < s.len() && s[k] == e;
            if k == s.len() - 1 {
                assert(r[r.len() - 1] == id);
                assert(r.contains(id));
            } else {
                assert(d[k] == e);
                assert(d.contains(e));
                assert(rest.contains(id));
                let j = choose|j: int| 0 <= j < rest.len() && rest[j] == id;
                assert(r[j] == id);
                assert(r.contains(id));
            }
        }
    }
}

/// Range listings of a well-formed index keep the entry order: keys come
/// ascending, and identifiers ascend inside a key. `kf` gives the key
/// under which each identifier is filed.
pub proof fn lemma_range_ids_sorted(
    s: Seq<(i64, usize)>,
    lo: int,
    hi: int,
    kf: spec_fn(usize) -> int,
)
    requires
        forall|i: int, j: int| 0 <= i < j < s.len() ==> entry_lt(#[trigger] s[i], #[trigger] s[j]),
        forall|e: (i64, usize)| #[trigger] s.contains(e) ==> e.0 == kf(e.1),
    ensures
        forall|a: int, b: int|
            0 <= a < b < range_ids_of(s, lo, hi).len() ==> (kf(
                #[trigger] range_ids_of(s, lo, hi)[a],
            ) < kf(#[trigger] range_ids_of(s, lo, hi)[b]) || (kf(range_ids_of(s, lo, hi)[a]) == kf(
                range_ids_of(s, lo, hi)[b],
            ) && range_ids_of(s, lo, hi)[a] < range_ids_of(s, lo, hi)[b])),
    decreases s.len(),
{
    if s.len() == 0 {
    } else {
        let d = s.drop_last();
        let rest = range_ids_of(d, lo, hi);
        let r = range_ids_of(s, lo, hi);
        assert(forall|i: int, j: int|
            0 <= i < j < d.len() ==> entry_lt(#[trigger] d[i], #[trigger] d[j])) by {
            assert(forall|i: int| 0 <= i < d.len() ==> d[i] == s[i]);
        }
        assert forall|e: (i64, usize)| #[trigger] d.contains(e) implies e.0 == kf(e.1) by {
            let k = choose|k: int| 0 <= k < d.len() && d[k] == e;
            assert(s[k] == e);
            assert(s.contains(e));
        }
        lemma_range_ids_sorted(d, lo, hi, kf);
        assert forall|a: int, b: int| 0 <= a < b < r.len() implies (kf(#[trigger] r[a]) < kf(
            #[trigger] r[b],
        ) || (kf(r[a]) == kf(r[b]) && r[a] < r[b])) by {
            if lo <= s.last().0 <= hi && b == r.len() - 1 {
                assert(r[b] == s.last().1);
                assert(r[a] == rest[a]);
                assert(rest.contains(rest[a]));
                lemma_range_ids_member(d, lo, hi, rest[a]);
                let e = choose|e: (i64, usize)| #[trigger] d.contains(e) && e.1 == rest[a] && lo
                    <= e.0 <= hi;
                let k = choose|k: int| 0 <= k < d.len() && d[k] == e;
                assert(s[k] == e);
                assert(s.contains(e));
                assert(entry_lt(s[k], s[s.len() - 1]));
                assert(s.contains(s[s.len() - 1]));
                assert(kf(r[a]) == e.0 && kf(r[b]) == s.last().0);
            } else {
                assert(r[a] == rest[a] && r[b] == rest[b]);
            }
        }
    }
}

} // verus!
