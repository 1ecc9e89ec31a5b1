//! The observation store: an append-only record sequence with four
//! synchronized secondary indices, and the query layer over them.
//! A record's identifier is its position in insertion order; every index
//! holds identifiers only, and every query reads the indices without
//! changing them, so a query's result is a function of the store alone.
use crate::bucket_index::{lemma_index_sorted, lemma_range_ids_member, BucketIndex};
use crate::geomath::{
    deg_of_radius, deg_of_radius_x, hav_dist, haversine_m, lemma_deg_monotone, sat_add_i64,
    sat_sub_i64,
};
use crate::obs::{
    lemma_mac_key_injective, lemma_mac_key_lex, mac_key, mac_lex_lt, pack_mac, unpack_mac,
    BleObservation,
};
use crate::polygon::{
    lemma_bounds_ordered, max_lat_of, max_lon_of, min_lat_of, min_lon_of, pip, point_in_polygon, vertex_bounds,
};
use crate::seq_facts::{
    elem_at, ids_upto, lemma_canonical_listing, lemma_filter_contains_iff, lemma_ids_filter_map,
    lemma_ids_upto_map, lift_pred, member_pred,
};
use crate::spatial::{
    geo_insert, geo_locate, geo_new, grid_of_x, grid_val, in_corner_box,
    lemma_grid_monotone, GeoIndex,
};
use vstd::prelude::*;

verus! {

/// Some listed address equals `m`.
pub open spec fn mac_listed(r: Seq<[u8; 6]>, m: Seq<u8>) -> bool {
    exists|i: int| 0 <= i < r.len() && (#[trigger] r[i])@ == m
}

/// Some stored record carries the address `m`.
pub open spec fn mac_present(recs: Seq<BleObservation>, m: Seq<u8>) -> bool {
    exists|id: int| 0 <= id < recs.len() && (#[trigger] recs[id]).mac@ == m
}

/// Records whose hardware address equals `m`.
pub open spec fn mac_rec_pred(m: Seq<u8>) -> spec_fn(BleObservation) -> bool {
    |r: BleObservation| r.mac@ == m
}

/// Records whose signal strength lies in `[lo, hi]`.
pub open spec fn rssi_rec_pred(lo: int, hi: int) -> spec_fn(BleObservation) -> bool {
    |r: BleObservation| lo <= r.rssi <= hi
}

/// Records whose timestamp lies in `[lo, hi]`.
pub open spec fn time_rec_pred(lo: int, hi: int) -> spec_fn(BleObservation) -> bool {
    |r: BleObservation| lo <= r.timestamp <= hi
}

/// Records inside the square envelope of the radius query and within
/// `radius` meters of its center by the haversine distance.
pub open spec fn radius_rec_pred(lat: int, lon: int, radius: int) -> spec_fn(BleObservation) -> bool {
    |r: BleObservation| {
        let d = deg_of_radius(radius);
        lat - d <= r.lat_e7 <= lat + d && lon - d <= r.lon_e7 <= lon + d && hav_dist(
            lat,
            lon,
            r.lat_e7 as int,
            r.lon_e7 as int,
        ) <= radius
    }
}

/// Records inside the box spanned by the two corners.
pub open spec fn bbox_rec_pred(a_lat: i64, a_lon: i64, b_lat: i64, b_lon: i64) -> spec_fn(
    BleObservation,
) -> bool {
    |r: BleObservation| in_corner_box((r.lat_e7, r.lon_e7), a_lat, a_lon, b_lat, b_lon)
}

/// Records inside the vertices' bounding box and inside the polygon by
/// the ray-casting test.
pub open spec fn poly_rec_pred(poly: Seq<(i64, i64)>) -> spec_fn(BleObservation) -> bool {
    |r: BleObservation| {
        min_lat_of(poly) <= r.lat_e7 <= max_lat_of(poly) && min_lon_of(poly) <= r.lon_e7
            <= max_lon_of(poly) && pip(r.lat_e7 as int, r.lon_e7 as int, poly)
    }
}

/// The key under which a record's identifier is filed in one index.
pub open spec fn stored_key(recs: Seq<BleObservation>, kf: spec_fn(BleObservation) -> int) -> spec_fn(
    usize,
) -> int {
    |id: usize| if id < recs.len() {
        kf(recs[id as int])
    } else {
        0
    }
}

/// A record's address key.
pub open spec fn mac_key_of() -> spec_fn(BleObservation) -> int {
    |r: BleObservation| mac_key(r.mac@)
}

/// A record's signal-strength key.
pub open spec fn rssi_key_of() -> spec_fn(BleObservation) -> int {
    |r: BleObservation| r.rssi as int
}

/// A record's timestamp key.
pub open spec fn time_key_of() -> spec_fn(BleObservation) -> int {
    |r: BleObservation| r.timestamp as int
}

/// A flat index is consistent with the record store: every entry files
/// an existing identifier under that record's own key, every identifier
/// is filed, and the entries are sorted.
pub open spec fn index_consistent(
    idx: BucketIndex,
    recs: Seq<BleObservation>,
    kf: spec_fn(BleObservation) -> int,
) -> bool {
    &&& idx.wf()
    &&& forall|e: (i64, usize)|
        #[trigger] idx.entries_seq().contains(e) ==> e.1 < recs.len() && e.0 as int == kf(
            recs[e.1 as int],
        )
    &&& forall|id: int|
        0 <= id < recs.len() ==> idx.entries_seq().contains(
            (#[trigger] kf(recs[id]) as i64, id as usize),
        )
}

/// The multi-dimensional store of observation records.
pub struct BleCube {
    records: Vec<BleObservation>,
    mac_index: BucketIndex,
    rssi_index: BucketIndex,
    time_index: BucketIndex,
    geo_index: GeoIndex,
}

impl BleCube {
    /// The records, in insertion order; a record's identifier is its
    /// position here.
    pub closed spec fn records_seq(self) -> Seq<BleObservation> {
        self.records@
    }

    /// All indices agree with the record store, and every key fits the
    /// index's key type.
    pub closed spec fn wf(self) -> bool {
        &&& index_consistent(self.mac_index, self.records@, mac_key_of())
        &&& index_consistent(self.rssi_index, self.records@, rssi_key_of())
        &&& index_consistent(self.time_index, self.records@, time_key_of())
        &&& forall|id: usize|
            self.geo_index.entries().dom().contains(id) <==> (id as int) < self.records@.len()
        &&& forall|id: usize|
            (id as int) < self.records@.len() ==> #[trigger] self.geo_index.entries()[id] == (
                grid_val(self.records@[id as int].lat_e7),
                grid_val(self.records@[id as int].lon_e7),
            )
        &&& forall|id: int|
            0 <= id < self.records@.len() ==> 0 <= #[trigger] mac_key(self.records@[id].mac@)
                < 0x1_0000_0000_0000
    }

    /// The identifiers filed under signal strengths in `[lo, hi]`.
    pub closed spec fn rssi_listing(self, lo: int, hi: int) -> Seq<usize> {
        self.rssi_index.range_ids(lo, hi)
    }

    /// The identifiers filed under timestamps in `[lo, hi]`.
    pub closed spec fn time_listing(self, lo: int, hi: int) -> Seq<usize> {
        self.time_index.range_ids(lo, hi)
    }

    /// The identifiers filed under the address with key `k`.
    pub closed spec fn mac_listing(self, k: int) -> Seq<usize> {
        self.mac_index.range_ids(k, k)
    }

    /// The identifiers of records matching a radius query, ascending.
    pub closed spec fn radius_listing(self, lat: int, lon: int, radius: int) -> Seq<usize> {
        if radius < 0 {
            Seq::empty()
        } else {
            ids_upto(self.records@.len()).filter(
                lift_pred(self.records@, radius_rec_pred(lat, lon, radius)),
            )
        }
    }

    /// Creates an empty store.
    pub fn new() -> (r: Self)
        ensures
            r.wf(),
            r.records_seq() == Seq::<BleObservation>::empty(),
    {
        BleCube {
            records: Vec::new(),
            mac_index: BucketIndex::new(),
            rssi_index: BucketIndex::new(),
            time_index: BucketIndex::new(),
            geo_index: geo_new(),
        }
    }

    /// Creates an empty store, preallocating room for the records. The
    /// capacity hint has no effect on behaviour.
    pub fn with_capacity(capacity: usize) -> (r: Self)
        ensures
            r.wf(),
            r.records_seq() == Seq::<BleObservation>::empty(),
    {
        BleCube {
            records: Vec::with_capacity(capacity),
            mac_index: BucketIndex::new(),
            rssi_index: BucketIndex::new(),
            time_index: BucketIndex::new(),
            geo_index: geo_new(),
        }
    }

    /// Appends an observation and threads its new identifier into all
    /// four indices. Identifiers are assigned `0, 1, 2, ...` in
    /// insertion order.
    pub fn insert(&mut self, obs: BleObservation) -> (id: usize)
        requires
            old(self).wf(),
        ensures
            final(self).wf(),
            final(self).records_seq() == old(self).records_seq().push(obs),
            id as int == old(self).records_seq().len(),
    {
        let ghost orig = self.records@;
        let ghost mac0 = self.mac_index;
        let ghost rssi0 = self.rssi_index;
        let ghost time0 = self.time_index;
        let id = self.records.len();
        self.records.push(obs);
        let k = pack_mac(&obs.mac);
        proof {
            assert forall|j: int| 0 <= j < self.mac_index.entries_seq().len() implies (
            #[trigger] self.mac_index.entries_seq()[j]).1 < id by {
                let e = self.mac_index.entries_seq()[j];
                assert(self.mac_index.entries_seq().contains(e));
            }
        }
        self.mac_index.add_entry(k, id);
        proof {
            assert forall|j: int| 0 <= j < self.rssi_index.entries_seq().len() implies (
            #[trigger] self.rssi_index.entries_seq()[j]).1 < id by {
                let e = self.rssi_index.entries_seq()[j];
                assert(self.rssi_index.entries_seq().contains(e));
            }
        }
        self.rssi_index.add_entry(obs.rssi as i64, id);
        proof {
            assert forall|j: int| 0 <= j < self.time_index.entries_seq().len() implies (
            #[trigger] self.time_index.entries_seq()[j]).1 < id by {
                let e = self.time_index.entries_seq()[j];
                assert(self.time_index.entries_seq().contains(e));
            }
        }
        self.time_index.add_entry(obs.timestamp, id);
        proof {
            assert(!self.geo_index.entries().dom().contains(id));
        }
        geo_insert(&mut self.geo_index, grid_of_x(obs.lat_e7), grid_of_x(obs.lon_e7), id);
        proof {
            let recs = self.records@;
            assert(recs == orig.push(obs));
            assert(forall|j: int| 0 <= j < orig.len() ==> recs[j] == orig[j]);
            assert(recs[id as int] == obs);
            lemma_consistent_after_push(mac0, self.mac_index, orig, obs, mac_key_of(), k, id);
            lemma_consistent_after_push(
                rssi0,
                self.rssi_index,
                orig,
                obs,
                rssi_key_of(),
                obs.rssi as i64,
                id,
            );
            lemma_consistent_after_push(
                time0,
                self.time_index,
                orig,
                obs,
                time_key_of(),
                obs.timestamp,
                id,
            );
            assert forall|q: usize| self.geo_index.entries().dom().contains(q) <==> (q as int)
                < recs.len() by {
                if q != id {
                    assert((q as int) < orig.len() <==> (q as int) < recs.len());
                }
            }
            assert(forall|q: usize|
                (q as int) < recs.len() ==> #[trigger] self.geo_index.entries()[q] == (
                grid_val(recs[q as int].lat_e7),
                grid_val(recs[q as int].lon_e7),
                ));
        }
        id
    }

    /// Returns the record with the given identifier, or nothing when the
    /// identifier is out of range.
    pub fn get(&self, record_id: usize) -> (r: Option<BleObservation>)
        ensures
            r == if (record_id as int) < self.records_seq().len() {
                Some(self.records_seq()[record_id as int])
            } else {
                None::<BleObservation>
            },
    {
        if record_id < self.records.len() {
            Some(self.records[record_id])
        } else {
            None
        }
    }

    /// The number of records stored.
    pub fn len(&self) -> (r: usize)
        ensures
            r as int == self.records_seq().len(),
    {
        self.records.len()
    }

    /// Whether no record has been stored yet.
    pub fn is_empty(&self) -> (r: bool)
        ensures
            r == (self.records_seq().len() == 0),
    {
        self.records.len() == 0
    }
}

/// Appending a record and filing its identifier keeps an index
/// consistent with the store.
proof fn lemma_consistent_after_push(
    pre: BucketIndex,
    post: BucketIndex,
    orig: Seq<BleObservation>,
    obs: BleObservation,
    kf: spec_fn(BleObservation) -> int,
    key: i64,
    id: usize,
)
    requires
        index_consistent(pre, orig, kf),
        post.wf(),
        id as int == orig.len(),
        key as int == kf(obs),
        forall|e: (i64, usize)|
            #[trigger] post.entries_seq().contains(e) <==> (pre.entries_seq().contains(e) || e
                == (key, id)),
    ensures
        index_consistent(post, orig.push(obs), kf),
{
    let recs = orig.push(obs);
    assert forall|e: (i64, usize)| #[trigger] post.entries_seq().contains(e) implies e.1
        < recs.len() && e.0 as int == kf(recs[e.1 as int]) by {
        if pre.entries_seq().contains(e) {
            assert(recs[e.1 as int] == orig[e.1 as int]);
        } else {
            assert(e == (key, id));
            assert(recs[id as int] == obs);
        }
    }
    assert forall|q: int| 0 <= q < recs.len() implies post.entries_seq().contains(
        (#[trigger] kf(recs[q]) as i64, q as usize),
    ) by {
        if q < orig.len() {
            assert(recs[q] == orig[q]);
            assert(pre.entries_seq().contains((kf(orig[q]) as i64, q as usize)));
        } else {
            assert(recs[q] == obs);
            assert(kf(recs[q]) as i64 == key);
            assert(post.entries_seq().contains((key, id)));
        }
    }
}


impl BleCube {
    /// Resolves identifiers to their records.
    fn gather(&self, ids: &Vec<usize>) -> (r: Vec<BleObservation>)
        requires
            forall|i: int| 0 <= i < ids@.len() ==> (#[trigger] ids@[i] as int) < self.records@.len(),
        ensures
            r@ == ids@.map_values(elem_at(self.records_seq())),
    {
        let mut r: Vec<BleObservation> = Vec::new();
        let mut i: usize = 0;
        while i < ids.len()
            invariant
                i <= ids@.len(),
                forall|j: int| 0 <= j < ids@.len() ==> (#[trigger] ids@[j] as int) < self.records@.len(),
                r@ == ids@.take(i as int).map_values(elem_at(self.records@)),
            decreases ids@.len() - i,
        {
            let id = ids[i];
            r.push(self.records[id]);
            proof {
                assert(r@ =~= ids@.take(i + 1).map_values(elem_at(self.records@)));
            }
            i += 1;
        }
        proof {
            assert(ids@.take(ids@.len() as int) =~= ids@);
        }
        r
    }

    /// Returns all records whose hardware address equals the key, in
    /// original insertion order.
    pub fn query_mac(&self, mac: &[u8; 6]) -> (r: Vec<BleObservation>)
        requires
            self.wf(),
        ensures
            r@ == self.records_seq().filter(mac_rec_pred(mac@)),
    {
        let k = pack_mac(mac);
        let ids = self.mac_index.ids_in_range(k, k);
        proof {
            lemma_records_len_bound(*self);
            lemma_mac_ids(*self, mac@, k, ids@);
            lemma_ids_filter_map(self.records@, self.records@.len(), mac_rec_pred(mac@));
            assert(self.records@.take(self.records@.len() as int) =~= self.records@);
        }
        self.gather(&ids)
    }

    /// Returns the records with this exact signal strength.
    pub fn query_rssi(&self, rssi: i8) -> (r: Vec<BleObservation>)
        requires
            self.wf(),
        ensures
            r@ == self.rssi_listing(rssi as int, rssi as int).map_values(
                elem_at(self.records_seq()),
            ),
    {
        let ids = self.rssi_index.ids_in_range(rssi as i64, rssi as i64);
        proof {
            lemma_listing_bounded(self.rssi_index, self.records@, rssi_key_of(), rssi as int, rssi as int);
        }
        self.gather(&ids)
    }

    /// Returns the records with signal strength in `[min, max]`, grouped
    /// by ascending strength, insertion order inside a group.
    pub fn query_rssi_range(&self, min: i8, max: i8) -> (r: Vec<BleObservation>)
        requires
            self.wf(),
        ensures
            r@ == self.rssi_listing(min as int, max as int).map_values(
                elem_at(self.records_seq()),
            ),
    {
        let ids = self.rssi_index.ids_in_range(min as i64, max as i64);
        proof {
            lemma_listing_bounded(self.rssi_index, self.records@, rssi_key_of(), min as int, max as int);
        }
        self.gather(&ids)
    }

    /// Returns the records with signal strength strictly above the
    /// threshold; the top of the 8-bit domain has no such records.
    pub fn query_rssi_gt(&self, threshold: i8) -> (r: Vec<BleObservation>)
        requires
            self.wf(),
        ensures
            r@ == self.rssi_listing(threshold as int + 1, i8::MAX as int).map_values(
                elem_at(self.records_seq()),
            ),
    {
        let lo = threshold as i64 + 1;
        let ids = self.rssi_index.ids_in_range(lo, i8::MAX as i64);
        proof {
            lemma_listing_bounded(self.rssi_index, self.records@, rssi_key_of(), lo as int, i8::MAX as int);
        }
        self.gather(&ids)
    }

    /// Returns the records with signal strength at or above the threshold.
    pub fn query_rssi_gte(&self, threshold: i8) -> (r: Vec<BleObservation>)
        requires
            self.wf(),
        ensures
            r@ == self.rssi_listing(threshold as int, i8::MAX as int).map_values(
                elem_at(self.records_seq()),
            ),
    {
        let ids = self.rssi_index.ids_in_range(threshold as i64, i8::MAX as i64);
        proof {
            lemma_listing_bounded(self.rssi_index, self.records@, rssi_key_of(), threshold as int, i8::MAX as int);
        }
        self.gather(&ids)
    }

    /// Returns the records with signal strength strictly below the
    /// threshold; the bottom of the 8-bit domain has no such records.
    pub fn query_rssi_lt(&self, threshold: i8) -> (r: Vec<BleObservation>)
        requires
            self.wf(),
        ensures
            r@ == self.rssi_listing(i8::MIN as int, threshold as int - 1).map_values(
                elem_at(self.records_seq()),
            ),
    {
        let hi = threshold as i64 - 1;
        let ids = self.rssi_index.ids_in_range(i8::MIN as i64, hi);
        proof {
            lemma_listing_bounded(self.rssi_index, self.records@, rssi_key_of(), i8::MIN as int, hi as int);
        }
        self.gather(&ids)
    }

    /// Returns the records with signal strength at or below the threshold.
    pub fn query_rssi_lte(&self, threshold: i8) -> (r: Vec<BleObservation>)
        requires
            self.wf(),
        ensures
            r@ == self.rssi_listing(i8::MIN as int, threshold as int).map_values(
                elem_at(self.records_seq()),
            ),
    {
        let ids = self.rssi_index.ids_in_range(i8::MIN as i64, threshold as i64);
        proof {
            lemma_listing_bounded(self.rssi_index, self.records@, rssi_key_of(), i8::MIN as int, threshold as int);
        }
        self.gather(&ids)
    }

    /// Returns the records with this exact timestamp.
    pub fn query_timestamp(&self, timestamp: i64) -> (r: Vec<BleObservation>)
        requires
            self.wf(),
        ensures
            r@ == self.time_listing(timestamp as int, timestamp as int).map_values(
                elem_at(self.records_seq()),
            ),
    {
        let ids = self.time_index.ids_in_range(timestamp, timestamp);
        proof {
            lemma_listing_bounded(self.time_index, self.records@, time_key_of(), timestamp as int, timestamp as int);
        }
        self.gather(&ids)
    }

    /// Returns the records with timestamp in `[start, end]`, grouped by
    /// ascending timestamp, insertion order inside a group.
    pub fn query_time_range(&self, start: i64, end: i64) -> (r: Vec<BleObservation>)
        requires
            self.wf(),
        ensures
            r@ == self.time_listing(start as int, end as int).map_values(
                elem_at(self.records_seq()),
            ),
    {
        let ids = self.time_index.ids_in_range(start, end);
        proof {
            lemma_listing_bounded(self.time_index, self.records@, time_key_of(), start as int, end as int);
        }
        self.gather(&ids)
    }

    /// Returns the records with timestamp strictly after the given one;
    /// the top of the 64-bit domain has no later timestamp, so the
    /// result there is empty rather than wrapping.
    pub fn query_time_after(&self, timestamp: i64) -> (r: Vec<BleObservation>)
        requires
            self.wf(),
        ensures
            r@ == self.time_listing(timestamp as int + 1, i64::MAX as int).map_values(
                elem_at(self.records_seq()),
            ),
    {
        if timestamp == i64::MAX {
            proof {
                crate::bucket_index::lemma_range_ids_empty(
                    self.time_index.entries_seq(),
                    timestamp as int + 1,
                    i64::MAX as int,
                );
                assert(self.time_listing(timestamp as int + 1, i64::MAX as int).map_values(
                    elem_at(self.records@),
                ) =~= Seq::<BleObservation>::empty());
            }
            Vec::new()
        } else {
            let ids = self.time_index.ids_in_range(timestamp + 1, i64::MAX);
            proof {
                lemma_listing_bounded(self.time_index, self.records@, time_key_of(), timestamp as int + 1, i64::MAX as int);
            }
            self.gather(&ids)
        }
    }

    /// Returns the records with timestamp strictly before the given one;
    /// the bottom of the 64-bit domain has no earlier timestamp.
    pub fn query_time_before(&self, timestamp: i64) -> (r: Vec<BleObservation>)
        requires
            self.wf(),
        ensures
            r@ == self.time_listing(i64::MIN as int, timestamp as int - 1).map_values(
                elem_at(self.records_seq()),
            ),
    {
        if timestamp == i64::MIN {
            proof {
                crate::bucket_index::lemma_range_ids_empty(
                    self.time_index.entries_seq(),
                    i64::MIN as int,
                    timestamp as int - 1,
                );
                assert(self.time_listing(i64::MIN as int, timestamp as int - 1).map_values(
                    elem_at(self.records@),
                ) =~= Seq::<BleObservation>::empty());
            }
            Vec::new()
        } else {
            let ids = self.time_index.ids_in_range(i64::MIN, timestamp - 1);
            proof {
                lemma_listing_bounded(self.time_index, self.records@, time_key_of(), i64::MIN as int, timestamp as int - 1);
            }
            self.gather(&ids)
        }
    }
}

/// A record sequence taken from a vector is no longer than the vector
/// type allows.
proof fn lemma_records_len_bound(c: BleCube)
    ensures
        c.records_seq().len() <= usize::MAX,
{
    vstd::std_specs::vec::axiom_spec_len(&c.records);
}

/// An identifier appears in a range listing exactly when its record's
/// key lies in the range.
proof fn lemma_listing_member_generic(
    idx: BucketIndex,
    recs: Seq<BleObservation>,
    kf: spec_fn(BleObservation) -> int,
    lo: int,
    hi: int,
    id: usize,
)
    requires
        index_consistent(idx, recs, kf),
        forall|q: int|
            0 <= q < recs.len() ==> i64::MIN as int <= #[trigger] kf(recs[q]) <= i64::MAX as int,
    ensures
        idx.range_ids(lo, hi).contains(id) <==> ((id as int) < recs.len() && lo <= kf(
            recs[id as int],
        ) <= hi),
{
    lemma_range_ids_member(idx.entries_seq(), lo, hi, id);
    if idx.range_ids(lo, hi).contains(id) {
        let e = choose|e: (i64, usize)|
            #[trigger] idx.entries_seq().contains(e) && e.1 == id && lo <= e.0 <= hi;
        assert(e.1 < recs.len() && e.0 as int == kf(recs[e.1 as int]));
    }
    if (id as int) < recs.len() && lo <= kf(recs[id as int]) <= hi {
        let e = (kf(recs[id as int]) as i64, id);
        assert(idx.entries_seq().contains(e) && e.1 == id && lo <= e.0 <= hi);
    }
}

/// Every identifier of a range listing is an existing record.
proof fn lemma_listing_bounded(
    idx: BucketIndex,
    recs: Seq<BleObservation>,
    kf: spec_fn(BleObservation) -> int,
    lo: int,
    hi: int,
)
    requires
        index_consistent(idx, recs, kf),
    ensures
        forall|i: int|
            0 <= i < idx.range_ids(lo, hi).len() ==> (#[trigger] idx.range_ids(lo, hi)[i] as int)
                < recs.len(),
{
    assert forall|i: int| 0 <= i < idx.range_ids(lo, hi).len() implies (
    #[trigger] idx.range_ids(lo, hi)[i] as int) < recs.len() by {
        let id = idx.range_ids(lo, hi)[i];
        assert(idx.range_ids(lo, hi).contains(id));
        lemma_range_ids_member(idx.entries_seq(), lo, hi, id);
        let e = choose|e: (i64, usize)|
            #[trigger] idx.entries_seq().contains(e) && e.1 == id && lo <= e.0 <= hi;
        assert(e.1 < recs.len());
    }
}

/// A range listing keeps the entry order: grouped by ascending key,
/// identifiers ascending inside a key.
proof fn lemma_listing_sorted_generic(
    idx: BucketIndex,
    recs: Seq<BleObservation>,
    kf: spec_fn(BleObservation) -> int,
    lo: int,
    hi: int,
)
    requires
        index_consistent(idx, recs, kf),
    ensures
        forall|a: int, b: int|
            0 <= a < b < idx.range_ids(lo, hi).len() ==> {
                let sk = stored_key(recs, kf);
                sk(#[trigger] idx.range_ids(lo, hi)[a]) < sk(#[trigger] idx.range_ids(lo, hi)[b])
                    || (sk(idx.range_ids(lo, hi)[a]) == sk(idx.range_ids(lo, hi)[b])
                    && idx.range_ids(lo, hi)[a] < idx.range_ids(lo, hi)[b])
            },
{
    let sk = stored_key(recs, kf);
    assert forall|e: (i64, usize)| #[trigger] idx.entries_seq().contains(e) implies e.0 as int
        == sk(e.1) by {
        assert(e.1 < recs.len() && e.0 as int == kf(recs[e.1 as int]));
    }
    lemma_index_sorted(idx, lo, hi, sk);
}

/// The listing for an address key is the ascending listing of the
/// identifiers of the records carrying that address.
proof fn lemma_mac_ids(c: BleCube, m: Seq<u8>, k: i64, ids: Seq<usize>)
    requires
        c.wf(),
        m.len() == 6,
        k as int == mac_key(m),
        ids == c.mac_listing(k as int),
    ensures
        ids == ids_upto(c.records_seq().len()).filter(lift_pred(c.records_seq(), mac_rec_pred(m))),
        forall|i: int| 0 <= i < ids.len() ==> (#[trigger] ids[i] as int) < c.records_seq().len(),
{
    let recs = c.records@;
    let n = recs.len();
    let p = lift_pred(recs, mac_rec_pred(m));
    lemma_records_len_bound(c);
    lemma_listing_bounded(c.mac_index, recs, mac_key_of(), k as int, k as int);
    assert forall|id: usize| ids.contains(id) <==> ((id as int) < n && p(id)) by {
        lemma_listing_member_generic(c.mac_index, recs, mac_key_of(), k as int, k as int, id);
        if (id as int) < n {
            if mac_key(recs[id as int].mac@) == mac_key(m) {
                lemma_mac_key_injective(recs[id as int].mac@, m);
                assert(recs[id as int].mac@ =~= m);
            }
            if recs[id as int].mac@ == m {
                assert(mac_key(recs[id as int].mac@) == mac_key(m));
            }
            assert(p(id) == (recs[id as int].mac@ == m));
        }
    }
    lemma_listing_sorted_generic(c.mac_index, recs, mac_key_of(), k as int, k as int);
    let sk = stored_key(recs, mac_key_of());
    assert forall|a: int, b: int| 0 <= a < b < ids.len() implies #[trigger] ids[a]
        < #[trigger] ids[b] by {
        assert(ids.contains(ids[a]) && ids.contains(ids[b]));
        lemma_listing_member_generic(c.mac_index, recs, mac_key_of(), k as int, k as int, ids[a]);
        lemma_listing_member_generic(c.mac_index, recs, mac_key_of(), k as int, k as int, ids[b]);
        assert(sk(ids[a]) == mac_key(recs[ids[a] as int].mac@) && sk(ids[b]) == mac_key(
            recs[ids[b] as int].mac@,
        ));
    }
    lemma_canonical_listing(ids, n, p);
}


/// The identifiers `0, ..., n - 1`.
fn all_ids(n: usize) -> (r: Vec<usize>)
    ensures
        r@ == ids_upto(n as nat),
{
    let mut r: Vec<usize> = Vec::new();
    let mut i: usize = 0;
    while i < n
        invariant
            i <= n,
            r@ == ids_upto(i as nat),
        decreases n - i,
    {
        r.push(i);
        proof {
            assert(r@ =~= ids_upto((i + 1) as nat));
        }
        i += 1;
    }
    r
}

/// Linear membership test on an identifier vector.
fn contains_id(v: &Vec<usize>, x: usize) -> (r: bool)
    ensures
        r == v@.contains(x),
{
    let mut i: usize = 0;
    while i < v.len()
        invariant
            i <= v@.len(),
            forall|j: int| 0 <= j < i ==> v@[j] != x,
        decreases v@.len() - i,
    {
        if v[i] == x {
            return true;
        }
        i += 1;
    }
    proof {
        if v@.contains(x) {
            let j = choose|j: int| 0 <= j < v@.len() && v@[j] == x;
            assert(false);
        }
    }
    false
}

/// Keeps the identifiers that also appear in `keep`, preserving order.
fn retain_members(v: &Vec<usize>, keep: &Vec<usize>) -> (r: Vec<usize>)
    ensures
        r@ == v@.filter(member_pred(keep@)),
{
    proof {
        reveal(Seq::filter);
    }
    let mut r: Vec<usize> = Vec::new();
    let mut i: usize = 0;
    while i < v.len()
        invariant
            i <= v@.len(),
            r@ == v@.take(i as int).filter(member_pred(keep@)),
        decreases v@.len() - i,
    {
        let x = v[i];
        proof {
            reveal(Seq::filter);
            assert(v@.take(i + 1).drop_last() =~= v@.take(i as int));
            assert(v@.take(i + 1).last() == x);
            assert(member_pred(keep@)(x) == keep@.contains(x));
        }
        if contains_id(keep, x) {
            r.push(x);
        }
        i += 1;
    }
    proof {
        assert(v@.take(v@.len() as int) =~= v@);
    }
    r
}

/// Elements of a filtered identifier sequence stay within bounds.
proof fn lemma_filter_ids_bounded(s: Seq<usize>, p: spec_fn(usize) -> bool, n: int)
    requires
        forall|i: int| 0 <= i < s.len() ==> (#[trigger] s[i] as int) < n,
    ensures
        forall|i: int| 0 <= i < s.filter(p).len() ==> (#[trigger] s.filter(p)[i] as int) < n,
{
    assert forall|i: int| 0 <= i < s.filter(p).len() implies (#[trigger] s.filter(p)[i] as int)
        < n by {
        let x = s.filter(p)[i];
        assert(s.filter(p).contains(x));
        lemma_filter_contains_iff(s, p, x);
        let j = choose|j: int| 0 <= j < s.len() && s[j] == x;
    }
}

impl BleCube {
    /// The identifiers of records inside the box spanned by the corners,
    /// ascending.
    pub closed spec fn bbox_listing(self, a_lat: i64, a_lon: i64, b_lat: i64, b_lon: i64) -> Seq<
        usize,
    > {
        ids_upto(self.records@.len()).filter(
            lift_pred(self.records@, bbox_rec_pred(a_lat, a_lon, b_lat, b_lon)),
        )
    }

    /// The identifiers of records inside the polygon, ascending; fewer
    /// than three vertices match nothing.
    pub closed spec fn polygon_listing(self, poly: Seq<(i64, i64)>) -> Seq<usize> {
        if poly.len() < 3 {
            Seq::empty()
        } else {
            ids_upto(self.records@.len()).filter(lift_pred(self.records@, poly_rec_pred(poly)))
        }
    }

    /// The result listing of a conjunctive query: the matching address
    /// bucket (or every identifier), narrowed by each present filter's
    /// own match listing, in identifier order of the base set.
    pub closed spec fn multi_listing(
        self,
        mac: Option<[u8; 6]>,
        rssi_range: Option<(i8, i8)>,
        time_range: Option<(i64, i64)>,
        geo_center: Option<(i64, i64, i64)>,
    ) -> Seq<usize> {
        let base = match mac {
            Some(m) => self.mac_listing(mac_key(m@)),
            None => ids_upto(self.records@.len()),
        };
        let s1 = match rssi_range {
            Some(rg) => base.filter(member_pred(self.rssi_listing(rg.0 as int, rg.1 as int))),
            None => base,
        };
        let s2 = match time_range {
            Some(tg) => s1.filter(member_pred(self.time_listing(tg.0 as int, tg.1 as int))),
            None => s1,
        };
        match geo_center {
            Some(g) => s2.filter(
                member_pred(self.radius_listing(g.0 as int, g.1 as int, g.2 as int)),
            ),
            None => s2,
        }
    }

    /// The identifiers matching a radius query, ascending.
    fn radius_ids(&self, lat: i64, lon: i64, radius_m: i64) -> (r: Vec<usize>)
        requires
            self.wf(),
        ensures
            r@ == self.radius_listing(lat as int, lon as int, radius_m as int),
    {
        if radius_m < 0 {
            return Vec::new();
        }
        let d = deg_of_radius_x(radius_m);
        let lo_lat = sat_sub_i64(lat, d);
        let hi_lat = sat_add_i64(lat, d);
        let lo_lon = sat_sub_i64(lon, d);
        let hi_lon = sat_add_i64(lon, d);
        let g_lo_lat = grid_of_x(lo_lat);
        let g_hi_lat = grid_of_x(hi_lat);
        let g_lo_lon = grid_of_x(lo_lon);
        let g_hi_lon = grid_of_x(hi_lon);
        let cand = geo_locate(&self.geo_index, g_lo_lat, g_lo_lon, g_hi_lat, g_hi_lon);
        let ghost p = lift_pred(self.records@, radius_rec_pred(lat as int, lon as int, radius_m as int));
        proof {
            reveal(Seq::filter);
        }
        let n = self.records.len();
        let mut r: Vec<usize> = Vec::new();
        let mut i: usize = 0;
        while i < n
            invariant
                self.wf(),
                n as int == self.records@.len(),
                radius_m >= 0,
                d as int == deg_of_radius(radius_m as int),
                lo_lat as int == if lat as int - d as int >= i64::MIN as int { lat as int - d as int } else { i64::MIN as int },
                hi_lat as int == if lat as int + d as int <= i64::MAX as int { lat as int + d as int } else { i64::MAX as int },
                lo_lon as int == if lon as int - d as int >= i64::MIN as int { lon as int - d as int } else { i64::MIN as int },
                hi_lon as int == if lon as int + d as int <= i64::MAX as int { lon as int + d as int } else { i64::MAX as int },
                g_lo_lat == grid_val(lo_lat) && g_hi_lat == grid_val(hi_lat),
                g_lo_lon == grid_val(lo_lon) && g_hi_lon == grid_val(hi_lon),
                forall|id: usize|
                    #[trigger] cand@.contains(id) <==> (self.geo_index.entries().dom().contains(id)
                        && in_corner_box(
                        self.geo_index.entries()[id],
                        g_lo_lat,
                        g_lo_lon,
                        g_hi_lat,
                        g_hi_lon,
                    )),
                p == lift_pred(self.records@, radius_rec_pred(lat as int, lon as int, radius_m as int)),
                i <= n,
                r@ == ids_upto(i as nat).filter(p),
            decreases n - i,
        {
            let rec = self.records[i];
            let keep = if contains_id(&cand, i) {
                lo_lat <= rec.lat_e7 && rec.lat_e7 <= hi_lat && lo_lon <= rec.lon_e7 && rec.lon_e7
                    <= hi_lon && haversine_m(lat, lon, rec.lat_e7, rec.lon_e7) <= radius_m as u64
            } else {
                false
            };
            proof {
                reveal(Seq::filter);
                assert(ids_upto((i + 1) as nat).drop_last() =~= ids_upto(i as nat));
                assert(ids_upto((i + 1) as nat).last() == i as usize);
                assert(self.geo_index.entries().dom().contains(i as usize));
                assert(self.geo_index.entries()[i as usize] == (
                    grid_val(rec.lat_e7),
                    grid_val(rec.lon_e7),
                ));
                assert(lo_lat <= hi_lat && lo_lon <= hi_lon);
                assert(p(i as usize) == (radius_rec_pred(lat as int, lon as int, radius_m as int)(
                    rec,
                )));
                // Exact envelope containment implies grid containment, so
                // the tree never prunes an exact match.
                if lo_lat <= rec.lat_e7 <= hi_lat && lo_lon <= rec.lon_e7 <= hi_lon {
                    lemma_grid_monotone(lo_lat as int, rec.lat_e7 as int);
                    lemma_grid_monotone(rec.lat_e7 as int, hi_lat as int);
                    lemma_grid_monotone(lo_lon as int, rec.lon_e7 as int);
                    lemma_grid_monotone(rec.lon_e7 as int, hi_lon as int);
                    lemma_grid_monotone(lo_lat as int, hi_lat as int);
                    lemma_grid_monotone(lo_lon as int, hi_lon as int);
                    assert(cand@.contains(i as usize));
                }
                assert(keep == p(i as usize));
            }
            if keep {
                r.push(i);
            }
            i += 1;
        }
        proof {
            assert(r@ == ids_upto(self.records@.len()).filter(p));
        }
        r
    }

    /// Returns the records within `radius_m` meters of the center by the
    /// two-phase radius query: the spatial index narrows the candidates
    /// to its grid cells around the square degree envelope, then the
    /// exact envelope and the haversine distance decide.
    pub fn query_geo_radius(&self, lat: i64, lon: i64, radius_m: i64) -> (r: Vec<BleObservation>)
        requires
            self.wf(),
        ensures
            r@ == self.radius_listing(lat as int, lon as int, radius_m as int).map_values(
                elem_at(self.records_seq()),
            ),
    {
        let ids = self.radius_ids(lat, lon, radius_m);
        proof {
            lemma_radius_listing_bounded(*self, lat as int, lon as int, radius_m as int);
        }
        self.gather(&ids)
    }

    /// Returns the records inside the box spanned by the two corners,
    /// bounds inclusive, in identifier order; the spatial index narrows
    /// the candidates, the exact bounds decide.
    pub fn query_geo_bbox(&self, min_lat: i64, min_lon: i64, max_lat: i64, max_lon: i64) -> (r:
        Vec<BleObservation>)
        requires
            self.wf(),
        ensures
            r@ == self.bbox_listing(min_lat, min_lon, max_lat, max_lon).map_values(
                elem_at(self.records_seq()),
            ),
    {
        let lo_lat = if min_lat <= max_lat {
            min_lat
        } else {
            max_lat
        };
        let hi_lat = if min_lat <= max_lat {
            max_lat
        } else {
            min_lat
        };
        let lo_lon = if min_lon <= max_lon {
            min_lon
        } else {
            max_lon
        };
        let hi_lon = if min_lon <= max_lon {
            max_lon
        } else {
            min_lon
        };
        let g_a_lat = grid_of_x(min_lat);
        let g_a_lon = grid_of_x(min_lon);
        let g_b_lat = grid_of_x(max_lat);
        let g_b_lon = grid_of_x(max_lon);
        let cand = geo_locate(&self.geo_index, g_a_lat, g_a_lon, g_b_lat, g_b_lon);
        let ghost p = lift_pred(self.records@, bbox_rec_pred(min_lat, min_lon, max_lat, max_lon));
        proof {
            reveal(Seq::filter);
        }
        let n = self.records.len();
        let mut ids: Vec<usize> = Vec::new();
        let mut i: usize = 0;
        while i < n
            invariant
                self.wf(),
                n as int == self.records@.len(),
                lo_lat == if min_lat <= max_lat { min_lat } else { max_lat },
                hi_lat == if min_lat <= max_lat { max_lat } else { min_lat },
                lo_lon == if min_lon <= max_lon { min_lon } else { max_lon },
                hi_lon == if min_lon <= max_lon { max_lon } else { min_lon },
                g_a_lat == grid_val(min_lat) && g_b_lat == grid_val(max_lat),
                g_a_lon == grid_val(min_lon) && g_b_lon == grid_val(max_lon),
                forall|id: usize|
                    #[trigger] cand@.contains(id) <==> (self.geo_index.entries().dom().contains(id)
                        && in_corner_box(
                        self.geo_index.entries()[id],
                        g_a_lat,
                        g_a_lon,
                        g_b_lat,
                        g_b_lon,
                    )),
                p == lift_pred(self.records@, bbox_rec_pred(min_lat, min_lon, max_lat, max_lon)),
                i <= n,
                ids@ == ids_upto(i as nat).filter(p),
            decreases n - i,
        {
            let rec = self.records[i];
            let keep = if contains_id(&cand, i) {
                lo_lat <= rec.lat_e7 && rec.lat_e7 <= hi_lat && lo_lon <= rec.lon_e7 && rec.lon_e7
                    <= hi_lon
            } else {
                false
            };
            proof {
                reveal(Seq::filter);
                assert(ids_upto((i + 1) as nat).drop_last() =~= ids_upto(i as nat));
                assert(ids_upto((i + 1) as nat).last() == i as usize);
                assert(self.geo_index.entries().dom().contains(i as usize));
                assert(self.geo_index.entries()[i as usize] == (
                    grid_val(rec.lat_e7),
                    grid_val(rec.lon_e7),
                ));
                assert(p(i as usize) == bbox_rec_pred(min_lat, min_lon, max_lat, max_lon)(rec));
                // Exact containment implies grid containment: the tree
                // never prunes an exact match.
                if lo_lat <= rec.lat_e7 <= hi_lat && lo_lon <= rec.lon_e7 <= hi_lon {
                    lemma_grid_monotone(lo_lat as int, rec.lat_e7 as int);
                    lemma_grid_monotone(rec.lat_e7 as int, hi_lat as int);
                    lemma_grid_monotone(lo_lon as int, rec.lon_e7 as int);
                    lemma_grid_monotone(rec.lon_e7 as int, hi_lon as int);
                    if min_lat <= max_lat {
                        lemma_grid_monotone(min_lat as int, max_lat as int);
                    } else {
                        lemma_grid_monotone(max_lat as int, min_lat as int);
                    }
                    if min_lon <= max_lon {
                        lemma_grid_monotone(min_lon as int, max_lon as int);
                    } else {
                        lemma_grid_monotone(max_lon as int, min_lon as int);
                    }
                    assert(cand@.contains(i as usize));
                }
                assert(keep == p(i as usize));
            }
            if keep {
                ids.push(i);
            }
            i += 1;
        }
        proof {
            assert(ids@ == ids_upto(self.records@.len()).filter(p));
            lemma_filter_ids_bounded(
                ids_upto(self.records@.len()),
                p,
                self.records@.len() as int,
            );
        }
        self.gather(&ids)
    }

    /// Returns the records inside the polygon: candidates from the
    /// vertices' bounding box through the spatial index, then the exact
    /// box and the ray-casting test. Fewer than three vertices return an
    /// empty result.
    pub fn query_geo_polygon(&self, polygon: &Vec<(i64, i64)>) -> (r: Vec<BleObservation>)
        requires
            self.wf(),
        ensures
            r@ == self.polygon_listing(polygon@).map_values(elem_at(self.records_seq())),
            polygon@.len() < 3 ==> r@ == Seq::<BleObservation>::empty(),
    {
        if polygon.len() < 3 {
            proof {
                assert(self.polygon_listing(polygon@).map_values(elem_at(self.records@)) =~= Seq::<
                    BleObservation,
                >::empty());
            }
            return Vec::new();
        }
        let bounds = vertex_bounds(polygon);
        let cand = geo_locate(
            &self.geo_index,
            grid_of_x(bounds.0),
            grid_of_x(bounds.2),
            grid_of_x(bounds.1),
            grid_of_x(bounds.3),
        );
        let ghost p = lift_pred(self.records@, poly_rec_pred(polygon@));
        proof {
            reveal(Seq::filter);
            lemma_bounds_ordered(polygon@);
        }
        let n = self.records.len();
        let mut ids: Vec<usize> = Vec::new();
        let mut i: usize = 0;
        while i < n
            invariant
                self.wf(),
                n as int == self.records@.len(),
                polygon@.len() >= 3,
                bounds.0 as int == min_lat_of(polygon@),
                bounds.1 as int == max_lat_of(polygon@),
                bounds.2 as int == min_lon_of(polygon@),
                bounds.3 as int == max_lon_of(polygon@),
                forall|id: usize|
                    #[trigger] cand@.contains(id) <==> (self.geo_index.entries().dom().contains(id)
                        && in_corner_box(
                        self.geo_index.entries()[id],
                        grid_val(bounds.0),
                        grid_val(bounds.2),
                        grid_val(bounds.1),
                        grid_val(bounds.3),
                    )),
                p == lift_pred(self.records@, poly_rec_pred(polygon@)),
                i <= n,
                ids@ == ids_upto(i as nat).filter(p),
            decreases n - i,
        {
            let rec = self.records[i];
            let keep = if contains_id(&cand, i) {
                bounds.0 <= rec.lat_e7 && rec.lat_e7 <= bounds.1 && bounds.2 <= rec.lon_e7
                    && rec.lon_e7 <= bounds.3 && point_in_polygon(rec.lat_e7, rec.lon_e7, polygon)
            } else {
                false
            };
            proof {
                reveal(Seq::filter);
                lemma_bounds_ordered(polygon@);
                assert(ids_upto((i + 1) as nat).drop_last() =~= ids_upto(i as nat));
                assert(ids_upto((i + 1) as nat).last() == i as usize);
                assert(self.geo_index.entries().dom().contains(i as usize));
                assert(self.geo_index.entries()[i as usize] == (
                    grid_val(rec.lat_e7),
                    grid_val(rec.lon_e7),
                ));
                assert(p(i as usize) == poly_rec_pred(polygon@)(rec));
                // Exact containment in the vertices' box implies grid
                // containment: the tree never prunes an exact match.
                if bounds.0 <= rec.lat_e7 <= bounds.1 && bounds.2 <= rec.lon_e7 <= bounds.3 {
                    lemma_grid_monotone(bounds.0 as int, rec.lat_e7 as int);
                    lemma_grid_monotone(rec.lat_e7 as int, bounds.1 as int);
                    lemma_grid_monotone(bounds.2 as int, rec.lon_e7 as int);
                    lemma_grid_monotone(rec.lon_e7 as int, bounds.3 as int);
                    lemma_grid_monotone(bounds.0 as int, bounds.1 as int);
                    lemma_grid_monotone(bounds.2 as int, bounds.3 as int);
                    assert(cand@.contains(i as usize));
                }
                assert(keep == p(i as usize));
            }
            if keep {
                ids.push(i);
            }
            i += 1;
        }
        proof {
            assert(ids@ == ids_upto(self.records@.len()).filter(p));
            lemma_filter_ids_bounded(
                ids_upto(self.records@.len()),
                p,
                self.records@.len() as int,
            );
        }
        self.gather(&ids)
    }

    /// Resolves a conjunctive query: the matching address bucket (or the
    /// full identifier range), narrowed in turn by the signal-strength
    /// range, the timestamp range and the radius query, each an
    /// independent membership filter, in that fixed order.
    pub fn query_multi(
        &self,
        mac: Option<[u8; 6]>,
        rssi_range: Option<(i8, i8)>,
        time_range: Option<(i64, i64)>,
        geo_center: Option<(i64, i64, i64)>,
    ) -> (r: Vec<BleObservation>)
        requires
            self.wf(),
        ensures
            r@ == self.multi_listing(mac, rssi_range, time_range, geo_center).map_values(
                elem_at(self.records_seq()),
            ),
    {
        let n = self.records.len();
        let ids: Vec<usize> = match mac {
            Some(m) => {
                let k = pack_mac(&m);
                let b = self.mac_index.ids_in_range(k, k);
                proof {
                    lemma_listing_bounded(
                        self.mac_index,
                        self.records@,
                        mac_key_of(),
                        k as int,
                        k as int,
                    );
                }
                b
            },
            None => all_ids(n),
        };
        proof {
            assert(forall|i: int| 0 <= i < ids@.len() ==> (#[trigger] ids@[i] as int) < n as int);
        }
        let ids2: Vec<usize> = match rssi_range {
            Some(rg) => {
                let keep = self.rssi_index.ids_in_range(rg.0 as i64, rg.1 as i64);
                let f = retain_members(&ids, &keep);
                proof {
                    lemma_filter_ids_bounded(ids@, member_pred(keep@), n as int);
                }
                f
            },
            None => ids,
        };
        let ids3: Vec<usize> = match time_range {
            Some(tg) => {
                let keep = self.time_index.ids_in_range(tg.0, tg.1);
                let f = retain_members(&ids2, &keep);
                proof {
                    lemma_filter_ids_bounded(ids2@, member_pred(keep@), n as int);
                }
                f
            },
            None => ids2,
        };
        let ids4: Vec<usize> = match geo_center {
            Some(g) => {
                let keep = self.radius_ids(g.0, g.1, g.2);
                let f = retain_members(&ids3, &keep);
                proof {
                    lemma_filter_ids_bounded(ids3@, member_pred(keep@), n as int);
                }
                f
            },
            None => ids3,
        };
        self.gather(&ids4)
    }

    /// Returns every distinct hardware address observed, sorted in
    /// lexicographic byte order.
    pub fn get_all_macs(&self) -> (r: Vec<[u8; 6]>)
        requires
            self.wf(),
        ensures
            forall|a: int, b: int| 0 <= a < b < r@.len() ==> mac_lex_lt(r@[a]@, r@[b]@),
            forall|i: int|
                0 <= i < r@.len() ==> mac_present(self.records_seq(), (#[trigger] r@[i])@),
            forall|id: int|
                0 <= id < self.records_seq().len() ==> mac_listed(
                    r@,
                    (#[trigger] self.records_seq()[id]).mac@,
                ),
    {
        let keys = self.mac_index.distinct_keys();
        let mut r: Vec<[u8; 6]> = Vec::new();
        let mut i: usize = 0;
        proof {
            assert forall|j: int| 0 <= j < keys@.len() implies 0 <= #[trigger] keys@[j]
                < 0x1_0000_0000_0000 by {
                assert(keys@.contains(keys@[j]));
                let e = choose|e: (i64, usize)|
                    #[trigger] self.mac_index.entries_seq().contains(e) && e.0 == keys@[j];
                assert(e.1 < self.records@.len() && e.0 as int == mac_key(
                    self.records@[e.1 as int].mac@,
                ));
            }
        }
        while i < keys.len()
            invariant
                self.wf(),
                i <= keys@.len(),
                forall|j: int| 0 <= j < keys@.len() ==> 0 <= #[trigger] keys@[j] < 0x1_0000_0000_0000,
                r@.len() == i,
                forall|j: int| 0 <= j < i ==> mac_key((#[trigger] r@[j])@) == keys@[j],
            decreases keys@.len() - i,
        {
            let k = keys[i];
            let m = unpack_mac(k);
            r.push(m);
            i += 1;
        }
        proof {
            lemma_all_macs(*self, keys@, r@);
        }
        r
    }
}

/// Every identifier in a radius listing is an existing record.
proof fn lemma_radius_listing_bounded(c: BleCube, lat: int, lon: int, radius: int)
    ensures
        forall|i: int|
            0 <= i < c.radius_listing(lat, lon, radius).len() ==> (#[trigger] c.radius_listing(
                lat,
                lon,
                radius,
            )[i] as int) < c.records_seq().len(),
{
    if radius >= 0 {
        lemma_filter_ids_bounded(
            ids_upto(c.records_seq().len()),
            lift_pred(c.records_seq(), radius_rec_pred(lat, lon, radius)),
            c.records_seq().len() as int,
        );
    }
}

/// The unpacked distinct keys are exactly the distinct addresses of the
/// records, in lexicographic order.
proof fn lemma_all_macs(c: BleCube, keys: Seq<i64>, r: Seq<[u8; 6]>)
    requires
        c.wf(),
        forall|a: int, b: int| 0 <= a < b < keys.len() ==> #[trigger] keys[a] < #[trigger] keys[b],
        forall|k: i64|
            keys.contains(k) <==> exists|e: (i64, usize)|
                #[trigger] c.mac_index.entries_seq().contains(e) && e.0 == k,
        r.len() == keys.len(),
        forall|j: int| 0 <= j < r.len() ==> mac_key((#[trigger] r[j])@) == keys[j],
    ensures
        forall|a: int, b: int| 0 <= a < b < r.len() ==> mac_lex_lt(r[a]@, r[b]@),
        forall|i: int| 0 <= i < r.len() ==> mac_present(c.records_seq(), (#[trigger] r[i])@),
        forall|id: int|
            0 <= id < c.records_seq().len() ==> mac_listed(
                r,
                (#[trigger] c.records_seq()[id]).mac@,
            ),
{
    let recs = c.records@;
    assert forall|a: int, b: int| 0 <= a < b < r.len() implies mac_lex_lt(r[a]@, r[b]@) by {
        lemma_mac_key_lex(r[a]@, r[b]@);
    }
    assert forall|i: int| 0 <= i < r.len() implies mac_present(
        c.records_seq(),
        (#[trigger] r[i])@,
    ) by {
        assert(keys.contains(keys[i]));
        let e = choose|e: (i64, usize)|
            #[trigger] c.mac_index.entries_seq().contains(e) && e.0 == keys[i];
        assert(e.1 < recs.len() && e.0 as int == mac_key(recs[e.1 as int].mac@));
        lemma_mac_key_injective(r[i]@, recs[e.1 as int].mac@);
        assert((c.records_seq()[e.1 as int]).mac@ == r[i]@);
    }
    assert forall|id: int| 0 <= id < c.records_seq().len() implies mac_listed(
        r,
        (#[trigger] c.records_seq()[id]).mac@,
    ) by {
        let key = mac_key(recs[id].mac@) as i64;
        assert(c.mac_index.entries_seq().contains((mac_key_of()(recs[id]) as i64, id as usize)));
        assert(c.mac_index.entries_seq().contains((key, id as usize)));
        assert(keys.contains(key));
        let i = choose|i: int| 0 <= i < keys.len() && keys[i] == key;
        assert(mac_key(r[i]@) == mac_key(recs[id].mac@));
        lemma_mac_key_injective(r[i]@, recs[id].mac@);
        assert((r[i])@ == c.records_seq()[id].mac@);
    }
}

impl Default for BleCube {
    /// An empty store.
    fn default() -> (r: Self)
        ensures
            r.wf(),
            r.records_seq() == Seq::<BleObservation>::empty(),
    {
        BleCube::new()
    }
}


/// An identifier is in the signal-strength range listing exactly when
/// its record's strength lies in the range.
pub proof fn lemma_rssi_listing_member(c: BleCube, lo: int, hi: int, id: usize)
    requires
        c.wf(),
    ensures
        c.rssi_listing(lo, hi).contains(id) <==> ((id as int) < c.records_seq().len() && lo
            <= c.records_seq()[id as int].rssi <= hi),
{
    lemma_listing_member_generic(c.rssi_index, c.records_seq(), rssi_key_of(), lo, hi, id);
}

/// An identifier is in the timestamp range listing exactly when its
/// record's timestamp lies in the range.
pub proof fn lemma_time_listing_member(c: BleCube, lo: int, hi: int, id: usize)
    requires
        c.wf(),
    ensures
        c.time_listing(lo, hi).contains(id) <==> ((id as int) < c.records_seq().len() && lo
            <= c.records_seq()[id as int].timestamp <= hi),
{
    lemma_listing_member_generic(c.time_index, c.records_seq(), time_key_of(), lo, hi, id);
}

/// An identifier is in an address listing exactly when its record
/// carries the address.
pub proof fn lemma_mac_listing_member(c: BleCube, m: Seq<u8>, id: usize)
    requires
        c.wf(),
        m.len() == 6,
    ensures
        c.mac_listing(mac_key(m)).contains(id) <==> ((id as int) < c.records_seq().len()
            && c.records_seq()[id as int].mac@ == m),
{
    let recs = c.records_seq();
    lemma_listing_member_generic(c.mac_index, recs, mac_key_of(), mac_key(m), mac_key(m), id);
    if (id as int) < recs.len() {
        if mac_key(recs[id as int].mac@) == mac_key(m) {
            lemma_mac_key_injective(recs[id as int].mac@, m);
        }
        if recs[id as int].mac@ == m {
            assert(mac_key(recs[id as int].mac@) == mac_key(m));
        }
    }
}

/// Signal-strength range listings group by ascending strength, with
/// identifiers in insertion order inside a strength.
pub proof fn lemma_rssi_listing_sorted(c: BleCube, lo: int, hi: int)
    requires
        c.wf(),
    ensures
        forall|a: int, b: int|
            #![trigger c.rssi_listing(lo, hi)[a], c.rssi_listing(lo, hi)[b]]
            0 <= a < b < c.rssi_listing(lo, hi).len() ==> (c.records_seq()[c.rssi_listing(
                lo,
                hi,
            )[a] as int].rssi < c.records_seq()[c.rssi_listing(lo, hi)[b] as int].rssi || (
            c.records_seq()[c.rssi_listing(lo, hi)[a] as int].rssi == c.records_seq()[c.rssi_listing(
                lo,
                hi,
            )[b] as int].rssi && c.rssi_listing(lo, hi)[a] < c.rssi_listing(lo, hi)[b])),
{
    let recs = c.records_seq();
    let s = c.rssi_listing(lo, hi);
    let sk = stored_key(recs, rssi_key_of());
    lemma_listing_sorted_generic(c.rssi_index, recs, rssi_key_of(), lo, hi);
    lemma_listing_bounded(c.rssi_index, recs, rssi_key_of(), lo, hi);
    assert forall|a: int, b: int| 0 <= a < b < s.len() implies (recs[#[trigger] s[a] as int].rssi
        < recs[s[b] as int].rssi || (recs[s[a] as int].rssi == recs[#[trigger] s[b] as int].rssi
        && s[a] < s[b])) by {
        assert(sk(s[a]) == recs[s[a] as int].rssi as int);
        assert(sk(s[b]) == recs[s[b] as int].rssi as int);
    }
}

/// Timestamp range listings group by ascending timestamp, with
/// identifiers in insertion order inside a timestamp.
pub proof fn lemma_time_listing_sorted(c: BleCube, lo: int, hi: int)
    requires
        c.wf(),
    ensures
        forall|a: int, b: int|
            #![trigger c.time_listing(lo, hi)[a], c.time_listing(lo, hi)[b]]
            0 <= a < b < c.time_listing(lo, hi).len() ==> (c.records_seq()[c.time_listing(
                lo,
                hi,
            )[a] as int].timestamp < c.records_seq()[c.time_listing(lo, hi)[b] as int].timestamp || (
            c.records_seq()[c.time_listing(lo, hi)[a] as int].timestamp == c.records_seq()[c.time_listing(
                lo,
                hi,
            )[b] as int].timestamp && c.time_listing(lo, hi)[a] < c.time_listing(lo, hi)[b])),
{
    let recs = c.records_seq();
    let s = c.time_listing(lo, hi);
    let sk = stored_key(recs, time_key_of());
    lemma_listing_sorted_generic(c.time_index, recs, time_key_of(), lo, hi);
    lemma_listing_bounded(c.time_index, recs, time_key_of(), lo, hi);
    assert forall|a: int, b: int| 0 <= a < b < s.len() implies (recs[#[trigger] s[a] as int].timestamp
        < recs[s[b] as int].timestamp || (recs[s[a] as int].timestamp
        == recs[#[trigger] s[b] as int].timestamp && s[a] < s[b])) by {
        assert(sk(s[a]) == recs[s[a] as int].timestamp as int);
        assert(sk(s[b]) == recs[s[b] as int].timestamp as int);
    }
}

/// An identifier is in a radius listing exactly when the radius is
/// nonnegative, the record lies in the degree envelope, and its
/// haversine distance to the center is within the radius.
pub proof fn lemma_radius_listing_member(c: BleCube, lat: int, lon: int, radius: int, id: usize)
    ensures
        c.radius_listing(lat, lon, radius).contains(id) <==> (radius >= 0 && (id as int)
            < c.records_seq().len() && {
            let d = deg_of_radius(radius);
            let rec = c.records_seq()[id as int];
            lat - d <= rec.lat_e7 <= lat + d && lon - d <= rec.lon_e7 <= lon + d && hav_dist(
                lat,
                lon,
                rec.lat_e7 as int,
                rec.lon_e7 as int,
            ) <= radius
        }),
{
    let recs = c.records_seq();
    let n = recs.len();
    if radius < 0 {
        if c.radius_listing(lat, lon, radius).contains(id) {
            let j = choose|j: int|
                0 <= j < c.radius_listing(lat, lon, radius).len() && c.radius_listing(
                    lat,
                    lon,
                    radius,
                )[j] == id;
            assert(false);
        }
    } else {
        let p = lift_pred(recs, radius_rec_pred(lat, lon, radius));
        lemma_filter_contains_iff(ids_upto(n), p, id);
        if ids_upto(n).contains(id) {
            let j = choose|j: int| 0 <= j < ids_upto(n).len() && ids_upto(n)[j] == id;
        }
        if (id as int) < n {
            assert(ids_upto(n)[id as int] == id);
            assert(ids_upto(n).contains(id));
        }
    }
}

/// Geo radius monotonicity: widening the radius never loses a match.
pub proof fn lemma_radius_monotone(c: BleCube, lat: int, lon: int, r1: int, r2: int)
    requires
        r1 <= r2,
    ensures
        forall|id: usize|
            #[trigger] c.radius_listing(lat, lon, r1).contains(id) ==> c.radius_listing(
                lat,
                lon,
                r2,
            ).contains(id),
{
    assert forall|id: usize| #[trigger] c.radius_listing(lat, lon, r1).contains(id) implies c
        .radius_listing(lat, lon, r2).contains(id) by {
        lemma_radius_listing_member(c, lat, lon, r1, id);
        lemma_radius_listing_member(c, lat, lon, r2, id);
        lemma_deg_monotone(r1, r2);
    }
}

/// A conjunctive query with no filters returns every record, in
/// identifier order.
pub proof fn lemma_multi_unfiltered(c: BleCube)
    ensures
        c.multi_listing(None, None, None, None) == ids_upto(c.records_seq().len()),
        c.multi_listing(None, None, None, None).map_values(elem_at(c.records_seq()))
            == c.records_seq(),
{
    lemma_records_len_bound(c);
    lemma_ids_upto_map(c.records_seq());
}

/// An identifier survives a conjunctive query exactly when its record
/// meets every present filter.
pub proof fn lemma_multi_member(
    c: BleCube,
    mac: Option<[u8; 6]>,
    rssi_range: Option<(i8, i8)>,
    time_range: Option<(i64, i64)>,
    geo_center: Option<(i64, i64, i64)>,
    id: usize,
)
    requires
        c.wf(),
    ensures
        c.multi_listing(mac, rssi_range, time_range, geo_center).contains(id) <==> {
            let recs = c.records_seq();
            &&& (id as int) < recs.len()
            &&& match mac {
                Some(m) => recs[id as int].mac@ == m@,
                None => true,
            }
            &&& match rssi_range {
                Some(rg) => rg.0 <= recs[id as int].rssi <= rg.1,
                None => true,
            }
            &&& match time_range {
                Some(tg) => tg.0 <= recs[id as int].timestamp <= tg.1,
                None => true,
            }
            &&& match geo_center {
                Some(g) => c.radius_listing(g.0 as int, g.1 as int, g.2 as int).contains(id),
                None => true,
            }
        },
{
    let recs = c.records_seq();
    let n = recs.len();
    lemma_records_len_bound(c);
    let base = match mac {
        Some(m) => c.mac_listing(mac_key(m@)),
        None => ids_upto(n),
    };
    match mac {
        Some(m) => {
            lemma_mac_listing_member(c, m@, id);
        },
        None => {
            if (id as int) < n {
                assert(ids_upto(n)[id as int] == id);
                assert(ids_upto(n).contains(id));
            }
            if ids_upto(n).contains(id) {
                let j = choose|j: int| 0 <= j < ids_upto(n).len() && ids_upto(n)[j] == id;
            }
        },
    }
    let s1 = match rssi_range {
        Some(rg) => base.filter(member_pred(c.rssi_listing(rg.0 as int, rg.1 as int))),
        None => base,
    };
    match rssi_range {
        Some(rg) => {
            lemma_filter_contains_iff(
                base,
                member_pred(c.rssi_listing(rg.0 as int, rg.1 as int)),
                id,
            );
            lemma_rssi_listing_member(c, rg.0 as int, rg.1 as int, id);
        },
        None => {},
    }
    let s2 = match time_range {
        Some(tg) => s1.filter(member_pred(c.time_listing(tg.0 as int, tg.1 as int))),
        None => s1,
    };
    match time_range {
        Some(tg) => {
            lemma_filter_contains_iff(
                s1,
                member_pred(c.time_listing(tg.0 as int, tg.1 as int)),
                id,
            );
            lemma_time_listing_member(c, tg.0 as int, tg.1 as int, id);
        },
        None => {},
    }
    match geo_center {
        Some(g) => {
            lemma_filter_contains_iff(
                s2,
                member_pred(c.radius_listing(g.0 as int, g.1 as int, g.2 as int)),
                id,
            );
        },
        None => {},
    }
}


/// Appending a record never disturbs earlier identifiers, and the new
/// identifier resolves to exactly the inserted values: with `insert`
/// returning the old length and `get` reading by position, lookups
/// return what was inserted, for every insertion order.
pub proof fn lemma_insert_preserves_lookup(before: Seq<BleObservation>, obs: BleObservation)
    ensures
        before.push(obs)[before.len() as int] == obs,
        forall|id: int| 0 <= id < before.len() ==> before.push(obs)[id] == before[id],
{
}

/// An identifier is in a box listing exactly when its record's point
/// lies inside the box spanned by the corners.
pub proof fn lemma_bbox_listing_member(
    c: BleCube,
    a_lat: i64,
    a_lon: i64,
    b_lat: i64,
    b_lon: i64,
    id: usize,
)
    ensures
        c.bbox_listing(a_lat, a_lon, b_lat, b_lon).contains(id) <==> ((id as int)
            < c.records_seq().len() && in_corner_box(
            (c.records_seq()[id as int].lat_e7, c.records_seq()[id as int].lon_e7),
            a_lat,
            a_lon,
            b_lat,
            b_lon,
        )),
{
    let recs = c.records_seq();
    let n = recs.len();
    let p = lift_pred(recs, bbox_rec_pred(a_lat, a_lon, b_lat, b_lon));
    lemma_filter_contains_iff(ids_upto(n), p, id);
    if ids_upto(n).contains(id) {
        let j = choose|j: int| 0 <= j < ids_upto(n).len() && ids_upto(n)[j] == id;
    }
    if (id as int) < n {
        assert(ids_upto(n)[id as int] == id);
        assert(ids_upto(n).contains(id));
    }
}

/// An identifier is in a polygon listing exactly when the polygon has at
/// least three vertices, the record's point lies in the vertices'
/// bounding box, and the ray-casting test places it inside.
pub proof fn lemma_polygon_listing_member(c: BleCube, poly: Seq<(i64, i64)>, id: usize)
    ensures
        c.polygon_listing(poly).contains(id) <==> (poly.len() >= 3 && (id as int)
            < c.records_seq().len() && {
            let rec = c.records_seq()[id as int];
            min_lat_of(poly) <= rec.lat_e7 <= max_lat_of(poly) && min_lon_of(poly) <= rec.lon_e7
                <= max_lon_of(poly) && pip(rec.lat_e7 as int, rec.lon_e7 as int, poly)
        }),
{
    let recs = c.records_seq();
    let n = recs.len();
    if poly.len() < 3 {
        if c.polygon_listing(poly).contains(id) {
            let j = choose|j: int|
                0 <= j < c.polygon_listing(poly).len() && c.polygon_listing(poly)[j] == id;
            assert(false);
        }
    } else {
        let p = lift_pred(recs, poly_rec_pred(poly));
        lemma_filter_contains_iff(ids_upto(n), p, id);
        if ids_upto(n).contains(id) {
            let j = choose|j: int| 0 <= j < ids_upto(n).len() && ids_upto(n)[j] == id;
        }
        if (id as int) < n {
            assert(ids_upto(n)[id as int] == id);
            assert(ids_upto(n).contains(id));
        }
    }
}

} // verus!
