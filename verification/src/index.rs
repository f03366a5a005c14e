//! The sparse index: an approximate per-field value index over a collection
//! snapshot.
//!
//! Building an index walks the snapshot in order, samples every Nth object
//! that carries the requested field (N is the configured granularity), records
//! the sampled identifier-to-value map, and inserts every string-typed sampled
//! value into a per-field probabilistic membership filter. The filter answers
//! "possibly present" or "definitely absent from what was inserted": it never
//! reports a sampled value absent, and it may report anything else present.
//! It is a scan-avoidance hint, never an authority beyond its own sample.

use crate::json::{
    lemma_obj_key_idx, lemma_obj_remove, lemma_obj_set, obj_find, obj_get, obj_has_key,
    obj_keys_unique, obj_remove, obj_set, view_obj, wf, JsonVal, JsonValue,
};
use vstd::prelude::*;

verus! {

broadcast use crate::json::group_json_view;

// ---------------------------------------------------------------------------
// The membership filter, from the outside
// ---------------------------------------------------------------------------
#[verifier::external_type_specification]
#[verifier::external_body]
#[verifier::reject_recursive_types(R)]
#[verifier::reject_recursive_types(S)]
pub struct ExBloomFilter<R, S>(bloom::BloomFilter<R, S>);

/// What a filter would acknowledge: the set of byte strings inserted into it
/// since it was created.
pub uninterp spec fn filter_elems(f: bloom::BloomFilter) -> Set<Seq<u8>>;

/// The number of bits the filter was created with.
pub uninterp spec fn filter_bits(f: bloom::BloomFilter) -> nat;

/// What a filter would answer for any probe: its full acknowledgment set.
/// The answer is a function of the filter value alone — its bits and its two
/// stored hashers — so the set is determined by it. It holds at least every
/// inserted item, and possibly more: the false positives.
pub uninterp spec fn filter_acks(f: bloom::BloomFilter) -> Set<Seq<u8>>;

/// Relies on bloom::BloomFilter::with_size: a fresh filter with the given
/// geometry and all bits clear, with nothing inserted yet; with at least one
/// hash function, every probe reads a clear bit, so nothing is acknowledged.
#[verifier::external_body]
fn filter_with_size(num_bits: usize, num_hashes: u32) -> (r: bloom::BloomFilter)
    requires
        num_bits >= 1,
    ensures
        filter_elems(r) == Set::<Seq<u8>>::empty(),
        filter_bits(r) == num_bits,
        num_hashes >= 1 ==> filter_acks(r) == Set::<Seq<u8>>::empty(),
{
    bloom::BloomFilter::with_size(num_bits, num_hashes)
}

/// Relies on bloom::BloomFilter::insert (through the crate's ASMS trait):
/// inserting an item only sets bits, so the filter now holds everything it
/// held plus this item, every probe acknowledged before stays acknowledged,
/// and the item itself is now acknowledged — its probe reads the bits just
/// set. A filter with no bits would panic, hence the bound.
#[verifier::external_body]
fn filter_insert(f: &mut bloom::BloomFilter, item: &[u8])
    requires
        filter_bits(*old(f)) >= 1,
    ensures
        filter_elems(*final(f)) == filter_elems(*old(f)).insert(item@),
        filter_bits(*final(f)) == filter_bits(*old(f)),
        filter_acks(*old(f)) <= filter_acks(*final(f)),
        filter_acks(*final(f)).contains(item@),
{
    let _ = bloom::ASMS::insert(f, &item);
}

/// Relies on bloom::BloomFilter::contains (through the crate's ASMS trait):
/// the probe reads bits chosen by the stored hashers, a deterministic
/// function of the filter value and the item — exactly membership in the
/// filter's acknowledgment set.
#[verifier::external_body]
fn filter_contains(f: &bloom::BloomFilter, item: &[u8]) -> (r: bool)
    requires
        filter_bits(*f) >= 1,
    ensures
        r == filter_acks(*f).contains(item@),
{
    bloom::ASMS::contains(f, &item)
}

// ---------------------------------------------------------------------------
// Sampling a snapshot
// ---------------------------------------------------------------------------
/// What `.get(field)` shows on a JSON value: the field's value when the value
/// is an object carrying it.
pub open spec fn val_field(v: JsonVal, field: Seq<u8>) -> Option<JsonVal> {
    match v {
        JsonVal::Obj(ps) => if obj_has_key(ps, field) {
            Some(obj_get(ps, field))
        } else {
            None
        },
        _ => None,
    }
}

/// The sampled subset: walking the snapshot in order with a running counter,
/// every entry at a counter multiple of the granularity that carries the
/// field contributes its identifier and the field's value.
pub open spec fn sampled(
    m: Seq<(Seq<u8>, JsonVal)>,
    field: Seq<u8>,
    g: nat,
    counter: nat,
) -> Seq<(Seq<u8>, JsonVal)>
    decreases m,
{
    if m.len() == 0 {
        Seq::empty()
    } else {
        let rest = sampled(m.subrange(1, m.len() as int), field, g, counter + 1);
        if counter % g == 0 {
            match val_field(m[0].1, field) {
                Some(fv) => seq![(m[0].0, fv)] + rest,
                None => rest,
            }
        } else {
            rest
        }
    }
}

/// The string-typed values of a sample: what goes into the filter.
pub open spec fn sample_strings(sample: Seq<(Seq<u8>, JsonVal)>) -> Set<Seq<u8>>
    decreases sample,
{
    if sample.len() == 0 {
        Set::empty()
    } else {
        let rest = sample_strings(sample.subrange(0, sample.len() - 1));
        match sample[sample.len() - 1].1 {
            JsonVal::Str(s) => rest.insert(s),
            _ => rest,
        }
    }
}

/// Every string value of the sample is among the sample's strings.
pub proof fn lemma_sample_strings_member(sample: Seq<(Seq<u8>, JsonVal)>, i: int, s: Seq<u8>)
    requires
        0 <= i < sample.len(),
        sample[i].1 == JsonVal::Str(s),
    ensures
        sample_strings(sample).contains(s),
    decreases sample,
{
    if i < sample.len() - 1 {
        lemma_sample_strings_member(sample.subrange(0, sample.len() - 1), i, s);
        assert(sample.subrange(0, sample.len() - 1)[i] == sample[i]);
    }
}

// ---------------------------------------------------------------------------
// The index
// ---------------------------------------------------------------------------
/// The model of the field list: names as byte sequences, filters as they are.
pub open spec fn view_fields(fs: Seq<(Vec<u8>, bloom::BloomFilter)>) -> Seq<
    (Seq<u8>, bloom::BloomFilter),
>
    decreases fs,
{
    if fs.len() == 0 {
        Seq::empty()
    } else {
        view_fields(fs.subrange(0, fs.len() - 1)).push(
            (fs[fs.len() - 1].0@, fs[fs.len() - 1].1),
        )
    }
}

pub broadcast proof fn lemma_view_fields_len(fs: Seq<(Vec<u8>, bloom::BloomFilter)>)
    ensures
        #[trigger] view_fields(fs).len() == fs.len(),
    decreases fs,
{
    if fs.len() > 0 {
        lemma_view_fields_len(fs.subrange(0, fs.len() - 1));
        assert(view_fields(fs) == view_fields(fs.subrange(0, fs.len() - 1)).push(
            (fs[fs.len() - 1].0@, fs[fs.len() - 1].1),
        ));
    } else {
        assert(view_fields(fs) == Seq::<(Seq<u8>, bloom::BloomFilter)>::empty());
    }
}

pub broadcast proof fn lemma_view_fields_index(fs: Seq<(Vec<u8>, bloom::BloomFilter)>, i: int)
    requires
        0 <= i < fs.len(),
    ensures
        #[trigger] view_fields(fs)[i] == (fs[i].0@, fs[i].1),
    decreases fs,
{
    lemma_view_fields_len(fs);
    lemma_view_fields_len(fs.subrange(0, fs.len() - 1));
    assert(view_fields(fs) == view_fields(fs.subrange(0, fs.len() - 1)).push(
        (fs[fs.len() - 1].0@, fs[fs.len() - 1].1),
    ));
    if i < fs.len() - 1 {
        lemma_view_fields_index(fs.subrange(0, fs.len() - 1), i);
        assert(fs.subrange(0, fs.len() - 1)[i] == fs[i]);
    }
}

pub broadcast group group_fields_view {
    lemma_view_fields_len,
    lemma_view_fields_index,
}

/// The sparse index: a sampling granularity and one membership filter per
/// indexed field. Built from a snapshot, never persisted; staleness is
/// accepted by design.
pub struct SparseIndex {
    index_granularity: usize,
    field_indexes: Vec<(Vec<u8>, bloom::BloomFilter)>,
}

impl SparseIndex {
    /// The configured sampling granularity.
    pub closed spec fn granularity(self) -> usize {
        self.index_granularity
    }

    /// Field names are pairwise distinct, every filter is usable, and every
    /// filter acknowledges everything inserted into it: no false negatives.
    pub closed spec fn wf(self) -> bool {
        &&& obj_keys_unique(view_fields(self.field_indexes@))
        &&& forall|i: int|
            0 <= i < self.field_indexes@.len() ==> filter_bits(
                #[trigger] self.field_indexes@[i].1,
            ) >= 1
        &&& forall|i: int|
            0 <= i < self.field_indexes@.len() ==> filter_elems(
                #[trigger] self.field_indexes@[i].1,
            ) <= filter_acks(self.field_indexes@[i].1)
    }

    /// Whether a field has ever been indexed.
    pub closed spec fn has_field(self, field: Seq<u8>) -> bool {
        obj_has_key(view_fields(self.field_indexes@), field)
    }

    /// What a field's filter holds: every string value sampled for it so far.
    pub closed spec fn field_elems(self, field: Seq<u8>) -> Set<Seq<u8>> {
        filter_elems(obj_get(view_fields(self.field_indexes@), field))
    }

    /// What a field's filter acknowledges: its sampled strings and possibly
    /// false positives; what `exists_in_index` answers for the field.
    pub closed spec fn field_acks(self, field: Seq<u8>) -> Set<Seq<u8>> {
        filter_acks(obj_get(view_fields(self.field_indexes@), field))
    }

    /// A fresh index with the given granularity and no fields indexed yet.
    pub fn new(granularity: usize) -> (r: SparseIndex)
        ensures
            r.granularity() == granularity,
            r.wf(),
            forall|f: Seq<u8>| !r.has_field(f),
    {
        let r = SparseIndex { index_granularity: granularity, field_indexes: Vec::new() };
        proof {
            broadcast use group_fields_view;

            assert(view_fields(r.field_indexes@) =~= Seq::<(Seq<u8>, bloom::BloomFilter)>::empty());
            assert forall|f: Seq<u8>| !r.has_field(f) by {
                assert(view_fields(r.field_indexes@).len() == 0);
            }
        }
        r
    }

    /// Whether a value may have been sampled for a field: false only when it
    /// was certainly never among the sampled values — a field never indexed
    /// answers false, a sampled value always answers true, anything else
    /// answers by the field's acknowledgment set, which only grows across
    /// rebuilds, so a true answer stays true.
    pub fn exists_in_index(&self, field: &[u8], value: &[u8]) -> (r: bool)
        requires
            self.wf(),
        ensures
            !self.has_field(field@) ==> r == false,
            self.has_field(field@) ==> r == self.field_acks(field@).contains(value@),
            self.has_field(field@) && self.field_elems(field@).contains(value@) ==> r,
    {
        proof {
            broadcast use group_fields_view;

        }
        let ghost fv = view_fields(self.field_indexes@);
        match obj_find(&self.field_indexes, field) {
            Some(idx) => {
                proof {
                    assert(fv[idx as int].0 == field@);
                    lemma_obj_key_idx(fv, field@, idx as int);
                    assert(obj_get(fv, field@) == self.field_indexes@[idx as int].1);
                    assert(filter_elems(self.field_indexes@[idx as int].1) <= filter_acks(
                        self.field_indexes@[idx as int].1,
                    ));
                }
                filter_contains(&self.field_indexes[idx].1, value)
            },
            None => {
                proof {
                    assert forall|jj: int| 0 <= jj < fv.len() implies fv[jj].0 != field@ by {
                        assert(fv[jj].0 == self.field_indexes@[jj].0@);
                    }
                }
                false
            },
        }
    }

    /// Builds the index for one field from a snapshot: records every Nth
    /// object that carries the field into the returned sample map, and
    /// inserts each string-typed sampled value into the field's filter,
    /// creating the filter the first time the field is indexed. The filter
    /// afterwards holds everything it held before plus the sample's strings,
    /// its acknowledgments only grow — a probe answered true before is still
    /// answered true — and no other field's filter is touched.
    #[verifier::loop_isolation(false)]
    #[verifier::rlimit(100)]
    pub fn create_index(&mut self, data: &Vec<(Vec<u8>, JsonValue)>, field: &[u8]) -> (r: Vec<
        (Vec<u8>, JsonValue),
    >)
        requires
            old(self).wf(),
            old(self).granularity() >= 1,
            wf(JsonVal::Obj(view_obj(data@))),
        ensures
            view_obj(r@) == sampled(view_obj(data@), field@, old(self).granularity() as nat, 0),
            final(self).wf(),
            final(self).granularity() == old(self).granularity(),
            final(self).has_field(field@),
            final(self).field_elems(field@) == (if old(self).has_field(field@) {
                old(self).field_elems(field@)
            } else {
                Set::<Seq<u8>>::empty()
            }).union(
                sample_strings(
                    sampled(view_obj(data@), field@, old(self).granularity() as nat, 0),
                ),
            ),
            forall|f2: Seq<u8>|
                f2 != field@ ==> #[trigger] final(self).has_field(f2) == old(self).has_field(f2),
            forall|f2: Seq<u8>|
                f2 != field@ && old(self).has_field(f2) ==> #[trigger] final(self).field_elems(f2)
                    == old(self).field_elems(f2),
            old(self).has_field(field@) ==> old(self).field_acks(field@)
                <= final(self).field_acks(field@),
            forall|f2: Seq<u8>|
                f2 != field@ && old(self).has_field(f2) ==> #[trigger] final(self).field_acks(f2)
                    == old(self).field_acks(f2),
    {
        proof {
            broadcast use group_fields_view;

        }
        let ghost mm = view_obj(data@);
        let ghost g = self.index_granularity as nat;
        let mut index: Vec<(Vec<u8>, JsonValue)> = Vec::new();
        let mut i: usize = 0;
        proof {
            assert(mm.subrange(0, mm.len() as int) =~= mm);
            assert(view_obj(index@) =~= Seq::<(Seq<u8>, JsonVal)>::empty());
        }
        while i < data.len()
            invariant
                i <= data.len(),
                view_obj(index@) + sampled(mm.subrange(i as int, mm.len() as int), field@, g, i as nat)
                    == sampled(mm, field@, g, 0),
            decreases data.len() - i,
        {
            let ghost rest = mm.subrange(i as int, mm.len() as int);
            proof {
                assert(rest[0] == mm[i as int]);
                assert(rest.subrange(1, rest.len() as int) =~= mm.subrange(i + 1, mm.len() as int));
                assert(mm[i as int] == (data@[i as int].0@, data@[i as int].1@));
                crate::json::lemma_wf_obj_index(mm, i as int);
            }
            let ghost preidx = view_obj(index@);
            if i % self.index_granularity == 0 {
                match &data[i].1 {
                    JsonValue::Obj(ps) => {
                        let ghost psv = view_obj(ps@);
                        match obj_find(ps, field) {
                            Some(j) => {
                                proof {
                                    assert(psv[j as int].0 == field@);
                                    lemma_obj_key_idx(psv, field@, j as int);
                                    assert(obj_get(psv, field@) == ps@[j as int].1@);
                                    assert(val_field(mm[i as int].1, field@) == Some(
                                        ps@[j as int].1@,
                                    ));
                                }
                                let id = vstd::slice::slice_to_vec(data[i].0.as_slice());
                                let fv = ps[j].1.deep_clone();
                                let ghost idv = id@;
                                let ghost fvv = fv@;
                                let ghost preq_idx = index@;
                                index.push((id, fv));
                                proof {
                                    assert(index@ == preq_idx.push(index@[index@.len() - 1]));
                                    crate::json::lemma_view_obj_push(
                                        preq_idx,
                                        index@[index@.len() - 1],
                                    );
                                    assert(view_obj(index@) =~= preidx.push((idv, fvv)));
                                    assert(preidx.push((mm[i as int].0, ps@[j as int].1@)) + sampled(
                                        mm.subrange(i + 1, mm.len() as int),
                                        field@,
                                        g,
                                        (i + 1) as nat,
                                    ) =~= preidx + (seq![(mm[i as int].0, ps@[j as int].1@)]
                                        + sampled(
                                        mm.subrange(i + 1, mm.len() as int),
                                        field@,
                                        g,
                                        (i + 1) as nat,
                                    )));
                                }
                            },
                            None => {
                                proof {
                                    assert forall|jj: int| 0 <= jj < psv.len() implies psv[jj].0
                                        != field@ by {
                                        assert(psv[jj].0 == ps@[jj].0@);
                                    }
                                    assert(val_field(mm[i as int].1, field@) is None);
                                }
                            },
                        }
                    },
                    _ => {
                        proof {
                            assert(val_field(mm[i as int].1, field@) is None);
                        }
                    },
                }
            }
            i = i + 1;
        }
        proof {
            assert(sampled(mm.subrange(mm.len() as int, mm.len() as int), field@, g, i as nat)
                =~= Seq::<(Seq<u8>, JsonVal)>::empty());
            assert(view_obj(index@) + Seq::<(Seq<u8>, JsonVal)>::empty() =~= view_obj(index@));
        }
        let ghost sample = view_obj(index@);
        // find or create the field's filter, taking it out of the list
        let ghost fv0 = view_fields(self.field_indexes@);
        let ghost e0: Set<Seq<u8>> = if old(self).has_field(field@) {
            old(self).field_elems(field@)
        } else {
            Set::<Seq<u8>>::empty()
        };
        let ghost e0a: Set<Seq<u8>> = if old(self).has_field(field@) {
            old(self).field_acks(field@)
        } else {
            Set::<Seq<u8>>::empty()
        };
        let ghost preq = self.field_indexes@;
        let pair: (Vec<u8>, bloom::BloomFilter) = match obj_find(&self.field_indexes, field) {
            Some(fi) => {
                proof {
                    assert(fv0[fi as int].0 == field@);
                    lemma_obj_key_idx(fv0, field@, fi as int);
                    assert(obj_get(fv0, field@) == self.field_indexes@[fi as int].1);
                }
                let taken = self.field_indexes.remove(fi);
                proof {
                    assert(self.field_indexes@ == preq.remove(fi as int));
                    preq.remove_ensures(fi as int);
                    assert(view_fields(self.field_indexes@) =~= view_fields(preq).remove(
                        fi as int,
                    )) by {
                        view_fields(preq).remove_ensures(fi as int);
                    }
                    lemma_obj_remove(fv0, field@);
                    assert(filter_elems(taken.1) == e0);
                    assert(filter_acks(taken.1) == e0a);
                    assert(taken == preq[fi as int]);
                    assert(filter_elems(taken.1) <= filter_acks(taken.1));
                }
                taken
            },
            None => {
                proof {
                    assert forall|jj: int| 0 <= jj < fv0.len() implies fv0[jj].0 != field@ by {
                        assert(fv0[jj].0 == self.field_indexes@[jj].0@);
                    }
                    assert(!obj_has_key(fv0, field@));
                    assert(obj_remove(fv0, field@) == fv0);
                }
                (vstd::slice::slice_to_vec(field), filter_with_size(100000, 1))
            },
        };
        let fkey = pair.0;
        let mut filter = pair.1;
        let ghost mid = view_fields(self.field_indexes@);
        proof {
            assert(mid == obj_remove(fv0, field@));
            if obj_has_key(fv0, field@) {
                lemma_obj_remove(fv0, field@);
            }
            assert(!obj_has_key(mid, field@));
            assert(filter_elems(filter) == e0);
            assert(e0a <= filter_acks(filter));
            assert(filter_elems(filter) <= filter_acks(filter));
            assert(filter_bits(filter) >= 1);
            assert(fkey@ == field@);
            assert(sample.subrange(0, 0) =~= Seq::<(Seq<u8>, JsonVal)>::empty());
            assert(e0.union(Set::<Seq<u8>>::empty()) =~= e0);
        }
        // pour the sample's strings into the filter
        let mut k: usize = 0;
        while k < index.len()
            invariant
                k <= index.len(),
                filter_elems(filter) == e0.union(sample_strings(sample.subrange(0, k as int))),
                filter_bits(filter) >= 1,
                e0a <= filter_acks(filter),
                filter_elems(filter) <= filter_acks(filter),
            decreases index.len() - k,
        {
            let ghost pre = sample.subrange(0, k as int);
            proof {
                assert(sample.subrange(0, k + 1).subrange(0, k as int) =~= pre);
                assert(sample.subrange(0, k + 1)[k as int] == sample[k as int]);
                assert(sample[k as int] == (index@[k as int].0@, index@[k as int].1@));
            }
            match &index[k].1 {
                JsonValue::Str(st) => {
                    let ghost preelems = filter_elems(filter);
                    let ghost preacks = filter_acks(filter);
                    filter_insert(&mut filter, st.as_slice());
                    proof {
                        assert(sample[k as int].1 == JsonVal::Str(st@));
                        assert(sample_strings(sample.subrange(0, k + 1)) == sample_strings(
                            pre,
                        ).insert(st@));
                        assert(e0.union(sample_strings(pre)).insert(st@) =~= e0.union(
                            sample_strings(pre).insert(st@),
                        ));
                        assert(filter_elems(filter) <= filter_acks(filter)) by {
                            assert forall|x: Seq<u8>|
                                filter_elems(filter).contains(x) implies filter_acks(
                                filter,
                            ).contains(x) by {
                                if x != st@ {
                                    assert(preelems.contains(x));
                                    assert(preacks.contains(x));
                                }
                            }
                        }
                    }
                },
                _ => {
                    proof {
                        assert(sample_strings(sample.subrange(0, k + 1)) == sample_strings(pre));
                    }
                },
            }
            k = k + 1;
        }
        proof {
            assert(sample.subrange(0, sample.len() as int) =~= sample);
        }
        let ghost preq2 = self.field_indexes@;
        let ghost filterg = filter;
        self.field_indexes.push((fkey, filter));
        proof {
            assert(self.field_indexes@ == preq2.push(self.field_indexes@[self.field_indexes@.len()
                - 1]));
            assert(view_fields(self.field_indexes@) =~= mid.push((field@, filterg)));
            assert(obj_set(mid, field@, filterg) == mid.push((field@, filterg)));
            lemma_obj_set(mid, field@, filterg);
            assert(obj_get(view_fields(self.field_indexes@), field@) == filterg);
            assert(e0a <= filter_acks(filterg));
            // every filter in the final list is usable and without false
            // negatives
            assert forall|ii: int| 0 <= ii < self.field_indexes@.len() implies filter_bits(
                #[trigger] self.field_indexes@[ii].1,
            ) >= 1 && filter_elems(self.field_indexes@[ii].1) <= filter_acks(
                self.field_indexes@[ii].1,
            ) by {
                if ii < preq2.len() {
                    assert(self.field_indexes@[ii] == preq2[ii]);
                    if obj_has_key(fv0, field@) {
                        let fi = crate::json::obj_key_idx(fv0, field@);
                        preq.remove_ensures(fi);
                        if ii < fi {
                            assert(preq2[ii] == preq[ii]);
                        } else {
                            assert(preq2[ii] == preq[ii + 1]);
                        }
                    } else {
                        assert(preq2[ii] == preq[ii]);
                    }
                }
            }
        }
        index
    }
}

/// Sparse-index soundness: a string value that actually stands in the sample
/// an index was built from is afterwards among the field's filter elements —
/// `create_index` leaves the filter holding every sampled string, and
/// `exists_in_index` must answer true for every filter element. There are no
/// false negatives against the sample; false positives remain possible, and a
/// field never indexed answers false.
pub proof fn lemma_index_no_false_negatives(
    before: Set<Seq<u8>>,
    sample: Seq<(Seq<u8>, JsonVal)>,
    i: int,
    s: Seq<u8>,
)
    requires
        0 <= i < sample.len(),
        sample[i].1 == JsonVal::Str(s),
    ensures
        before.union(sample_strings(sample)).contains(s),
{
    lemma_sample_strings_member(sample, i, s);
}

} // verus!
