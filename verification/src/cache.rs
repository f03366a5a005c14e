//! The search-result cache: memoized search answers keyed by a canonical
//! URL-shaped string built from the container, the collection, the query and,
//! when one is given, the field.
//!
//! The cache is a capability handed to the caller, not ambient state. On a
//! miss the caller computes the result once and stores it before answering.
//! The cache must be invalidated or bypassed whenever the underlying
//! collection is mutated after an entry was written: `invalidate_prefix`
//! clears every cached search of a collection or of a whole database, and the
//! coverage lemmas show that every key a search can be stored under falls to
//! it. Two concurrent identical misses may both compute and both store; the
//! last write wins, which is harmless because the computation is
//! deterministic for one snapshot.

use crate::json::{lemma_obj_key_idx, obj_find, obj_get, obj_has_key, obj_keys_unique, obj_set, wf,
    JsonVal, JsonValue};
use crate::search::{opt_view, search_json, search_spec};
use vstd::prelude::*;

verus! {

/// The model of the entry list: keys and the cached identifier lists.
pub open spec fn view_entries(es: Seq<(Vec<u8>, Vec<Vec<u8>>)>) -> Seq<(Seq<u8>, Seq<Seq<u8>>)>
    decreases es,
{
    if es.len() == 0 {
        Seq::empty()
    } else {
        view_entries(es.subrange(0, es.len() - 1)).push(
            (es[es.len() - 1].0@, es[es.len() - 1].1.deep_view()),
        )
    }
}

pub broadcast proof fn lemma_view_entries_len(es: Seq<(Vec<u8>, Vec<Vec<u8>>)>)
    ensures
        #[trigger] view_entries(es).len() == es.len(),
    decreases es,
{
    if es.len() > 0 {
        lemma_view_entries_len(es.subrange(0, es.len() - 1));
        assert(view_entries(es) == view_entries(es.subrange(0, es.len() - 1)).push(
            (es[es.len() - 1].0@, es[es.len() - 1].1.deep_view()),
        ));
    } else {
        assert(view_entries(es) == Seq::<(Seq<u8>, Seq<Seq<u8>>)>::empty());
    }
}

pub broadcast proof fn lemma_view_entries_index(es: Seq<(Vec<u8>, Vec<Vec<u8>>)>, i: int)
    requires
        0 <= i < es.len(),
    ensures
        #[trigger] view_entries(es)[i] == (es[i].0@, es[i].1.deep_view()),
    decreases es,
{
    lemma_view_entries_len(es);
    lemma_view_entries_len(es.subrange(0, es.len() - 1));
    assert(view_entries(es) == view_entries(es.subrange(0, es.len() - 1)).push(
        (es[es.len() - 1].0@, es[es.len() - 1].1.deep_view()),
    ));
    if i < es.len() - 1 {
        lemma_view_entries_index(es.subrange(0, es.len() - 1), i);
        assert(es.subrange(0, es.len() - 1)[i] == es[i]);
    }
}

pub broadcast group group_entries_view {
    lemma_view_entries_len,
    lemma_view_entries_index,
}


/// The entries that survive an invalidation: those whose key does not start
/// with the prefix, in order.
pub open spec fn purge_entries(es: Seq<(Seq<u8>, Seq<Seq<u8>>)>, prefix: Seq<u8>) -> Seq<
    (Seq<u8>, Seq<Seq<u8>>),
>
    decreases es,
{
    if es.len() == 0 {
        es
    } else {
        let rest = purge_entries(es.subrange(1, es.len() as int), prefix);
        if is_prefix(prefix, es[0].0) {
            rest
        } else {
            seq![es[0]] + rest
        }
    }
}

/// What survives an invalidation: exactly the keys outside the prefix, each
/// with its stored value.
proof fn lemma_purge(es: Seq<(Seq<u8>, Seq<Seq<u8>>)>, prefix: Seq<u8>)
    requires
        obj_keys_unique(es),
    ensures
        obj_keys_unique(purge_entries(es, prefix)),
        forall|k: Seq<u8>|
            #[trigger] obj_has_key(purge_entries(es, prefix), k) <==> (obj_has_key(es, k)
                && !is_prefix(prefix, k)),
        forall|k: Seq<u8>|
            #[trigger] obj_has_key(purge_entries(es, prefix), k) ==> obj_get(
                purge_entries(es, prefix),
                k,
            ) == obj_get(es, k),
    decreases es,
{
    if es.len() > 0 {
        let tail = es.subrange(1, es.len() as int);
        assert forall|i: int, j: int| 0 <= i < j < tail.len() implies tail[i].0 != tail[j].0 by {
            assert(tail[i] == es[i + 1] && tail[j] == es[j + 1]);
        }
        lemma_purge(tail, prefix);
        let p = purge_entries(es, prefix);
        let pt = purge_entries(tail, prefix);
        let head_kept = !is_prefix(prefix, es[0].0);
        // uniqueness
        if head_kept {
            assert forall|i: int, j: int| 0 <= i < j < p.len() implies p[i].0 != p[j].0 by {
                if i == 0 {
                    assert(p[j] == pt[j - 1]);
                    assert(obj_has_key(pt, pt[j - 1].0));
                    assert(obj_has_key(tail, pt[j - 1].0));
                    let t = choose|t: int| 0 <= t < tail.len() && tail[t].0 == pt[j - 1].0;
                    assert(es[t + 1].0 == pt[j - 1].0);
                } else {
                    assert(p[i] == pt[i - 1] && p[j] == pt[j - 1]);
                }
            }
        }
        // membership, forward
        assert forall|k: Seq<u8>| #[trigger] obj_has_key(p, k) implies (obj_has_key(es, k)
            && !is_prefix(prefix, k)) by {
            let j = choose|j: int| 0 <= j < p.len() && p[j].0 == k;
            if head_kept && j == 0 {
                assert(es[0].0 == k);
            } else {
                if head_kept {
                    assert(p[j] == pt[j - 1]);
                } else {
                    assert(p[j] == pt[j]);
                }
                assert(obj_has_key(pt, k));
                let t = choose|t: int| 0 <= t < tail.len() && tail[t].0 == k;
                assert(es[t + 1].0 == k);
            }
        }
        // membership, backward
        assert forall|k: Seq<u8>| obj_has_key(es, k) && !is_prefix(prefix, k) implies #[trigger] obj_has_key(
            p,
            k,
        ) by {
            let i = choose|i: int| 0 <= i < es.len() && es[i].0 == k;
            if i == 0 {
                assert(p[0].0 == k);
            } else {
                assert(tail[i - 1].0 == k);
                assert(obj_has_key(tail, k));
                assert(obj_has_key(pt, k));
                let j = choose|j: int| 0 <= j < pt.len() && pt[j].0 == k;
                if head_kept {
                    assert(p[j + 1].0 == k);
                } else {
                    assert(p[j].0 == k);
                }
            }
        }
        // values
        assert forall|k: Seq<u8>| #[trigger] obj_has_key(p, k) implies obj_get(p, k) == obj_get(
            es,
            k,
        ) by {
            let j = choose|j: int| 0 <= j < p.len() && p[j].0 == k;
            if head_kept && j == 0 {
                lemma_obj_key_idx(p, k, 0);
                lemma_obj_key_idx(es, k, 0);
            } else {
                let jt: int = if head_kept {
                    j - 1
                } else {
                    j
                };
                assert(p[j] == pt[jt]);
                assert(obj_has_key(pt, k));
                lemma_obj_key_idx(p, k, j);
                lemma_obj_key_idx(pt, k, jt);
                assert(obj_get(p, k) == obj_get(pt, k));
                assert(obj_get(pt, k) == obj_get(tail, k));
                let t = choose|t: int| 0 <= t < tail.len() && tail[t].0 == k;
                assert(es[t + 1].0 == k);
                lemma_obj_key_idx(tail, k, t);
                lemma_obj_key_idx(es, k, t + 1);
                assert(es[t + 1] == tail[t]);
            }
        }
    }
}

/// Whether a key starts with a prefix.
fn has_prefix(k: &[u8], p: &[u8]) -> (r: bool)
    ensures
        r == is_prefix(p@, k@),
{
    if p.len() > k.len() {
        return false;
    }
    let mut i: usize = 0;
    while i < p.len()
        invariant
            p.len() <= k.len(),
            i <= p.len(),
            forall|j: int| 0 <= j < i ==> k@[j] == p@[j],
        decreases p.len() - i,
    {
        if k[i] != p[i] {
            proof {
                assert(k@.subrange(0, p@.len() as int)[i as int] == k@[i as int]);
            }
            return false;
        }
        i = i + 1;
    }
    proof {
        assert(k@.subrange(0, p@.len() as int) =~= p@);
    }
    true
}

/// An in-memory search-result cache: keys mapped to ordered identifier lists.
pub struct SearchCache {
    entries: Vec<(Vec<u8>, Vec<Vec<u8>>)>,
}

impl SearchCache {
    /// Keys are pairwise distinct.
    pub closed spec fn wf(self) -> bool {
        obj_keys_unique(view_entries(self.entries@))
    }

    /// Whether a key has an entry.
    pub closed spec fn has(self, key: Seq<u8>) -> bool {
        obj_has_key(view_entries(self.entries@), key)
    }

    /// The identifier list stored under a key.
    pub closed spec fn lookup(self, key: Seq<u8>) -> Seq<Seq<u8>> {
        obj_get(view_entries(self.entries@), key)
    }

    /// An empty cache.
    pub fn new() -> (r: SearchCache)
        ensures
            r.wf(),
            forall|k: Seq<u8>| !r.has(k),
    {
        let r = SearchCache { entries: Vec::new() };
        proof {
            broadcast use group_entries_view;

            assert(view_entries(r.entries@) =~= Seq::<(Seq<u8>, Seq<Seq<u8>>)>::empty());
            assert forall|k: Seq<u8>| !r.has(k) by {
                assert(view_entries(r.entries@).len() == 0);
            }
        }
        r
    }

    /// The cached result under a key, if the key has one.
    pub fn get(&self, key: &[u8]) -> (r: Option<&Vec<Vec<u8>>>)
        requires
            self.wf(),
        ensures
            match r {
                Some(v) => self.has(key@) && v.deep_view() == self.lookup(key@),
                None => !self.has(key@),
            },
    {
        proof {
            broadcast use group_entries_view;

        }
        let ghost ev = view_entries(self.entries@);
        match obj_find(&self.entries, key) {
            Some(idx) => {
                proof {
                    assert(ev[idx as int].0 == key@);
                    lemma_obj_key_idx(ev, key@, idx as int);
                    assert(obj_get(ev, key@) == self.entries@[idx as int].1.deep_view());
                }
                Some(&self.entries[idx].1)
            },
            None => {
                proof {
                    assert forall|jj: int| 0 <= jj < ev.len() implies ev[jj].0 != key@ by {
                        assert(ev[jj].0 == self.entries@[jj].0@);
                    }
                }
                None
            },
        }
    }

    /// Stores a result under a key, replacing any previous entry; no other
    /// key is touched.
    pub fn put(&mut self, key: &[u8], result: Vec<Vec<u8>>)
        requires
            old(self).wf(),
        ensures
            final(self).wf(),
            final(self).has(key@),
            final(self).lookup(key@) == result.deep_view(),
            forall|k2: Seq<u8>|
                k2 != key@ ==> #[trigger] final(self).has(k2) == old(self).has(k2),
            forall|k2: Seq<u8>|
                k2 != key@ && old(self).has(k2) ==> #[trigger] final(self).lookup(k2) == old(
                    self,
                ).lookup(k2),
    {
        proof {
            broadcast use group_entries_view;

        }
        let ghost accq = self.entries@;
        let ghost accv = view_entries(self.entries@);
        let ghost rv = result.deep_view();
        match obj_find(&self.entries, key) {
            Some(idx) => {
                proof {
                    assert(accv[idx as int].0 == key@);
                    lemma_obj_key_idx(accv, key@, idx as int);
                    assert(obj_has_key(accv, key@));
                }
                let k = vstd::slice::slice_to_vec(key);
                self.entries[idx] = (k, result);
                proof {
                    assert(self.entries@ == accq.update(idx as int, self.entries@[idx as int]));
                    assert(self.entries@[idx as int].0@ == key@ && self.entries@[idx as int].1.deep_view()
                        == rv);
                    assert(view_entries(self.entries@) =~= accv.update(idx as int, (key@, rv)));
                    assert(view_entries(self.entries@) == obj_set(accv, key@, rv));
                }
            },
            None => {
                proof {
                    assert forall|jj: int| 0 <= jj < accv.len() implies accv[jj].0 != key@ by {
                        assert(accv[jj].0 == accq[jj].0@);
                    }
                    assert(!obj_has_key(accv, key@));
                }
                let k = vstd::slice::slice_to_vec(key);
                self.entries.push((k, result));
                proof {
                    assert(self.entries@ == accq.push(self.entries@[self.entries@.len() - 1]));
                    assert(view_entries(self.entries@) =~= accv.push((key@, rv)));
                    assert(view_entries(self.entries@) == obj_set(accv, key@, rv));
                }
            },
        }
        proof {
            crate::json::lemma_obj_set(accv, key@, rv);
        }
    }

    /// Clears every entry whose key starts with the prefix; every other entry
    /// keeps its value. Called with a collection's (or database's) prefix
    /// after a mutation, so that no stale search outlives the change.
    pub fn invalidate_prefix(&mut self, prefix: &[u8])
        requires
            old(self).wf(),
        ensures
            final(self).wf(),
            forall|k: Seq<u8>|
                #[trigger] final(self).has(k) <==> (old(self).has(k) && !is_prefix(prefix@, k)),
            forall|k: Seq<u8>|
                #[trigger] final(self).has(k) ==> final(self).lookup(k) == old(self).lookup(k),
    {
        proof {
            broadcast use group_entries_view;

        }
        let ghost oldv = view_entries(self.entries@);
        let mut kept: Vec<(Vec<u8>, Vec<Vec<u8>>)> = Vec::new();
        let mut i: usize = 0;
        proof {
            assert(oldv.subrange(0, oldv.len() as int) =~= oldv);
            assert(view_entries(kept@) =~= Seq::<(Seq<u8>, Seq<Seq<u8>>)>::empty());
        }
        while i < self.entries.len()
            invariant
                i <= self.entries@.len(),
                oldv == view_entries(self.entries@),
                view_entries(kept@) + purge_entries(
                    oldv.subrange(i as int, oldv.len() as int),
                    prefix@,
                ) == purge_entries(oldv, prefix@),
            decreases self.entries@.len() - i,
        {
            let ghost rest = oldv.subrange(i as int, oldv.len() as int);
            proof {
                broadcast use group_entries_view;

                assert(oldv.len() == self.entries@.len());
                assert(rest[0] == oldv[i as int]);
                assert(rest.subrange(1, rest.len() as int) =~= oldv.subrange(
                    i + 1,
                    oldv.len() as int,
                ));
                assert(oldv[i as int] == (self.entries@[i as int].0@, self.entries@[i as int].1.deep_view()));
            }
            let ghost prekept = view_entries(kept@);
            if !has_prefix(self.entries[i].0.as_slice(), prefix) {
                let name = vstd::slice::slice_to_vec(self.entries[i].0.as_slice());
                let ids = clone_ids(&self.entries[i].1);
                let ghost preq = kept@;
                kept.push((name, ids));
                proof {
                    assert(kept@ == preq.push(kept@[kept@.len() - 1]));
                    assert(kept@.subrange(0, kept@.len() - 1) =~= preq);
                    assert(view_entries(kept@) =~= prekept.push(oldv[i as int]));
                    assert(prekept + (seq![oldv[i as int]] + purge_entries(
                        oldv.subrange(i + 1, oldv.len() as int),
                        prefix@,
                    )) =~= view_entries(kept@) + purge_entries(
                        oldv.subrange(i + 1, oldv.len() as int),
                        prefix@,
                    ));
                }
            }
            i = i + 1;
        }
        proof {
            assert(purge_entries(oldv.subrange(oldv.len() as int, oldv.len() as int), prefix@)
                =~= Seq::<(Seq<u8>, Seq<Seq<u8>>)>::empty());
            assert(view_entries(kept@) + Seq::<(Seq<u8>, Seq<Seq<u8>>)>::empty() =~= view_entries(
                kept@,
            ));
            assert(view_entries(kept@) == purge_entries(oldv, prefix@));
            lemma_purge(oldv, prefix@);
        }
        self.entries = kept;
    }
}

/// The bytes of `https://gistdb.com/search/`, the root of every cache key.
pub open spec fn search_base() -> Seq<u8> {
    seq![
        0x68u8, 0x74, 0x74, 0x70, 0x73, 0x3a, 0x2f, 0x2f, 0x67, 0x69, 0x73, 0x74, 0x64, 0x62,
        0x2e, 0x63, 0x6f, 0x6d, 0x2f, 0x73, 0x65, 0x61, 0x72, 0x63, 0x68, 0x2f,
    ]
}

/// The common front of every cache key of one database.
pub open spec fn database_prefix_of(gist_id: Seq<u8>) -> Seq<u8> {
    search_base() + gist_id + seq![0x2fu8]
}

/// The common front of every cache key of one collection.
pub open spec fn collection_prefix_of(gist_id: Seq<u8>, collection_name: Seq<u8>) -> Seq<u8> {
    database_prefix_of(gist_id) + collection_name + seq![0x2fu8]
}

/// The canonical cache key: `https://gistdb.com/search/` followed by the
/// container ID, the collection name, the query and, when one is given, the
/// field, as slash-separated segments.
pub open spec fn cache_key_of(
    gist_id: Seq<u8>,
    collection_name: Seq<u8>,
    query: Seq<u8>,
    field: Option<Seq<u8>>,
) -> Seq<u8> {
    let base = collection_prefix_of(gist_id, collection_name) + query;
    match field {
        Some(f) => base + seq![0x2fu8] + f,
        None => base,
    }
}

/// One byte string starts with another.
pub open spec fn is_prefix(p: Seq<u8>, k: Seq<u8>) -> bool {
    p.len() <= k.len() && k.subrange(0, p.len() as int) == p
}

/// Every key a search of a collection can be cached under starts with that
/// collection's prefix: invalidating the prefix after a mutation clears them
/// all.
pub proof fn lemma_collection_prefix_covers(
    gist_id: Seq<u8>,
    collection_name: Seq<u8>,
    query: Seq<u8>,
    field: Option<Seq<u8>>,
)
    ensures
        is_prefix(
            collection_prefix_of(gist_id, collection_name),
            cache_key_of(gist_id, collection_name, query, field),
        ),
{
    let p = collection_prefix_of(gist_id, collection_name);
    let k = cache_key_of(gist_id, collection_name, query, field);
    assert(k.subrange(0, p.len() as int) =~= p);
}

/// Every key a search of a database can be cached under starts with that
/// database's prefix: deleting the database can clear them all.
pub proof fn lemma_database_prefix_covers(
    gist_id: Seq<u8>,
    collection_name: Seq<u8>,
    query: Seq<u8>,
    field: Option<Seq<u8>>,
)
    ensures
        is_prefix(
            database_prefix_of(gist_id),
            cache_key_of(gist_id, collection_name, query, field),
        ),
{
    let p = database_prefix_of(gist_id);
    let k = cache_key_of(gist_id, collection_name, query, field);
    assert(k.subrange(0, p.len() as int) =~= p);
}


/// Writes the root of every cache key.
fn push_search_base(out: &mut Vec<u8>)
    ensures
        final(out)@ == old(out)@ + search_base(),
{
    out.push(0x68);
    out.push(0x74);
    out.push(0x74);
    out.push(0x70);
    out.push(0x73);
    out.push(0x3a);
    out.push(0x2f);
    out.push(0x2f);
    out.push(0x67);
    out.push(0x69);
    out.push(0x73);
    out.push(0x74);
    out.push(0x64);
    out.push(0x62);
    out.push(0x2e);
    out.push(0x63);
    out.push(0x6f);
    out.push(0x6d);
    out.push(0x2f);
    out.push(0x73);
    out.push(0x65);
    out.push(0x61);
    out.push(0x72);
    out.push(0x63);
    out.push(0x68);
    out.push(0x2f);
    proof {
        assert(out@ =~= old(out)@ + search_base());
    }
}

/// Builds the prefix of every cache key of one database.
pub fn database_search_prefix(gist_id: &[u8]) -> (r: Vec<u8>)
    ensures
        r@ == database_prefix_of(gist_id@),
{
    let mut out: Vec<u8> = Vec::new();
    push_search_base(&mut out);
    append_bytes(&mut out, gist_id);
    out.push(0x2f);
    proof {
        assert(out@ =~= database_prefix_of(gist_id@));
    }
    out
}

/// Builds the prefix of every cache key of one collection.
pub fn collection_search_prefix(gist_id: &[u8], collection_name: &[u8]) -> (r: Vec<u8>)
    ensures
        r@ == collection_prefix_of(gist_id@, collection_name@),
{
    let mut out = database_search_prefix(gist_id);
    append_bytes(&mut out, collection_name);
    out.push(0x2f);
    proof {
        assert(out@ =~= collection_prefix_of(gist_id@, collection_name@));
    }
    out
}

/// Builds the canonical cache key for a search.
pub fn cache_key(
    gist_id: &[u8],
    collection_name: &[u8],
    query: &[u8],
    field: Option<&[u8]>,
) -> (r: Vec<u8>)
    ensures
        r@ == cache_key_of(gist_id@, collection_name@, query@, opt_view(field)),
{
    let mut out = collection_search_prefix(gist_id, collection_name);
    append_bytes(&mut out, query);
    match field {
        Some(f) => {
            out.push(0x2f);
            append_bytes(&mut out, f);
        },
        None => {},
    }
    proof {
        assert(out@ =~= cache_key_of(gist_id@, collection_name@, query@, opt_view(field)));
    }
    out
}

/// Appends a byte string to a buffer.
pub fn append_bytes(out: &mut Vec<u8>, s: &[u8])
    ensures
        final(out)@ == old(out)@ + s@,
{
    let mut i: usize = 0;
    while i < s.len()
        invariant
            i <= s.len(),
            out@ == old(out)@ + s@.subrange(0, i as int),
        decreases s.len() - i,
    {
        out.push(s[i]);
        proof {
            assert(old(out)@ + s@.subrange(0, i + 1) =~= (old(out)@ + s@.subrange(0, i as int)).push(
                s@[i as int],
            ));
        }
        i = i + 1;
    }
    proof {
        assert(s@.subrange(0, s@.len() as int) =~= s@);
    }
}

/// Copies an identifier list.
fn clone_ids(ids: &Vec<Vec<u8>>) -> (r: Vec<Vec<u8>>)
    ensures
        r.deep_view() == ids.deep_view(),
{
    let mut out: Vec<Vec<u8>> = Vec::new();
    let mut i: usize = 0;
    while i < ids.len()
        invariant
            i <= ids.len(),
            out@.len() == i,
            forall|j: int| 0 <= j < i ==> out@[j]@ == ids@[j]@,
        decreases ids.len() - i,
    {
        out.push(vstd::slice::slice_to_vec(ids[i].as_slice()));
        i = i + 1;
    }
    proof {
        assert(out.deep_view() =~~= ids.deep_view());
    }
    out
}

/// Answers a search through the cache: a hit returns the stored list and
/// leaves the cache unchanged; a miss runs the search once over the given
/// snapshot, stores the result under the key, and returns it.
pub fn cached_search(
    cache: &mut SearchCache,
    key: &[u8],
    data: &JsonValue,
    query: &[u8],
    field: Option<&[u8]>,
) -> (r: Vec<Vec<u8>>)
    requires
        old(cache).wf(),
        wf(data@),
    ensures
        final(cache).wf(),
        old(cache).has(key@) ==> {
            &&& r.deep_view() == old(cache).lookup(key@)
            &&& *final(cache) == *old(cache)
        },
        !old(cache).has(key@) ==> {
            &&& r.deep_view() == (match data@ {
                JsonVal::Obj(m) => search_spec(m, query@, opt_view(field)),
                _ => Seq::<Seq<u8>>::empty(),
            })
            &&& final(cache).has(key@)
            &&& final(cache).lookup(key@) == r.deep_view()
            &&& forall|k2: Seq<u8>|
                k2 != key@ ==> #[trigger] final(cache).has(k2) == old(cache).has(k2)
            &&& forall|k2: Seq<u8>|
                k2 != key@ && old(cache).has(k2) ==> #[trigger] final(cache).lookup(k2) == old(
                    cache,
                ).lookup(k2)
        },
{
    match cache.get(key) {
        Some(v) => clone_ids(v),
        None => {
            let r = search_json(data, query, field);
            let stored = clone_ids(&r);
            cache.put(key, stored);
            r
        },
    }
}

} // verus!
