//! Record buckets: the entries one record file holds.
//!
//! A record file is addressed by a digest, and two distinct keys may share
//! a digest. So a record holds a *bucket*: every key/value pair whose key
//! digests to the file's name, each key stored in full next to its value.
//! Storing replaces the value of the one entry with the same key, or
//! appends a new entry; retrieving returns the value of the entry whose
//! key matches exactly. A colliding key therefore never overwrites
//! another key's value.

use crate::digest::digest_of;
use vstd::prelude::*;
use vstd::string::StringExecFns;

verus! {

/// One stored pair: the full key and its current value.
pub struct Entry {
    pub key: String,
    pub value: String,
}

/// The views of a bucket's entries, as plain character sequences.
pub open spec fn views_of(b: Seq<Entry>) -> Seq<(Seq<char>, Seq<char>)> {
    b.map_values(|e: Entry| (e.key@, e.value@))
}

/// The mapping a bucket represents; a later entry for a key would
/// override an earlier one.
pub open spec fn bucket_map(vs: Seq<(Seq<char>, Seq<char>)>) -> Map<Seq<char>, Seq<char>>
    decreases vs.len(),
{
    if vs.len() == 0 {
        Map::empty()
    } else {
        bucket_map(vs.drop_last()).insert(vs.last().0, vs.last().1)
    }
}

/// A well-formed bucket holds each key at most once.
pub open spec fn pairs_wf(vs: Seq<(Seq<char>, Seq<char>)>) -> bool {
    forall|i: int, j: int| 0 <= i < j < vs.len() ==> (#[trigger] vs[i]).0 != (#[trigger] vs[j]).0
}

/// Every key of the bucket digests to `d`: the bucket belongs in the
/// record file named by `d`.
pub open spec fn pairs_keyed_by(vs: Seq<(Seq<char>, Seq<char>)>, d: u64) -> bool {
    forall|i: int| 0 <= i < vs.len() ==> digest_of((#[trigger] vs[i]).0) == d
}

/// A bucket's map holds exactly the keys of its entries.
pub proof fn lemma_bucket_map_contains(vs: Seq<(Seq<char>, Seq<char>)>, k: Seq<char>)
    ensures
        bucket_map(vs).contains_key(k) <==> (exists|i: int|
            0 <= i < vs.len() && (#[trigger] vs[i]).0 == k),
    decreases vs.len(),
{
    if vs.len() > 0 {
        lemma_bucket_map_contains(vs.drop_last(), k);
        if vs.last().0 == k {
            assert(vs[vs.len() - 1].0 == k);
        } else {
            if bucket_map(vs).contains_key(k) {
                let i = choose|i: int|
                    0 <= i < vs.drop_last().len() && (#[trigger] vs.drop_last()[i]).0 == k;
                assert(vs[i].0 == k);
            }
            if exists|i: int| 0 <= i < vs.len() && (#[trigger] vs[i]).0 == k {
                let i = choose|i: int| 0 <= i < vs.len() && (#[trigger] vs[i]).0 == k;
                assert(i < vs.len() - 1);
                assert(vs.drop_last()[i].0 == k);
            }
        }
    }
}

/// In a well-formed bucket, the entry for a key determines the map's
/// value at that key.
pub proof fn lemma_bucket_map_at(vs: Seq<(Seq<char>, Seq<char>)>, i: int)
    requires
        pairs_wf(vs),
        0 <= i < vs.len(),
    ensures
        bucket_map(vs).contains_key(vs[i].0),
        bucket_map(vs)[vs[i].0] == vs[i].1,
    decreases vs.len(),
{
    if i < vs.len() - 1 {
        assert(pairs_wf(vs.drop_last()));
        lemma_bucket_map_at(vs.drop_last(), i);
        assert(vs.last().0 != vs[i].0);
        assert(vs.drop_last()[i] == vs[i]);
    }
}

/// Replacing the entry at `i` by one with the same key updates the
/// bucket's map at that key alone, and keeps the bucket well formed.
pub proof fn lemma_bucket_map_update(
    vs: Seq<(Seq<char>, Seq<char>)>,
    i: int,
    p: (Seq<char>, Seq<char>),
)
    requires
        pairs_wf(vs),
        0 <= i < vs.len(),
        p.0 == vs[i].0,
    ensures
        bucket_map(vs.update(i, p)) == bucket_map(vs).insert(p.0, p.1),
        pairs_wf(vs.update(i, p)),
    decreases vs.len(),
{
    let vs2 = vs.update(i, p);
    assert(forall|x: int| 0 <= x < vs.len() && x != i ==> vs2[x] == vs[x]);
    assert(pairs_wf(vs2));
    if i == vs.len() - 1 {
        assert(vs2.drop_last() =~= vs.drop_last());
        assert(vs2.last() == p);
        assert(bucket_map(vs.drop_last()).insert(vs.last().0, vs.last().1).insert(p.0, p.1)
            =~= bucket_map(vs.drop_last()).insert(p.0, p.1));
    } else {
        assert(pairs_wf(vs.drop_last()));
        assert(vs2.drop_last() =~= vs.drop_last().update(i, p));
        lemma_bucket_map_update(vs.drop_last(), i, p);
        assert(vs2.last() == vs.last());
        assert(vs.last().0 != vs[i].0);
        assert(bucket_map(vs.drop_last()).insert(p.0, p.1).insert(vs.last().0, vs.last().1)
            =~= bucket_map(vs.drop_last()).insert(vs.last().0, vs.last().1).insert(p.0, p.1));
    }
}

/// Appending an entry adds exactly its pair to the bucket's map.
pub proof fn lemma_bucket_map_push(vs: Seq<(Seq<char>, Seq<char>)>, p: (Seq<char>, Seq<char>))
    ensures
        bucket_map(vs.push(p)) == bucket_map(vs).insert(p.0, p.1),
{
    assert(vs.push(p).drop_last() =~= vs);
    assert(vs.push(p).last() == p);
}

/// Looks up the value stored for `key` in a bucket.
pub fn bucket_get(b: &Vec<Entry>, key: &str) -> (r: Option<String>)
    requires
        pairs_wf(views_of(b@)),
    ensures
        match r {
            Some(v) => bucket_map(views_of(b@)).contains_key(key@) && v@ == bucket_map(
                views_of(b@),
            )[key@],
            None => !bucket_map(views_of(b@)).contains_key(key@),
        },
{
    let key_s = String::from_str(key);
    let mut i: usize = 0;
    while i < b.len()
        invariant
            i <= b@.len(),
            pairs_wf(views_of(b@)),
            key_s@ == key@,
            forall|j: int| 0 <= j < i ==> (#[trigger] views_of(b@)[j]).0 != key@,
        decreases b@.len() - i,
    {
        if b[i].key == key_s {
            proof {
                assert(views_of(b@)[i as int].0 == key@);
                lemma_bucket_map_at(views_of(b@), i as int);
            }
            return Some(b[i].value.clone());
        }
        proof {
            assert(views_of(b@)[i as int].0 == b@[i as int].key@);
        }
        i = i + 1;
    }
    proof {
        lemma_bucket_map_contains(views_of(b@), key@);
    }
    None
}

/// Stores `value` under `key` in a bucket: replaces the value of the
/// entry with that exact key, or appends a new entry. The bucket's map
/// gains exactly that pair; well-formedness and the digest discipline
/// are kept.
pub fn bucket_set(b: &mut Vec<Entry>, key: &str, value: &str)
    requires
        pairs_wf(views_of(old(b)@)),
    ensures
        pairs_wf(views_of(final(b)@)),
        bucket_map(views_of(final(b)@)) == bucket_map(views_of(old(b)@)).insert(key@, value@),
        forall|d: u64|
            pairs_keyed_by(views_of(old(b)@), d) && digest_of(key@) == d ==> pairs_keyed_by(
                views_of(final(b)@),
                d,
            ),
{
    let key_s = String::from_str(key);
    let mut i: usize = 0;
    while i < b.len()
        invariant
            i <= b@.len(),
            b@ == old(b)@,
            pairs_wf(views_of(b@)),
            key_s@ == key@,
            forall|j: int| 0 <= j < i ==> (#[trigger] views_of(b@)[j]).0 != key@,
        decreases b@.len() - i,
    {
        if b[i].key == key_s {
            let e = Entry { key: b[i].key.clone(), value: String::from_str(value) };
            proof {
                assert(e.key@ == views_of(b@)[i as int].0);
            }
            b.set(i, e);
            proof {
                assert(views_of(b@) =~= views_of(old(b)@).update(i as int, (key@, value@)));
                lemma_bucket_map_update(views_of(old(b)@), i as int, (key@, value@));
            }
            return;
        }
        proof {
            assert(views_of(b@)[i as int].0 == b@[i as int].key@);
        }
        i = i + 1;
    }
    let e = Entry { key: String::from_str(key), value: String::from_str(value) };
    b.push(e);
    proof {
        assert(views_of(b@) =~= views_of(old(b)@).push((key@, value@)));
        lemma_bucket_map_push(views_of(old(b)@), (key@, value@));
        assert(forall|j: int|
            0 <= j < old(b)@.len() ==> (#[trigger] views_of(b@)[j]) == views_of(old(b)@)[j]);
        assert(pairs_wf(views_of(b@)));
    }
}

} // verus!
