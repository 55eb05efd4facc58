//! The file-per-key store engine.
//!
//! `DB` is the store's state: for each digest, the bucket of entries the
//! record file of that digest holds. Its view is the key-to-value map
//! the store represents, and `store`/`retrive` are verified against that
//! map, so storing under one key never disturbs another key — even when
//! the two keys' digests collide.
//!
//! The unverified file layer keeps each bucket encoded in one record
//! file. It calls `updated_content` and `content_lookup` to transform
//! and read record file contents, and `record_file_name` to place them;
//! it only moves the resulting strings between this module and the disk.

use crate::codec::{decode_bucket, encode_bucket, lemma_codec_roundtrip, parse_bucket};
use crate::digest::{calculate_hash, digest_of};
use crate::numeral::{dec_digits, u64_to_decimal};
use crate::record::{
    bucket_get, bucket_map, bucket_set, pairs_keyed_by, pairs_wf, views_of, Entry,
};
use std::collections::HashMap;
use vstd::prelude::*;

verus! {

broadcast use vstd::std_specs::hash::group_hash_axioms;

/// The name of the record file that stores `key`, relative to the store
/// root: the decimal rendering of the key's digest.
pub fn record_file_name(key: &str) -> (r: String)
    ensures
        r@ == dec_digits(digest_of(key@) as nat),
{
    u64_to_decimal(calculate_hash(key))
}

/// The well-formed bucket a record file's content denotes, if any:
/// the content must parse and hold each key at most once.
pub open spec fn content_bucket(c: Seq<char>) -> Option<Seq<(Seq<char>, Seq<char>)>> {
    match parse_bucket(c) {
        None => None,
        Some(vs) => if pairs_wf(vs) {
            Some(vs)
        } else {
            None
        },
    }
}

/// The bucket an optional record file denotes: an absent file is an
/// empty record.
pub open spec fn stored_bucket(content: Option<Seq<char>>) -> Option<Seq<(Seq<char>, Seq<char>)>> {
    match content {
        None => Some(Seq::empty()),
        Some(c) => content_bucket(c),
    }
}

/// The view of an optional borrowed content string.
pub open spec fn content_view(content: Option<&str>) -> Option<Seq<char>> {
    match content {
        None => None,
        Some(c) => Some(c@),
    }
}

/// Checks that a bucket holds each key at most once.
fn bucket_distinct(b: &Vec<Entry>) -> (r: bool)
    ensures
        r == pairs_wf(views_of(b@)),
{
    let mut i: usize = 0;
    while i < b.len()
        invariant
            i <= b@.len(),
            forall|x: int, y: int|
                0 <= x < y < b@.len() && x < i ==> (#[trigger] views_of(b@)[x]).0 != (
                #[trigger] views_of(b@)[y]).0,
        decreases b@.len() - i,
    {
        let mut j: usize = i + 1;
        while j < b.len()
            invariant
                i < j <= b@.len(),
                i < b@.len(),
                forall|x: int, y: int|
                    0 <= x < y < b@.len() && x < i ==> (#[trigger] views_of(b@)[x]).0 != (
                    #[trigger] views_of(b@)[y]).0,
                forall|y: int|
                    i < y < j ==> (#[trigger] views_of(b@)[y]).0 != views_of(b@)[i as int].0,
            decreases b@.len() - j,
        {
            if b[i].key == b[j].key {
                proof {
                    assert(views_of(b@)[i as int].0 == views_of(b@)[j as int].0);
                }
                return false;
            }
            proof {
                assert(views_of(b@)[j as int].0 == b@[j as int].key@);
            }
            j = j + 1;
        }
        i = i + 1;
    }
    true
}

/// The outcome of looking a key up in one record file.
#[derive(Debug)]
pub enum RetrieveOutcome {
    /// The record holds this value for the key.
    Found(String),
    /// The record holds no entry for the key.
    NotFound,
    /// The content does not parse as a record, or holds a key twice.
    Corrupt,
}

/// The new content of a record file after storing `value` under `key`.
/// An absent file is treated as an empty record; corrupt existing
/// content is reported as `None` rather than silently overwritten.
pub fn updated_content(content: Option<&str>, key: &str, value: &str) -> (r: Option<String>)
    ensures
        r is Some <==> stored_bucket(content_view(content)) is Some,
        r matches Some(c2) ==> {
            &&& content_bucket(c2@) is Some
            &&& bucket_map(content_bucket(c2@)->Some_0) == bucket_map(
                stored_bucket(content_view(content))->Some_0,
            ).insert(key@, value@)
        },
{
    let mut bucket: Vec<Entry> = match content {
        None => Vec::new(),
        Some(c) => {
            match decode_bucket(c) {
                None => {
                    return None;
                },
                Some(b) => b,
            }
        },
    };
    if !bucket_distinct(&bucket) {
        return None;
    }
    proof {
        assert(views_of(bucket@) == stored_bucket(content_view(content))->Some_0);
    }
    bucket_set(&mut bucket, key, value);
    let c2 = encode_bucket(&bucket);
    proof {
        lemma_codec_roundtrip(views_of(bucket@));
    }
    Some(c2)
}

/// Looks `key` up in a record file's content; an absent file holds
/// nothing, and content that is not a well-formed record is reported
/// as corrupt rather than read as someone else's value.
pub fn content_lookup(content: Option<&str>, key: &str) -> (r: RetrieveOutcome)
    ensures
        ({
            let sb = stored_bucket(content_view(content));
            match r {
                RetrieveOutcome::Found(v) => sb is Some && bucket_map(sb->Some_0).contains_key(
                    key@,
                ) && v@ == bucket_map(sb->Some_0)[key@],
                RetrieveOutcome::NotFound => sb is Some && !bucket_map(sb->Some_0).contains_key(
                    key@,
                ),
                RetrieveOutcome::Corrupt => sb is None,
            }
        }),
{
    let bucket: Vec<Entry> = match content {
        None => {
            return RetrieveOutcome::NotFound;
        },
        Some(c) => {
            match decode_bucket(c) {
                None => {
                    return RetrieveOutcome::Corrupt;
                },
                Some(b) => b,
            }
        },
    };
    if !bucket_distinct(&bucket) {
        return RetrieveOutcome::Corrupt;
    }
    match bucket_get(&bucket, key) {
        Some(v) => RetrieveOutcome::Found(v),
        None => RetrieveOutcome::NotFound,
    }
}

/// The store: a root path and, for each digest, the bucket its record
/// file holds.
pub struct DB {
    root: String,
    files: HashMap<u64, Vec<Entry>>,
}

impl View for DB {
    type V = Map<Seq<char>, Seq<char>>;

    /// The key-to-value mapping the store holds.
    closed spec fn view(&self) -> Map<Seq<char>, Seq<char>> {
        Map::new(
            |k: Seq<char>|
                self.files@.contains_key(digest_of(k)) && bucket_map(
                    views_of(self.files@[digest_of(k)]@),
                ).contains_key(k),
            |k: Seq<char>| bucket_map(views_of(self.files@[digest_of(k)]@))[k],
        )
    }
}

impl DB {
    /// The root path this store was opened with.
    pub closed spec fn root_spec(&self) -> Seq<char> {
        self.root@
    }

    /// Every bucket is well formed and keyed by its own digest.
    pub closed spec fn wf(&self) -> bool {
        forall|d: u64|
            self.files@.contains_key(d) ==> {
                &&& pairs_wf(views_of((#[trigger] self.files@[d])@))
                &&& pairs_keyed_by(views_of(self.files@[d]@), d)
            }
    }

    /// Opens a store bound to `path`, holding nothing yet.
    pub fn new(path: String) -> (db: DB)
        ensures
            db.wf(),
            db@ == Map::<Seq<char>, Seq<char>>::empty(),
            db.root_spec() == path@,
    {
        let db = DB { root: path, files: HashMap::new() };
        proof {
            assert(db@ =~= Map::<Seq<char>, Seq<char>>::empty());
        }
        db
    }

    /// Stores `value` under `key`: afterwards the store maps `key` to
    /// `value` and every other key to exactly what it mapped before,
    /// whether or not the other key's digest collides with this one's.
    pub fn store(&mut self, key: &String, val: &String)
        requires
            old(self).wf(),
        ensures
            final(self).wf(),
            final(self)@ == old(self)@.insert(key@, val@),
            final(self).root_spec() == old(self).root_spec(),
    {
        let d = calculate_hash(key.as_str());
        let mut bucket: Vec<Entry> = match self.files.remove(&d) {
            Some(b) => b,
            None => Vec::new(),
        };
        proof {
            assert(pairs_wf(views_of(bucket@)));
            assert(pairs_keyed_by(views_of(bucket@), d));
        }
        let ghost old_bucket_views = views_of(bucket@);
        bucket_set(&mut bucket, key.as_str(), val.as_str());
        self.files.insert(d, bucket);
        proof {
            let ghost nb = views_of(bucket@);
            assert(self.files@ =~= old(self).files@.insert(d, bucket));
            assert forall|d2: u64| self.files@.contains_key(d2) implies {
                &&& pairs_wf(views_of((#[trigger] self.files@[d2])@))
                &&& pairs_keyed_by(views_of(self.files@[d2]@), d2)
            } by {
                if d2 != d {
                    assert(old(self).files@.contains_key(d2));
                }
            }
            let m_new = self@;
            let m_expect = old(self)@.insert(key@, val@);
            assert forall|k: Seq<char>| m_new.contains_key(k) implies m_expect.contains_key(k)
                && m_new[k] == m_expect[k] by {
                if digest_of(k) == d {
                    if k != key@ {
                        assert(bucket_map(nb)[k] == bucket_map(old_bucket_views)[k]);
                        assert(old(self).files@.contains_key(d));
                    }
                }
            }
            assert forall|k: Seq<char>| m_expect.contains_key(k) implies m_new.contains_key(
                k,
            ) by {
                if k == key@ {
                    assert(bucket_map(nb).contains_key(k));
                } else {
                    if digest_of(k) == d {
                        assert(old(self).files@.contains_key(d));
                        assert(bucket_map(old_bucket_views).contains_key(k));
                        assert(bucket_map(nb).contains_key(k));
                    }
                }
            }
            assert(m_new =~= m_expect);
        }
    }

    /// Retrieves the value most recently stored under `key`, or nothing
    /// if no value was ever stored under `key`.
    pub fn retrive(&self, key: &String) -> (r: Option<String>)
        requires
            self.wf(),
        ensures
            match r {
                Some(v) => self@.contains_key(key@) && v@ == self@[key@],
                None => !self@.contains_key(key@),
            },
    {
        let d = calculate_hash(key.as_str());
        match self.files.get(&d) {
            None => {
                proof {
                    assert(!self@.contains_key(key@));
                }
                None
            },
            Some(bucket) => {
                let r = bucket_get(bucket, key.as_str());
                proof {
                    assert(self.files@[d] == *bucket);
                }
                r
            },
        }
    }

    /// Stores `value` under `key`.
    pub fn set(&mut self, key: &String, val: &String)
        requires
            old(self).wf(),
        ensures
            final(self).wf(),
            final(self)@ == old(self)@.insert(key@, val@),
            final(self).root_spec() == old(self).root_spec(),
    {
        self.store(key, val)
    }

    /// The root path the store is bound to.
    pub fn root(&self) -> (r: &String)
        ensures
            r@ == self.root_spec(),
    {
        &self.root
    }

    /// Retrieves the value stored under `key`, if any.
    pub fn get(&self, key: &String) -> (r: Option<String>)
        requires
            self.wf(),
        ensures
            match r {
                Some(v) => self@.contains_key(key@) && v@ == self@[key@],
                None => !self@.contains_key(key@),
            },
    {
        self.retrive(key)
    }
}

/// The abstract lookup: what retrieval answers on a store whose view is
/// the map `m`.
pub open spec fn retrieve_spec(m: Map<Seq<char>, Seq<char>>, k: Seq<char>) -> Option<Seq<char>> {
    if m.contains_key(k) {
        Some(m[k])
    } else {
        None
    }
}

/// Round trip: after storing `v` under `k`, with no other write in
/// between, retrieving `k` yields exactly `v`.
pub proof fn lemma_round_trip(m: Map<Seq<char>, Seq<char>>, k: Seq<char>, v: Seq<char>)
    ensures
        retrieve_spec(m.insert(k, v), k) == Some(v),
{
}

/// Overwrite: storing `v1` and then `v2` under the same key leaves
/// exactly `v2` — never `v1`, never a mixture.
pub proof fn lemma_overwrite(
    m: Map<Seq<char>, Seq<char>>,
    k: Seq<char>,
    v1: Seq<char>,
    v2: Seq<char>,
)
    ensures
        retrieve_spec(m.insert(k, v1).insert(k, v2), k) == Some(v2),
{
}

/// Absence: a key never stored retrieves nothing.
pub proof fn lemma_absence(m: Map<Seq<char>, Seq<char>>, k: Seq<char>)
    requires
        !m.contains_key(k),
    ensures
        retrieve_spec(m, k) is None,
{
}

/// Collision policy: storing under two distinct keys keeps both values
/// intact, even when the keys' digests are equal — the second store
/// never overwrites the first key's record.
pub proof fn lemma_collision_safe(
    m: Map<Seq<char>, Seq<char>>,
    k1: Seq<char>,
    v1: Seq<char>,
    k2: Seq<char>,
    v2: Seq<char>,
)
    requires
        k1 != k2,
    ensures
        retrieve_spec(m.insert(k1, v1).insert(k2, v2), k1) == Some(v1),
        retrieve_spec(m.insert(k1, v1).insert(k2, v2), k2) == Some(v2),
{
}

} // verus!


