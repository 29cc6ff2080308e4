//! The bounded store: a map from byte-string keys to values with versions,
//! which accounts for the bytes it holds and admits a new entry only while
//! it is under its soft limit.

use crate::application::{
    bare_response, ApplicationError, Command, Deserialize, ErrorCode, Request, RequestView,
    Response, ResponseView, Serialize,
};
use crate::engine::{
    cache_bounded, cache_view, lemma_cache_view_insert, lemma_cache_view_lookup,
    lemma_payload_outcome_bounded, respond, step, ActionView, EngineState,
};
use crate::expiring_hashmap::ExpiringHashMap;
use crate::protocol::{message_key, msg_bytes, MessageID, Msg, Protocol};
use crate::wire::copy_range;
use std::collections::HashMap;
use vstd::prelude::*;

verus! {

broadcast use vstd::std_specs::hash::group_hash_axioms;

/// The longest key that the store admits.
pub const MAX_KEY_LEN: usize = 32;

/// The longest value that the store admits.
pub const MAX_VALUE_LEN: usize = 10_000;

/// The size above which the store admits nothing more: 60 MiB.
pub const SOFT_LIMIT: usize = 62_914_560;

/// The size that the store never exceeds: 67 MiB.
pub const HARD_LIMIT: usize = 70_254_592;

/// What the store holds, as a map from keys to values with their versions.
pub type Contents = Map<Seq<u8>, (Seq<u8>, i32)>;

/// The bytes that one entry counts for: those of its key and of its value.
pub open spec fn entry_bytes(key: Seq<u8>, entry: (Seq<u8>, i32)) -> nat {
    key.len() + entry.0.len()
}

/// The bytes that a finite map of entries counts for: the sum over its
/// entries.
pub open spec fn stored_bytes(m: Contents) -> nat
    decreases m.dom().len(),
    when m.dom().finite()
    via stored_bytes_decreases
{
    if m.dom().len() == 0 {
        0
    } else {
        let key = m.dom().choose();
        entry_bytes(key, m[key]) + stored_bytes(m.remove(key))
    }
}

#[via_fn]
proof fn stored_bytes_decreases(m: Contents) {
    if m.dom().len() != 0 {
        let key = m.dom().choose();
        assert(m.dom().contains(key));
        assert(m.remove(key).dom() == m.dom().remove(key));
    }
}

/// An empty map counts for nothing.
pub proof fn lemma_stored_bytes_empty()
    ensures
        stored_bytes(Map::empty()) == 0,
{
    assert(Map::<Seq<u8>, (Seq<u8>, i32)>::empty().dom() == Set::<Seq<u8>>::empty());
}

/// The sum can be taken with any entry first: a map counts for the bytes of
/// one of its entries and those of the rest.
pub proof fn lemma_stored_bytes_split(m: Contents, key: Seq<u8>)
    requires
        m.dom().finite(),
        m.contains_key(key),
    ensures
        stored_bytes(m) == entry_bytes(key, m[key]) + stored_bytes(m.remove(key)),
    decreases m.dom().len(),
{
    let first = m.dom().choose();
    assert(m.dom().contains(first));
    assert(m.dom().len() != 0);
    if first != key {
        let without_first = m.remove(first);
        let without_key = m.remove(key);
        assert(without_first.dom() == m.dom().remove(first));
        assert(without_key.dom() == m.dom().remove(key));
        lemma_stored_bytes_split(without_first, key);
        lemma_stored_bytes_split(without_key, first);
        assert(without_first.remove(key) == without_key.remove(first));
    }
}

/// Size monotonicity, on a new key: a map grows by the bytes of the entry
/// that is put under a key it did not hold.
pub proof fn lemma_stored_bytes_insert_new(m: Contents, key: Seq<u8>, entry: (Seq<u8>, i32))
    requires
        m.dom().finite(),
        !m.contains_key(key),
    ensures
        stored_bytes(m.insert(key, entry)) == stored_bytes(m) + key.len() + entry.0.len(),
{
    let after = m.insert(key, entry);
    assert(after.dom() == m.dom().insert(key));
    lemma_stored_bytes_split(after, key);
    assert(after.remove(key) == m);
}

/// Size on overwriting: the entry that was under the key is taken off the
/// sum, the new one is put on.
pub proof fn lemma_stored_bytes_overwrite(m: Contents, key: Seq<u8>, entry: (Seq<u8>, i32))
    requires
        m.dom().finite(),
        m.contains_key(key),
    ensures
        stored_bytes(m.insert(key, entry)) + m[key].0.len() == stored_bytes(m) + entry.0.len(),
{
    let after = m.insert(key, entry);
    assert(after.dom() == m.dom().insert(key));
    lemma_stored_bytes_split(after, key);
    lemma_stored_bytes_split(m, key);
    assert(after.remove(key) == m.remove(key));
}

/// Size monotonicity, on removal: a map shrinks by the bytes of the entry
/// that is removed.
pub proof fn lemma_stored_bytes_remove(m: Contents, key: Seq<u8>)
    requires
        m.dom().finite(),
        m.contains_key(key),
    ensures
        stored_bytes(m.remove(key)) + key.len() + m[key].0.len() == stored_bytes(m),
{
    lemma_stored_bytes_split(m, key);
}

/// Whether a map of entries respects the store's limits: it is finite, no
/// key and no value is longer than the store admits, and the entries count
/// for no more than the soft limit and one entry of the largest size.
pub open spec fn within_limits(m: Contents) -> bool {
    &&& m.dom().finite()
    &&& forall|k: Seq<u8>| #[trigger]
        m.contains_key(k) ==> k.len() <= MAX_KEY_LEN && m[k].0.len() <= MAX_VALUE_LEN
    &&& stored_bytes(m) <= SOFT_LIMIT + MAX_KEY_LEN + MAX_VALUE_LEN
}

/// A map that respects the store's limits stays under the hard limit.
pub proof fn lemma_under_hard_limit(m: Contents)
    requires
        within_limits(m),
    ensures
        stored_bytes(m) <= HARD_LIMIT,
{
}

/// How the store answers a put. Admission: the key is invalid exactly when
/// it is longer than the store admits; else the value is invalid exactly
/// when it is longer than the store admits; else the store is out of space
/// exactly when it already holds more than the soft limit.
pub open spec fn put_result(m: Contents, key: Seq<u8>, value: Seq<u8>) -> Result<(), ErrorCode> {
    if key.len() > MAX_KEY_LEN {
        Err(ErrorCode::InvalidKey)
    } else if value.len() > MAX_VALUE_LEN {
        Err(ErrorCode::InvalidValue)
    } else if stored_bytes(m) > SOFT_LIMIT {
        Err(ErrorCode::OutOfSpace)
    } else {
        Ok(())
    }
}

/// Admission, case by case: an invalid key is reported exactly for a key
/// that is too long; for a key that is not, an invalid value exactly for a
/// value that is too long; for a key and a value that are not, want of space
/// exactly when the store holds more than the soft limit; and the put is
/// admitted exactly when none of the three is the case.
pub proof fn lemma_admission(m: Contents, key: Seq<u8>, value: Seq<u8>)
    ensures
        put_result(m, key, value) == Err::<(), ErrorCode>(ErrorCode::InvalidKey) <==> key.len()
            > MAX_KEY_LEN,
        key.len() <= MAX_KEY_LEN ==> (put_result(m, key, value) == Err::<(), ErrorCode>(
            ErrorCode::InvalidValue,
        ) <==> value.len() > MAX_VALUE_LEN),
        key.len() <= MAX_KEY_LEN && value.len() <= MAX_VALUE_LEN ==> (put_result(m, key, value)
            == Err::<(), ErrorCode>(ErrorCode::OutOfSpace) <==> stored_bytes(m) > SOFT_LIMIT),
        put_result(m, key, value) is Ok <==> key.len() <= MAX_KEY_LEN && value.len()
            <= MAX_VALUE_LEN && stored_bytes(m) <= SOFT_LIMIT,
{
}

/// The version that is stored when a put names `version`: 0 when it names
/// none.
pub open spec fn version_or_zero(version: Option<i32>) -> i32 {
    match version {
        Some(v) => v,
        None => 0,
    }
}

/// What the store holds after a put: the new entry in place of any old one
/// under the key when the put is admitted, else what it held.
pub open spec fn put_contents(
    m: Contents,
    key: Seq<u8>,
    value: Seq<u8>,
    version: Option<i32>,
) -> Contents {
    if put_result(m, key, value) is Ok {
        m.insert(key, (value, version_or_zero(version)))
    } else {
        m
    }
}

/// A put keeps a map within the store's limits.
pub proof fn lemma_put_within_limits(
    m: Contents,
    key: Seq<u8>,
    value: Seq<u8>,
    version: Option<i32>,
)
    requires
        within_limits(m),
    ensures
        within_limits(put_contents(m, key, value, version)),
{
    if put_result(m, key, value) is Ok {
        let entry = (value, version_or_zero(version));
        if m.contains_key(key) {
            lemma_stored_bytes_overwrite(m, key, entry);
        } else {
            lemma_stored_bytes_insert_new(m, key, entry);
        }
    }
}

/// Size monotonicity of the store's operations: an admitted put under a new
/// key adds the bytes of key and value, a removal of a key that is held
/// takes the bytes of key and value off, and an empty store counts for
/// nothing.
pub proof fn lemma_size_monotonicity(
    m: Contents,
    key: Seq<u8>,
    value: Seq<u8>,
    version: Option<i32>,
)
    requires
        m.dom().finite(),
    ensures
        !m.contains_key(key) && put_result(m, key, value) is Ok ==> stored_bytes(
            put_contents(m, key, value, version),
        ) == stored_bytes(m) + key.len() + value.len(),
        m.contains_key(key) ==> stored_bytes(m.remove(key)) == stored_bytes(m) - key.len()
            - m[key].0.len(),
        stored_bytes(Map::empty()) == 0,
{
    if m.contains_key(key) {
        lemma_stored_bytes_remove(m, key);
    } else {
        lemma_stored_bytes_insert_new(m, key, (value, version_or_zero(version)));
    }
    lemma_stored_bytes_empty();
}

/// Tells whether two byte strings are the same.
pub fn same_bytes(a: &[u8], b: &[u8]) -> (r: bool)
    ensures
        r == (a@ == b@),
{
    if a.len() != b.len() {
        return false;
    }
    let mut i: usize = 0;
    while i < a.len()
        invariant
            i <= a.len(),
            a.len() == b.len(),
            forall|j: int| 0 <= j < i ==> a@[j] == b@[j],
        decreases a.len() - i,
    {
        if a[i] != b[i] {
            return false;
        }
        i += 1;
    }
    assert(a@ =~= b@);
    true
}

/// A key of the store.
#[derive(Debug, Eq, Hash, PartialEq)]
pub struct Key {
    pub key: Vec<u8>,
}

impl Key {
    /// The key made of the given bytes.
    pub fn new(key: Vec<u8>) -> (r: Key)
        ensures
            r.key == key,
    {
        Key { key }
    }
}

impl Clone for Key {
    fn clone(&self) -> (r: Key)
        ensures
            r.key@ == self.key@,
    {
        let key = copy_range(self.key.as_slice(), 0, self.key.len());
        assert(key@ =~= self.key@);
        Key { key }
    }
}

/// A value of the store, with its version.
#[derive(Debug, Eq, Hash, PartialEq)]
pub struct Value {
    pub value: Vec<u8>,
    pub version: i32,
}

impl Value {
    /// The value made of the given bytes, under the given version or, when
    /// none is given, under version 0.
    pub fn new(value: Vec<u8>, version: Option<i32>) -> (r: Value)
        ensures
            r.value == value,
            r.version == version_or_zero(version),
    {
        Value {
            value,
            version: match version {
                Some(v) => v,
                None => 0,
            },
        }
    }

    /// The version.
    pub fn version(&self) -> (r: i32)
        ensures
            r == self.version,
    {
        self.version
    }

    /// The bytes.
    pub fn value(&self) -> (r: &[u8])
        ensures
            r@ == self.value@,
    {
        self.value.as_slice()
    }
}

/// The modulus of the key hash: a prime below 2^61.
pub const HASH_MODULUS: u64 = 2_305_843_009_213_693_951;

/// The hash of a key, by which the store finds the bucket of the key: the
/// bytes are taken in as the digits of a number to the base 257, modulo a
/// prime.
pub open spec fn key_hash(key: Seq<u8>) -> u64
    decreases key.len(),
{
    if key.len() == 0 {
        0
    } else {
        ((key_hash(key.drop_last()) * 257 + key.last() + 1) % (HASH_MODULUS as int)) as u64
    }
}

/// Computes the hash of a key.
pub fn hash_key(key: &[u8]) -> (r: u64)
    ensures
        r == key_hash(key@),
{
    let mut h: u64 = 0;
    let mut i: usize = 0;
    proof {
        assert(key@.take(0) =~= Seq::<u8>::empty());
    }
    while i < key.len()
        invariant
            i <= key.len(),
            h == key_hash(key@.take(i as int)),
            h < HASH_MODULUS,
        decreases key.len() - i,
    {
        proof {
            assert(key@.take(i + 1).drop_last() =~= key@.take(i as int));
            assert(key@.take(i + 1).last() == key@[i as int]);
        }
        let wide: u128 = h as u128 * 257 + key[i] as u128 + 1;
        h = (wide % (HASH_MODULUS as u128)) as u64;
        i += 1;
    }
    proof {
        assert(key@.take(key@.len() as int) =~= key@);
    }
    h
}

impl Clone for Value {
    fn clone(&self) -> (r: Value)
        ensures
            r.value@ == self.value@,
            r.version == self.version,
    {
        let value = copy_range(self.value.as_slice(), 0, self.value.len());
        assert(value@ =~= self.value@);
        Value { value, version: self.version }
    }
}

/// One entry of the store.
#[derive(Debug)]
struct Entry {
    key: Key,
    value: Value,
}

/// Whether a bucket holds an entry under `key`.
spec fn bucket_holds(bucket: Seq<Entry>, key: Seq<u8>) -> bool {
    exists|i: int| 0 <= i < bucket.len() && (#[trigger] bucket[i]).key.key@ == key
}

/// Whether a bucket is in order: every entry belongs to the bucket by its
/// hash and stands in the map with its value, and no key occurs twice.
spec fn bucket_ok(bucket: Seq<Entry>, hash: u64, model: Contents) -> bool {
    &&& forall|i: int|
        0 <= i < bucket.len() ==> {
            let e = #[trigger] bucket[i];
            &&& key_hash(e.key.key@) == hash
            &&& model.contains_key(e.key.key@)
            &&& model[e.key.key@] == (e.value.value@, e.value.version)
        }
    &&& forall|i: int, j: int|
        0 <= i < j < bucket.len() ==> (#[trigger] bucket[i]).key.key@ != (
        #[trigger] bucket[j]).key.key@
}

/// Where the entry under `key` lies in a bucket, if there is one.
fn find_in(bucket: &Vec<Entry>, key: &[u8]) -> (r: Option<usize>)
    ensures
        match r {
            Some(i) => i < bucket@.len() && bucket@[i as int].key.key@ == key@,
            None => !bucket_holds(bucket@, key@),
        },
{
    let mut i: usize = 0;
    while i < bucket.len()
        invariant
            i <= bucket@.len(),
            forall|j: int| 0 <= j < i ==> (#[trigger] bucket@[j]).key.key@ != key@,
        decreases bucket@.len() - i,
    {
        if same_bytes(bucket[i].key.key.as_slice(), key) {
            return Some(i);
        }
        i += 1;
    }
    None
}

/// A map without the empty key holds no more entries than bytes.
proof fn lemma_entries_at_most_bytes(m: Contents)
    requires
        m.dom().finite(),
        !m.contains_key(Seq::empty()),
    ensures
        m.dom().len() <= stored_bytes(m),
    decreases m.dom().len(),
{
    if m.dom().len() != 0 {
        let key = m.dom().choose();
        assert(m.dom().contains(key));
        assert(m.remove(key).dom() == m.dom().remove(key));
        if key.len() == 0 {
            assert(key =~= Seq::<u8>::empty());
        }
        lemma_stored_bytes_split(m, key);
        lemma_entries_at_most_bytes(m.remove(key));
    }
}

/// A finite map holds at most one entry more than bytes: only the empty key
/// can stand in it with an entry that counts for nothing.
pub proof fn lemma_entries_bounded(m: Contents)
    requires
        m.dom().finite(),
    ensures
        m.dom().len() <= stored_bytes(m) + 1,
{
    let empty = Seq::<u8>::empty();
    if m.contains_key(empty) {
        assert(m.remove(empty).dom() == m.dom().remove(empty));
        lemma_stored_bytes_split(m, empty);
        lemma_entries_at_most_bytes(m.remove(empty));
    } else {
        lemma_entries_at_most_bytes(m);
    }
}

/// The store. Its entries lie in buckets, each under the hash of its keys;
/// the bytes that the entries count for, and their number, are kept in
/// counters.
pub struct KVStore {
    buckets: HashMap<u64, Vec<Entry>>,
    count: usize,
    size: usize,
    model: Ghost<Contents>,
}

impl View for KVStore {
    type V = Contents;

    closed spec fn view(&self) -> Contents {
        self.model@
    }
}

impl KVStore {
    /// Whether the buckets and the counters hold what the view says.
    pub closed spec fn represented(&self) -> bool {
        &&& forall|h: u64| #[trigger]
            self.buckets@.contains_key(h) ==> bucket_ok(self.buckets@[h]@, h, self.model@)
        &&& forall|k: Seq<u8>| #[trigger]
            self.model@.contains_key(k) ==> self.buckets@.contains_key(key_hash(k))
                && bucket_holds(self.buckets@[key_hash(k)]@, k)
        &&& self.size == stored_bytes(self.model@)
        &&& self.count == self.model@.dom().len()
    }

    /// The store's invariant: it holds what its view says, and the view
    /// respects the limits.
    pub open spec fn wf(&self) -> bool {
        self.represented() && within_limits(self@)
    }

    /// An empty store.
    pub fn new() -> (r: KVStore)
        ensures
            r.wf(),
            r@ == Map::<Seq<u8>, (Seq<u8>, i32)>::empty(),
    {
        proof {
            lemma_stored_bytes_empty();
        }
        KVStore { buckets: HashMap::new(), count: 0, size: 0, model: Ghost(Map::empty()) }
    }

    /// The bytes that the entries count for: the sum of the lengths of their
    /// keys and values.
    pub fn approximate_size(&self) -> (r: usize)
        requires
            self.wf(),
        ensures
            r == stored_bytes(self@),
    {
        self.size
    }

    /// The number of entries.
    pub fn len(&self) -> (r: usize)
        requires
            self.wf(),
        ensures
            r == self@.dom().len(),
    {
        self.count
    }

    /// The value under `key`, or `NonExistentKey` when the store holds none.
    pub fn get(&self, key: &[u8]) -> (r: Result<&Value, ErrorCode>)
        requires
            self.wf(),
        ensures
            match r {
                Ok(v) => self@.contains_key(key@) && self@[key@] == (v.value@, v.version)
                    && v.value@.len() <= MAX_VALUE_LEN,
                Err(e) => !self@.contains_key(key@) && e == ErrorCode::NonExistentKey,
            },
    {
        let h: u64 = hash_key(key);
        match self.buckets.get(&h) {
            Some(bucket) => match find_in(bucket, key) {
                Some(i) => Ok(&bucket[i].value),
                None => Err(ErrorCode::NonExistentKey),
            },
            None => Err(ErrorCode::NonExistentKey),
        }
    }

    /// Puts `value` under `key` when the put is admitted, in place of any
    /// entry the store held under the key; else reports why it is not.
    pub fn put(&mut self, key: Vec<u8>, value: Vec<u8>, version: Option<i32>) -> (r: Result<
        (),
        ErrorCode,
    >)
        requires
            old(self).wf(),
        ensures
            final(self).wf(),
            r == put_result(old(self)@, key@, value@),
            final(self)@ == put_contents(old(self)@, key@, value@, version),
    {
        if key.len() > MAX_KEY_LEN {
            return Err(ErrorCode::InvalidKey);
        }
        if value.len() > MAX_VALUE_LEN {
            return Err(ErrorCode::InvalidValue);
        }
        if self.size > SOFT_LIMIT {
            return Err(ErrorCode::OutOfSpace);
        }
        let ghost before = self.model@;
        let ghost entry = (value@, version_or_zero(version));
        let ghost key_view = key@;
        let ghost after = before.insert(key_view, entry);
        let ghost old_buckets = self.buckets@;
        proof {
            lemma_put_within_limits(before, key_view, value@, version);
            lemma_entries_bounded(before);
        }
        let h: u64 = hash_key(key.as_slice());
        let mut bucket: Vec<Entry> = match self.buckets.remove(&h) {
            Some(bucket) => bucket,
            None => Vec::new(),
        };
        let ghost old_bucket = bucket@;
        assert(bucket_ok(old_bucket, h, before));
        assert(before.contains_key(key_view) ==> bucket_holds(old_bucket, key_view));
        match find_in(&bucket, key.as_slice()) {
            Some(i) => {
                proof {
                    lemma_stored_bytes_overwrite(before, key_view, entry);
                    lemma_stored_bytes_split(before, key_view);
                    assert(before[key_view].0 == bucket@[i as int].value.value@);
                    assert(after.dom() =~= before.dom());
                }
                self.size = self.size - bucket[i].value.value.len() + value.len();
                bucket.set(i, Entry { key: Key::new(key), value: Value::new(value, version) });
                proof {
                    assert forall|k: Seq<u8>| bucket_holds(old_bucket, k) implies bucket_holds(
                        bucket@,
                        k,
                    ) by {
                        let j = choose|j: int|
                            0 <= j < old_bucket.len() && (#[trigger] old_bucket[j]).key.key@ == k;
                        assert(bucket@[j].key.key@ == k);
                    }
                    assert forall|a: int, b: int| 0 <= a < b < bucket@.len() implies (
                    #[trigger] bucket@[a]).key.key@ != (#[trigger] bucket@[b]).key.key@ by {
                        assert(bucket@[a].key.key@ == old_bucket[a].key.key@);
                        assert(bucket@[b].key.key@ == old_bucket[b].key.key@);
                    }
                    assert forall|a: int| 0 <= a < bucket@.len() implies ({
                        let e = #[trigger] bucket@[a];
                        &&& key_hash(e.key.key@) == h
                        &&& after.contains_key(e.key.key@)
                        &&& after[e.key.key@] == (e.value.value@, e.value.version)
                    }) by {
                        if a != i {
                            assert(bucket@[a] == old_bucket[a]);
                            assert(old_bucket[a].key.key@ != old_bucket[i as int].key.key@);
                        }
                    }
                }
            },
            None => {
                proof {
                    lemma_stored_bytes_insert_new(before, key_view, entry);
                    assert(after.dom() =~= before.dom().insert(key_view));
                }
                self.size = self.size + key.len() + value.len();
                self.count = self.count + 1;
                bucket.push(Entry { key: Key::new(key), value: Value::new(value, version) });
                proof {
                    let last = bucket@.len() - 1;
                    assert(bucket@[last].key.key@ == key_view);
                    assert forall|k: Seq<u8>| bucket_holds(old_bucket, k) implies bucket_holds(
                        bucket@,
                        k,
                    ) by {
                        let j = choose|j: int|
                            0 <= j < old_bucket.len() && (#[trigger] old_bucket[j]).key.key@ == k;
                        assert(bucket@[j].key.key@ == k);
                    }
                    assert forall|a: int, b: int| 0 <= a < b < bucket@.len() implies (
                    #[trigger] bucket@[a]).key.key@ != (#[trigger] bucket@[b]).key.key@ by {
                        assert(bucket@[a] == old_bucket[a]);
                        if b < last {
                            assert(bucket@[b] == old_bucket[b]);
                        }
                    }
                    assert forall|a: int| 0 <= a < bucket@.len() implies ({
                        let e = #[trigger] bucket@[a];
                        &&& key_hash(e.key.key@) == h
                        &&& after.contains_key(e.key.key@)
                        &&& after[e.key.key@] == (e.value.value@, e.value.version)
                    }) by {
                        if a < last {
                            assert(bucket@[a] == old_bucket[a]);
                        }
                    }
                }
            },
        }
        assert(bucket_holds(bucket@, key_view));
        assert(bucket_ok(bucket@, h, after));
        self.buckets.insert(h, bucket);
        self.model = Ghost(after);
        proof {
            assert forall|g: u64| #[trigger] self.buckets@.contains_key(g) implies bucket_ok(
                self.buckets@[g]@,
                g,
                after,
            ) by {
                if g != h {
                    assert(old_buckets.contains_key(g));
                    assert(self.buckets@[g] == old_buckets[g]);
                    assert(bucket_ok(old_buckets[g]@, g, before));
                }
            }
            assert forall|k: Seq<u8>| #[trigger] after.contains_key(k) implies self.buckets@.contains_key(
                key_hash(k),
            ) && bucket_holds(self.buckets@[key_hash(k)]@, k) by {
                if k != key_view {
                    assert(before.contains_key(k));
                    if key_hash(k) != h {
                        assert(self.buckets@[key_hash(k)] == old_buckets[key_hash(k)]);
                    } else {
                        assert(bucket_holds(old_bucket, k));
                    }
                }
            }
        }
        Ok(())
    }

    /// Removes the entry under `key`, or reports `NonExistentKey` when the
    /// store holds none.
    pub fn remove(&mut self, key: &[u8]) -> (r: Result<(), ErrorCode>)
        requires
            old(self).wf(),
        ensures
            final(self).wf(),
            r == if old(self)@.contains_key(key@) {
                Ok::<(), ErrorCode>(())
            } else {
                Err::<(), ErrorCode>(ErrorCode::NonExistentKey)
            },
            final(self)@ == old(self)@.remove(key@),
    {
        let ghost before = self.model@;
        let ghost after = before.remove(key@);
        let ghost old_buckets = self.buckets@;
        let h: u64 = hash_key(key);
        let mut bucket: Vec<Entry> = match self.buckets.remove(&h) {
            Some(bucket) => bucket,
            None => {
                assert(after =~= before);
                return Err(ErrorCode::NonExistentKey);
            },
        };
        let ghost old_bucket = bucket@;
        assert(bucket_ok(old_bucket, h, before));
        match find_in(&bucket, key) {
            Some(i) => {
                proof {
                    lemma_stored_bytes_remove(before, key@);
                    assert(after.dom() =~= before.dom().remove(key@));
                }
                let removed = bucket.swap_remove(i);
                self.size = self.size - removed.key.key.len() - removed.value.value.len();
                self.count = self.count - 1;
                proof {
                    let last = old_bucket.len() - 1;
                    assert forall|a: int| 0 <= a < bucket@.len() implies ({
                        let e = #[trigger] bucket@[a];
                        &&& key_hash(e.key.key@) == h
                        &&& after.contains_key(e.key.key@)
                        &&& after[e.key.key@] == (e.value.value@, e.value.version)
                        &&& e.key.key@ != key@
                    }) by {
                        if a == i {
                            assert(bucket@[a] == old_bucket[last]);
                            assert(old_bucket[i as int].key.key@ != old_bucket[last].key.key@);
                        } else {
                            assert(bucket@[a] == old_bucket[a]);
                            assert(old_bucket[a].key.key@ != old_bucket[i as int].key.key@);
                        }
                    }
                    assert forall|a: int, b: int| 0 <= a < b < bucket@.len() implies (
                    #[trigger] bucket@[a]).key.key@ != (#[trigger] bucket@[b]).key.key@ by {
                        let from_a = if a == i {
                            last
                        } else {
                            a
                        };
                        let from_b = if b == i {
                            last
                        } else {
                            b
                        };
                        assert(bucket@[a] == old_bucket[from_a]);
                        assert(bucket@[b] == old_bucket[from_b]);
                    }
                    assert forall|k: Seq<u8>|
                        k != key@ && bucket_holds(old_bucket, k) implies bucket_holds(
                        bucket@,
                        k,
                    ) by {
                        let j = choose|j: int|
                            0 <= j < old_bucket.len() && (#[trigger] old_bucket[j]).key.key@ == k;
                        if j == last {
                            assert(bucket@[i as int].key.key@ == k);
                        } else {
                            assert(bucket@[j].key.key@ == k);
                        }
                    }
                    assert(bucket_ok(bucket@, h, after));
                }
                let ghost new_bucket = bucket@;
                if bucket.len() > 0 {
                    self.buckets.insert(h, bucket);
                }
                self.model = Ghost(after);
                proof {
                    assert forall|g: u64| #[trigger]
                        self.buckets@.contains_key(g) implies bucket_ok(
                        self.buckets@[g]@,
                        g,
                        after,
                    ) by {
                        if g != h {
                            assert(old_buckets.contains_key(g));
                            assert(self.buckets@[g] == old_buckets[g]);
                            assert(bucket_ok(old_buckets[g]@, g, before));
                        }
                    }
                    assert forall|k: Seq<u8>| #[trigger]
                        after.contains_key(k) implies self.buckets@.contains_key(key_hash(k))
                        && bucket_holds(self.buckets@[key_hash(k)]@, k) by {
                        assert(before.contains_key(k));
                        if key_hash(k) != h {
                            assert(self.buckets@[key_hash(k)] == old_buckets[key_hash(k)]);
                        } else {
                            assert(bucket_holds(old_bucket, k));
                            assert(bucket_holds(new_bucket, k));
                        }
                    }
                }
                Ok(())
            },
            None => {
                assert(!before.contains_key(key@));
                assert(after =~= before);
                self.buckets.insert(h, bucket);
                assert(self.buckets@ =~= old_buckets);
                Err(ErrorCode::NonExistentKey)
            },
        }
    }

    /// Empties the store.
    pub fn clear(&mut self)
        ensures
            final(self).wf(),
            final(self)@ == Map::<Seq<u8>, (Seq<u8>, i32)>::empty(),
    {
        proof {
            lemma_stored_bytes_empty();
        }
        self.buckets.clear();
        self.count = 0;
        self.size = 0;
        self.model = Ghost(Map::empty());
    }
}

/// What the dispatcher decides for a request: a response to send, or the
/// end of the process.
#[derive(Debug)]
pub enum Outcome {
    Reply(Response),
    Shutdown,
}

impl View for Outcome {
    type V = Option<ResponseView>;

    /// The response to send; `None` for the end of the process.
    open spec fn view(&self) -> Option<ResponseView> {
        match self {
            Outcome::Reply(response) => Some(response@),
            Outcome::Shutdown => None,
        }
    }
}

/// The response to a get of a key that the store holds: success, with the
/// value and its version.
pub open spec fn found_response(entry: (Seq<u8>, i32)) -> ResponseView {
    ResponseView {
        err_code: ErrorCode::Success.spec_code(),
        value: Some(entry.0),
        pid: None,
        version: Some(entry.1),
        overload_wait_time: None,
        membership_count: None,
    }
}

/// The response to a question for the process identifier.
pub open spec fn pid_response(pid: i32) -> ResponseView {
    ResponseView {
        err_code: ErrorCode::Success.spec_code(),
        value: None,
        pid: Some(pid),
        version: None,
        overload_wait_time: None,
        membership_count: None,
    }
}

/// The response to a question for the number of members: this node alone.
pub open spec fn membership_response() -> ResponseView {
    ResponseView {
        err_code: ErrorCode::Success.spec_code(),
        value: None,
        pid: None,
        version: None,
        overload_wait_time: None,
        membership_count: Some(1i32),
    }
}

/// What the store holds after a request was applied to it.
pub open spec fn contents_after(m: Contents, request: RequestView) -> Contents {
    match request.command {
        Command::Wipeout => Map::empty(),
        Command::Put => if request.key is Some && request.value is Some {
            put_contents(m, request.key->0, request.value->0, request.version)
        } else {
            m
        },
        Command::Remove => if request.key is Some {
            m.remove(request.key->0)
        } else {
            m
        },
        _ => m,
    }
}

/// The answer to a request, applied to a store that holds `m` in a process
/// with identifier `pid`; `None` where the request ends the process. A
/// command whose required key or value is absent is answered as
/// unrecognized.
pub open spec fn answer_to(m: Contents, request: RequestView, pid: i32) -> Option<ResponseView> {
    let success = bare_response(ErrorCode::Success.spec_code());
    let unrecognized = bare_response(ErrorCode::UnrecognizedCommand.spec_code());
    let missing = bare_response(ErrorCode::NonExistentKey.spec_code());
    match request.command {
        Command::IsAlive => Some(success),
        Command::Wipeout => Some(success),
        Command::Put => if request.key is Some && request.value is Some {
            match put_result(m, request.key->0, request.value->0) {
                Ok(_) => Some(success),
                Err(code) => Some(bare_response(code.spec_code())),
            }
        } else {
            Some(unrecognized)
        },
        Command::Get => if request.key is Some {
            if m.contains_key(request.key->0) {
                Some(found_response(m[request.key->0]))
            } else {
                Some(missing)
            }
        } else {
            Some(unrecognized)
        },
        Command::Remove => if request.key is Some {
            if m.contains_key(request.key->0) {
                Some(success)
            } else {
                Some(missing)
            }
        } else {
            Some(unrecognized)
        },
        Command::Shutdown => None,
        Command::GetPID => Some(pid_response(pid)),
        Command::GetMembershipCount => Some(membership_response()),
        Command::GetMembershipList => Some(success),
    }
}

/// Whether a response is one that the dispatcher gives: its value, if it
/// has one, is no longer than the store admits.
pub open spec fn response_bounded(r: ResponseView) -> bool {
    r.value is Some ==> r.value->0.len() <= MAX_VALUE_LEN
}

/// Applies a request to the store and decides the answer.
pub fn handle_request(kvstore: &mut KVStore, request: Request, pid: i32) -> (r: Outcome)
    requires
        old(kvstore).wf(),
    ensures
        final(kvstore).wf(),
        final(kvstore)@ == contents_after(old(kvstore)@, request@),
        r@ == answer_to(old(kvstore)@, request@, pid),
        r@ is Some ==> response_bounded(r@->0),
{
    let Request { command, key, value, version } = request;
    match command {
        Command::IsAlive => Outcome::Reply(Response::success()),
        Command::Wipeout => {
            kvstore.clear();
            Outcome::Reply(Response::success())
        },
        Command::Put => match (key, value) {
            (Some(key), Some(value)) => match kvstore.put(key, value, version) {
                Ok(_) => Outcome::Reply(Response::success()),
                Err(code) => Outcome::Reply(Response::error(code)),
            },
            _ => Outcome::Reply(Response::error(ErrorCode::UnrecognizedCommand)),
        },
        Command::Get => match key {
            Some(key) => match kvstore.get(key.as_slice()) {
                Ok(found) => {
                    let bytes = copy_range(found.value(), 0, found.value().len());
                    assert(bytes@ =~= found.value@);
                    Outcome::Reply(
                        Response {
                            err_code: ErrorCode::Success.code(),
                            value: Some(bytes),
                            pid: None,
                            version: Some(found.version()),
                            overload_wait_time: None,
                            membership_count: None,
                        },
                    )
                },
                Err(code) => Outcome::Reply(Response::error(code)),
            },
            None => Outcome::Reply(Response::error(ErrorCode::UnrecognizedCommand)),
        },
        Command::Remove => match key {
            Some(key) => match kvstore.remove(key.as_slice()) {
                Ok(_) => Outcome::Reply(Response::success()),
                Err(code) => Outcome::Reply(Response::error(code)),
            },
            None => Outcome::Reply(Response::error(ErrorCode::UnrecognizedCommand)),
        },
        Command::Shutdown => Outcome::Shutdown,
        Command::GetPID => Outcome::Reply(
            Response {
                err_code: ErrorCode::Success.code(),
                value: None,
                pid: Some(pid),
                version: None,
                overload_wait_time: None,
                membership_count: None,
            },
        ),
        Command::GetMembershipCount => Outcome::Reply(
            Response {
                err_code: ErrorCode::Success.code(),
                value: None,
                pid: None,
                version: None,
                overload_wait_time: None,
                membership_count: Some(1),
            },
        ),
        Command::GetMembershipList => Outcome::Reply(Response::success()),
    }
}

/// What is done with the socket after a datagram: bytes are sent back to
/// the sender, nothing is sent, or the process ends.
#[derive(Debug)]
pub enum Action {
    Send(Vec<u8>),
    Drop(ApplicationError),
    Shutdown,
}

impl View for Action {
    type V = ActionView;

    open spec fn view(&self) -> ActionView {
        match self {
            Action::Send(bytes) => ActionView::Send(bytes@),
            Action::Drop(e) => ActionView::Drop(*e),
            Action::Shutdown => ActionView::Shutdown,
        }
    }
}

/// What the engine decides of a frame, before it is written: the step's
/// action with the frame to send in place of its bytes.
pub open spec fn decision_of(r: Result<Option<Msg>, ApplicationError>) -> ActionView {
    match r {
        Ok(Some(msg)) => ActionView::Send(msg_bytes(msg@)),
        Ok(None) => ActionView::Shutdown,
        Err(e) => ActionView::Drop(e),
    }
}

/// Responds to a valid frame that arrives at time `now`: answers from the
/// cache where the identifier has a live answer, else applies the payload to
/// the store and remembers the answer. A payload that cannot be read is
/// answered with the code of its error.
pub fn handle_frame(
    kvstore: &mut KVStore,
    at_most_once_cache: &mut ExpiringHashMap<u128, Response>,
    message_id: &MessageID,
    payload: &[u8],
    now: u128,
    pid: i32,
) -> (r: Outcome)
    requires
        old(kvstore).wf(),
        old(at_most_once_cache).wf(),
        cache_bounded(cache_view(old(at_most_once_cache)@)),
    ensures
        final(kvstore).wf(),
        final(at_most_once_cache).wf(),
        final(at_most_once_cache).ttl() == old(at_most_once_cache).ttl(),
        cache_bounded(cache_view(final(at_most_once_cache)@)),
        (EngineState { store: final(kvstore)@, cache: cache_view(final(at_most_once_cache)@) }, r@)
            == respond(
            EngineState { store: old(kvstore)@, cache: cache_view(old(at_most_once_cache)@) },
            old(at_most_once_cache).ttl(),
            message_id@,
            payload@,
            now,
            pid,
        ),
        r@ is Some ==> response_bounded(r@->0),
{
    let ghost ttl = at_most_once_cache.ttl();
    let key: u128 = message_key(message_id);
    proof {
        lemma_cache_view_lookup(at_most_once_cache@, ttl, key, now);
    }
    let cached: Option<Response> = match at_most_once_cache.get_at(&key, now) {
        Some(response) => Some(response.clone()),
        None => None,
    };
    if let Some(response) = cached {
        assert(response_bounded(response@));
        return Outcome::Reply(response);
    }
    proof {
        lemma_payload_outcome_bounded(kvstore@, payload@, pid);
    }
    let outcome = match Request::from_bytes(payload) {
        Ok(request) => handle_request(kvstore, request, pid),
        Err(e) => Outcome::Reply(Response::error(ErrorCode::from(e))),
    };
    match outcome {
        Outcome::Reply(response) => {
            let kept = response.clone();
            proof {
                lemma_cache_view_insert(at_most_once_cache@, key, now, kept);
            }
            at_most_once_cache.insert_at(key, kept, now);
            Outcome::Reply(response)
        },
        Outcome::Shutdown => Outcome::Shutdown,
    }
}

/// Handles a datagram that arrives at time `now`: reads the frame and
/// checks it, responds to it, and wraps the answer into a frame under the
/// same identifier. Returns the frame to send back, `None` where the request
/// ends the process, or the error for which the datagram is dropped.
pub fn handle_recv(
    kvstore: &mut KVStore,
    at_most_once_cache: &mut ExpiringHashMap<u128, Response>,
    buf: &[u8],
    now: u128,
    pid: i32,
) -> (r: Result<Option<Msg>, ApplicationError>)
    requires
        old(kvstore).wf(),
        old(at_most_once_cache).wf(),
        cache_bounded(cache_view(old(at_most_once_cache)@)),
    ensures
        final(kvstore).wf(),
        final(at_most_once_cache).wf(),
        final(at_most_once_cache).ttl() == old(at_most_once_cache).ttl(),
        cache_bounded(cache_view(final(at_most_once_cache)@)),
        (
            EngineState { store: final(kvstore)@, cache: cache_view(final(at_most_once_cache)@) },
            decision_of(r),
        ) == step(
            EngineState { store: old(kvstore)@, cache: cache_view(old(at_most_once_cache)@) },
            old(at_most_once_cache).ttl(),
            buf@,
            now,
            pid,
        ),
        r is Ok && r->Ok_0 is Some ==> r->Ok_0->0.encodable(),
{
    let msg = match Msg::from_bytes(buf) {
        Ok(msg) => msg,
        Err(e) => { return Err(e); },
    };
    let message_id = msg.message_id();
    match handle_frame(
        kvstore,
        at_most_once_cache,
        &message_id,
        msg.payload.as_slice(),
        now,
        pid,
    ) {
        Outcome::Reply(response) => Ok(Some(response.to_msg(message_id))),
        Outcome::Shutdown => Ok(None),
    }
}

/// Handles a datagram at the present time and decides what is done with
/// the socket: the bytes of the answering frame are sent, or nothing is, or
/// the process ends.
pub fn handler(
    kvstore: &mut KVStore,
    at_most_once_cache: &mut ExpiringHashMap<u128, Response>,
    buf: &[u8],
    pid: i32,
) -> (r: Action)
    requires
        old(kvstore).wf(),
        old(at_most_once_cache).wf(),
        cache_bounded(cache_view(old(at_most_once_cache)@)),
    ensures
        final(kvstore).wf(),
        final(at_most_once_cache).wf(),
        final(at_most_once_cache).ttl() == old(at_most_once_cache).ttl(),
        cache_bounded(cache_view(final(at_most_once_cache)@)),
        exists|now: u128|
            (
                EngineState {
                    store: final(kvstore)@,
                    cache: cache_view(final(at_most_once_cache)@),
                },
                r@,
            ) == #[trigger] step(
                EngineState { store: old(kvstore)@, cache: cache_view(old(at_most_once_cache)@) },
                old(at_most_once_cache).ttl(),
                buf@,
                now,
                pid,
            ),
{
    let now: u128 = at_most_once_cache.now();
    match handle_recv(kvstore, at_most_once_cache, buf, now, pid) {
        Ok(Some(msg)) => Action::Send(msg.to_bytes()),
        Ok(None) => Action::Shutdown,
        Err(e) => Action::Drop(e),
    }
}

} // verus!
