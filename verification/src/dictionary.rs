use vstd::prelude::*;

use crate::class::TalkClass;
use crate::error::TalkError;
use crate::reference::{TalkDataHandle, TalkReference};

use vstd::std_specs::cmp::PartialEqSpec;

use std::collections::HashMap;

verus! {

broadcast use vstd::std_specs::hash::group_hash_axioms;

/// What a key answered when it was sent the `hash` message
pub enum TalkHashReply {
    /// An error
    Error(TalkError),
    /// An integer
    Int(i64),
    /// Any other value
    Other,
}

/// The hash of a key from its reply to the `hash` message: an error is passed on, an integer
/// is the hash (as an unsigned number of the same bits), and any other value is not an integer
pub fn hash_reply(reply: TalkHashReply) -> (result: Result<usize, TalkError>)
    ensures
        match reply {
            TalkHashReply::Error(error) => result == Err::<usize, TalkError>(error),
            TalkHashReply::Int(hash) => result == Ok::<usize, TalkError>(hash as usize),
            TalkHashReply::Other => result == Err::<usize, TalkError>(TalkError::NotAnInteger),
        },
{
    match reply {
        TalkHashReply::Error(error) => Err(error),
        TalkHashReply::Int(hash) => Ok(hash as usize),
        TalkHashReply::Other => Err(TalkError::NotAnInteger),
    }
}

/// The data handle of the dictionary that a reference refers to: only instances of the
/// dictionary class (the class whose allocator holds dictionaries) have one, any other class is
/// `UnexpectedClass`
pub fn dictionary_handle(reference: TalkReference, dictionary_class: TalkClass) -> (result: Result<TalkDataHandle, TalkError>)
    ensures
        reference.0 == dictionary_class ==> result == Ok::<TalkDataHandle, TalkError>(reference.1),
        reference.0 != dictionary_class ==> result == Err::<TalkDataHandle, TalkError>(TalkError::UnexpectedClass),
{
    if reference.0 == dictionary_class {
        Ok(reference.1)
    } else {
        Err(TalkError::UnexpectedClass)
    }
}

/// The next step of looking up a key in a dictionary
pub enum TalkLookupStep<'a, V> {
    /// The key is in the dictionary with this value
    Found(&'a V),
    /// The key is not in the dictionary
    NotFound,
    /// Send the key the `=` message with the key of this entry of its bucket, and pass on the
    /// reply to `lookup_reply`
    CompareWith(usize),
}

/// Whether two keys are the same value (without sending the `=` message)
pub open spec fn identical<K: PartialEq>(key: K, other: K) -> bool {
    key.eq_spec(&other)
}

/// The position of the first entry of a bucket whose key is the same value as `key`
pub open spec fn first_identical<K: PartialEq, V>(bucket: Seq<(K, V)>, key: K) -> Option<int>
    decreases bucket.len(),
{
    if bucket.len() == 0 {
        None
    } else {
        match first_identical(bucket.drop_last(), key) {
            Some(i) => Some(i),
            None => if identical(key, bucket.last().0) {
                Some(bucket.len() - 1)
            } else {
                None
            },
        }
    }
}

/// The entries of a bucket whose keys are not the same value as `key`, in order
pub open spec fn without_identical<K: PartialEq, V>(bucket: Seq<(K, V)>, key: K) -> Seq<(K, V)>
    decreases bucket.len(),
{
    if bucket.len() == 0 {
        bucket
    } else {
        let rest = without_identical(bucket.drop_last(), key);
        if identical(key, bucket.last().0) {
            rest
        } else {
            rest.push(bucket.last())
        }
    }
}

/// The positions of the entries of a bucket before its last one, from last to first
pub open spec fn positions_before_last(len: nat) -> Seq<usize> {
    Seq::new((len - 1) as nat, |i: int| (len - 2 - i) as usize)
}

///
/// Data for the dictionary class: key-value pairs held in buckets by the hash of their keys.
/// Finding whether two keys are equal means sending the `=` message, so looking up and adding
/// keys is done in steps: this type decides each step, and the caller sends the messages.
///
pub struct TalkDictionary<K, V> {
    /// Maps hash values to key-value pairs
    buckets: HashMap<usize, Vec<(K, V)>>,
}

impl<K: Copy + PartialEq, V> TalkDictionary<K, V> {
    /// The entries whose keys have a hash value, in the order they were added
    pub closed spec fn bucket(self, hash: usize) -> Seq<(K, V)> {
        if self.buckets@.contains_key(hash) {
            self.buckets@[hash]@
        } else {
            Seq::empty()
        }
    }

    /// Creates an empty dictionary
    pub fn new() -> (result: TalkDictionary<K, V>)
        ensures
            forall|hash: usize| #[trigger] result.bucket(hash) == Seq::<(K, V)>::empty(),
    {
        TalkDictionary { buckets: HashMap::new() }
    }

    /// The first step of looking up a key with a hash value: the value of the first entry whose
    /// key is the same value as `key`; otherwise not found when no entries have the hash, and
    /// else a comparison with the first entry
    pub fn lookup_start(&self, hash: usize, key: K) -> (result: TalkLookupStep<'_, V>)
        requires
            K::obeys_eq_spec(),
        ensures
            match first_identical(self.bucket(hash), key) {
                Some(i) => result matches TalkLookupStep::Found(value) && *value == self.bucket(hash)[i].1,
                None => if self.bucket(hash).len() == 0 {
                    result is NotFound
                } else {
                    result matches TalkLookupStep::CompareWith(k) && k == 0
                },
            },
    {
        let bucket = match self.buckets.get(&hash) {
            Some(bucket) => bucket,
            None => {
                return TalkLookupStep::NotFound;
            },
        };
        let ghost entries = bucket@;
        assert(entries == self.bucket(hash));
        let mut i: usize = 0;
        while i < bucket.len()
            invariant
                K::obeys_eq_spec(),
                entries == bucket@,
                entries == self.bucket(hash),
                i <= entries.len(),
                first_identical(entries.take(i as int), key) is None,
            decreases entries.len() - i,
        {
            assert(entries.take(i + 1).drop_last() =~= entries.take(i as int));
            if key == bucket[i].0 {
                proof {
                    lemma_first_identical_prefix(entries, key, i as int);
                }
                return TalkLookupStep::Found(&bucket[i].1);
            }
            i = i + 1;
        }
        assert(entries.take(entries.len() as int) =~= entries);
        if bucket.len() == 0 {
            TalkLookupStep::NotFound
        } else {
            TalkLookupStep::CompareWith(0)
        }
    }

    /// The step after the key was compared (with the `=` message) with entry `index` of its
    /// bucket: the entry's value when they are equal, otherwise a comparison with the next
    /// entry, or not found after the last one
    pub fn lookup_reply(&self, hash: usize, index: usize, is_equal: bool) -> (result: TalkLookupStep<'_, V>)
        requires
            index < self.bucket(hash).len(),
        ensures
            is_equal ==> (result matches TalkLookupStep::Found(value) && *value == self.bucket(hash)[index as int].1),
            !is_equal && index + 1 < self.bucket(hash).len() ==> (result matches TalkLookupStep::CompareWith(k) && k == index + 1),
            !is_equal && index + 1 == self.bucket(hash).len() ==> result is NotFound,
    {
        let bucket = self.buckets.get(&hash).unwrap();
        assert(bucket@ == self.bucket(hash));
        if is_equal {
            TalkLookupStep::Found(&bucket[index].1)
        } else if index < bucket.len() - 1 {
            TalkLookupStep::CompareWith(index + 1)
        } else {
            TalkLookupStep::NotFound
        }
    }

    /// Adds a key and its value with a hash value: the entries whose keys are the same value as
    /// `key` are removed and the new entry goes at the end of its bucket. When none was removed
    /// and other entries share the hash, returns their positions (last first), which the caller
    /// compares with the key using the `=` message, calling `remove_if_equal` with each reply.
    pub fn add_value(&mut self, hash: usize, key: K, value: V) -> (to_compare: Vec<usize>)
        requires
            K::obeys_eq_spec(),
        ensures
            final(self).bucket(hash) == without_identical(old(self).bucket(hash), key).push((key, value)),
            forall|other: usize| other != hash ==> #[trigger] final(self).bucket(other) == old(self).bucket(other),
            to_compare@ == if without_identical(old(self).bucket(hash), key) == old(self).bucket(hash) {
                positions_before_last(final(self).bucket(hash).len())
            } else {
                Seq::<usize>::empty()
            },
    {
        let ghost old_self = *self;
        let old_bucket = match self.buckets.remove(&hash) {
            Some(bucket) => bucket,
            None => Vec::new(),
        };
        let ghost entries = old_bucket@;
        assert(entries == old_self.bucket(hash));
        let mut kept: Vec<(K, V)> = Vec::new();
        let mut found_key = false;
        let mut remaining = old_bucket;
        let mut i: usize = 0;
        let total = remaining.len();
        while i < total
            invariant
                K::obeys_eq_spec(),
                total == entries.len(),
                i <= total,
                remaining@ == entries.skip(i as int),
                kept@ == without_identical(entries.take(i as int), key),
                found_key == (without_identical(entries.take(i as int), key) != entries.take(i as int)),
            decreases total - i,
        {
            let entry = remaining.remove(0);
            proof {
                assert(entry == entries[i as int]);
                assert(remaining@ =~= entries.skip(i + 1));
                assert(entries.take(i + 1).drop_last() =~= entries.take(i as int));
                assert(entries.take(i + 1).last() == entry);
                lemma_without_identical_len(entries.take(i as int), key);
            }
            if key == entry.0 {
                found_key = true;
                proof {
                    lemma_without_identical_len(entries.take(i as int), key);
                    assert(without_identical(entries.take(i + 1), key).len() < entries.take(i + 1).len());
                }
            } else {
                kept.push(entry);
                proof {
                    if without_identical(entries.take(i as int), key) == entries.take(i as int) {
                        assert(without_identical(entries.take(i + 1), key) =~= entries.take(i + 1));
                    } else {
                        lemma_without_identical_len(entries.take(i as int), key);
                        assert(without_identical(entries.take(i + 1), key).len() < entries.take(i + 1).len());
                    }
                }
            }
            i = i + 1;
        }
        assert(entries.take(total as int) =~= entries);
        let ghost kept_view = kept@;
        kept.push((key, value));
        let len = kept.len();
        let mut to_compare: Vec<usize> = Vec::new();
        if !found_key && len > 1 {
            let mut k: usize = 0;
            while k < len - 1
                invariant
                    1 < len,
                    k <= len - 1,
                    to_compare@ == positions_before_last(len as nat).take(k as int),
                decreases len - 1 - k,
            {
                to_compare.push(len - 2 - k);
                assert(to_compare@ =~= positions_before_last(len as nat).take(k + 1));
                k = k + 1;
            }
            assert(positions_before_last(len as nat).take((len - 1) as int) =~= positions_before_last(len as nat));
        }
        self.buckets.insert(hash, kept);
        proof {
            assert(self.bucket(hash) == kept_view.push((key, value)));
            assert forall|other: usize| other != hash implies #[trigger] self.bucket(other) == old_self.bucket(other) by {
                if old_self.buckets@.contains_key(other) {
                    assert(self.buckets@[other] == old_self.buckets@[other]);
                }
            }
            if !found_key && len <= 1 {
                assert(positions_before_last(len as nat) =~= Seq::<usize>::empty());
            }
        }
        to_compare
    }

    /// Removes entry `index` of the bucket for a hash value if the new key was equal to its key
    /// (as the `=` message answered)
    pub fn remove_if_equal(&mut self, hash: usize, index: usize, is_equal: bool)
        requires
            index < old(self).bucket(hash).len(),
        ensures
            final(self).bucket(hash) == if is_equal {
                old(self).bucket(hash).remove(index as int)
            } else {
                old(self).bucket(hash)
            },
            forall|other: usize| other != hash ==> #[trigger] final(self).bucket(other) == old(self).bucket(other),
    {
        if is_equal {
            let ghost old_self = *self;
            let mut bucket = self.buckets.remove(&hash).unwrap();
            bucket.remove(index);
            self.buckets.insert(hash, bucket);
            proof {
                assert forall|other: usize| other != hash implies #[trigger] self.bucket(other) == old_self.bucket(other) by {
                    if old_self.buckets@.contains_key(other) {
                        assert(self.buckets@[other] == old_self.buckets@[other]);
                    }
                }
            }
        }
    }
}

proof fn lemma_first_identical_prefix<K: PartialEq, V>(entries: Seq<(K, V)>, key: K, i: int)
    requires
        0 <= i < entries.len(),
        first_identical(entries.take(i), key) is None,
        identical(key, entries[i].0),
    ensures
        first_identical(entries, key) == Some(i),
    decreases entries.len(),
{
    if i < entries.len() - 1 {
        assert(entries.drop_last().take(i) =~= entries.take(i));
        assert(entries.drop_last()[i] == entries[i]);
        lemma_first_identical_prefix(entries.drop_last(), key, i);
    } else {
        assert(entries.drop_last() =~= entries.take(i));
    }
}

proof fn lemma_without_identical_len<K: PartialEq, V>(entries: Seq<(K, V)>, key: K)
    ensures
        without_identical(entries, key).len() <= entries.len(),
        without_identical(entries, key).len() == entries.len() ==> without_identical(entries, key) == entries,
    decreases entries.len(),
{
    if entries.len() > 0 {
        lemma_without_identical_len(entries.drop_last(), key);
        if !identical(key, entries.last().0) {
            if without_identical(entries, key).len() == entries.len() {
                assert(entries.drop_last().push(entries.last()) =~= entries);
            }
        }
    }
}

/// After a key is added to a dictionary, looking it up finds the value it was added with
/// straight away (when the key is the same value as itself), whatever was in its bucket before
pub proof fn law_lookup_after_add<K: PartialEq, V>(bucket: Seq<(K, V)>, key: K, value: V)
    requires
        identical(key, key),
    ensures
        first_identical(without_identical(bucket, key).push((key, value)), key)
            == Some(without_identical(bucket, key).len() as int),
{
    let kept = without_identical(bucket, key);
    lemma_no_identical_left(bucket, key);
    assert(kept.push((key, value)).drop_last() =~= kept);
}

proof fn lemma_no_identical_left<K: PartialEq, V>(bucket: Seq<(K, V)>, key: K)
    ensures
        first_identical(without_identical(bucket, key), key) is None,
    decreases bucket.len(),
{
    if bucket.len() > 0 {
        lemma_no_identical_left(bucket.drop_last(), key);
        let rest = without_identical(bucket.drop_last(), key);
        if !identical(key, bucket.last().0) {
            assert(rest.push(bucket.last()).drop_last() =~= rest);
        }
    }
}

/// Whether a relation behaves as `=` is expected to between keys: symmetric, transitive, and
/// true of keys that are the same value
pub open spec fn equality_laws<K: PartialEq>(equal: spec_fn(K, K) -> bool) -> bool {
    &&& forall|a: K, b: K| #[trigger] equal(a, b) ==> equal(b, a)
    &&& forall|a: K, b: K, c: K| #[trigger] equal(a, b) && #[trigger] equal(b, c) ==> equal(a, c)
    &&& forall|a: K, b: K| #[trigger] identical(a, b) ==> equal(a, b)
}

/// Whether no two keys of a bucket are equal (by `equal`)
pub open spec fn keys_distinct<K, V>(bucket: Seq<(K, V)>, equal: spec_fn(K, K) -> bool) -> bool {
    forall|i: int, j: int| 0 <= i < bucket.len() && 0 <= j < bucket.len() && i != j ==> !equal(#[trigger] bucket[i].0, #[trigger] bucket[j].0)
}

/// The bucket after the caller has compared the new key with the entry at each position that
/// `add_value` returned (in that order, with `equal` giving the `=` replies) and called
/// `remove_if_equal` with each reply
pub open spec fn after_compare_replies<K, V>(
    bucket: Seq<(K, V)>,
    key: K,
    positions: Seq<usize>,
    equal: spec_fn(K, K) -> bool,
) -> Seq<(K, V)>
    decreases positions.len(),
{
    if positions.len() == 0 {
        bucket
    } else {
        let p = positions[0] as int;
        let next = if 0 <= p < bucket.len() && equal(key, bucket[p].0) {
            bucket.remove(p)
        } else {
            bucket
        };
        after_compare_replies(next, key, positions.drop_first(), equal)
    }
}

/// The position of the first entry of a bucket whose key `equal` says is equal to `key`
pub open spec fn first_equal<K, V>(bucket: Seq<(K, V)>, key: K, equal: spec_fn(K, K) -> bool) -> Option<int>
    decreases bucket.len(),
{
    if bucket.len() == 0 {
        None
    } else {
        match first_equal(bucket.drop_last(), key, equal) {
            Some(i) => Some(i),
            None => if equal(key, bucket.last().0) {
                Some(bucket.len() - 1)
            } else {
                None
            },
        }
    }
}

/// What looking up a key finds when the `=` replies follow `equal`: the value of the first
/// entry whose key is the same value, otherwise the value of the first entry whose key is
/// equal, otherwise nothing (the steps of `lookup_start` and `lookup_reply`)
pub open spec fn lookup_outcome<K: PartialEq, V>(bucket: Seq<(K, V)>, key: K, equal: spec_fn(K, K) -> bool) -> Option<V> {
    match first_identical(bucket, key) {
        Some(i) => Some(bucket[i].1),
        None => match first_equal(bucket, key, equal) {
            Some(j) => Some(bucket[j].1),
            None => None,
        },
    }
}

proof fn lemma_first_identical_found<K: PartialEq, V>(bucket: Seq<(K, V)>, key: K)
    ensures
        first_identical(bucket, key) matches Some(i) ==> 0 <= i < bucket.len() && identical(key, bucket[i].0),
        first_identical(bucket, key) is None ==> forall|i: int| 0 <= i < bucket.len() ==> !identical(key, #[trigger] bucket[i].0),
    decreases bucket.len(),
{
    if bucket.len() > 0 {
        let rest = bucket.drop_last();
        lemma_first_identical_found(rest, key);
        if first_identical(bucket, key) is None {
            assert forall|i: int| 0 <= i < bucket.len() implies !identical(key, #[trigger] bucket[i].0) by {
                if i < bucket.len() - 1 {
                    assert(bucket[i] == rest[i]);
                } else {
                    assert(bucket[i] == bucket.last());
                }
            }
        }
        if let Some(i) = first_identical(bucket, key) {
            if i < bucket.len() - 1 {
                assert(bucket[i] == rest[i]);
            }
        }
    }
}

/// When only the last entry of a bucket satisfies a property, the first entry that does is the
/// last one
proof fn lemma_first_equal_last<K, V>(bucket: Seq<(K, V)>, key: K, equal: spec_fn(K, K) -> bool)
    requires
        bucket.len() > 0,
        equal(key, bucket.last().0),
        forall|i: int| 0 <= i < bucket.len() - 1 ==> !equal(key, #[trigger] bucket[i].0),
    ensures
        first_equal(bucket, key, equal) == Some(bucket.len() - 1),
{
    lemma_first_equal_none(bucket.drop_last(), key, equal);
}

proof fn lemma_first_equal_none<K, V>(bucket: Seq<(K, V)>, key: K, equal: spec_fn(K, K) -> bool)
    requires
        forall|i: int| 0 <= i < bucket.len() ==> !equal(key, #[trigger] bucket[i].0),
    ensures
        first_equal(bucket, key, equal) is None,
    decreases bucket.len(),
{
    if bucket.len() > 0 {
        assert forall|i: int| 0 <= i < bucket.drop_last().len() implies !equal(key, #[trigger] bucket.drop_last()[i].0) by {
            assert(bucket.drop_last()[i] == bucket[i]);
        }
        lemma_first_equal_none(bucket.drop_last(), key, equal);
        assert(bucket[bucket.len() - 1] == bucket.last());
    }
}

/// Every entry of a bucket without the entries identical to a key is an entry of the bucket that
/// is not identical to the key
proof fn lemma_without_identical_members<K: PartialEq, V>(bucket: Seq<(K, V)>, key: K)
    ensures
        forall|k: int| 0 <= k < without_identical(bucket, key).len() ==> exists|i: int|
            0 <= i < bucket.len() && !identical(key, bucket[i].0) && #[trigger] without_identical(bucket, key)[k] == bucket[i],
    decreases bucket.len(),
{
    if bucket.len() > 0 {
        let rest = bucket.drop_last();
        lemma_without_identical_members(rest, key);
        let kept = without_identical(bucket, key);
        let rest_kept = without_identical(rest, key);
        assert forall|k: int| 0 <= k < kept.len() implies exists|i: int|
            0 <= i < bucket.len() && !identical(key, bucket[i].0) && #[trigger] kept[k] == bucket[i] by {
            if k < rest_kept.len() {
                let i = choose|i: int| 0 <= i < rest.len() && !identical(key, rest[i].0) && rest_kept[k] == rest[i];
                assert(kept[k] == rest_kept[k]);
                assert(bucket[i] == rest[i]);
            } else {
                assert(kept[k] == bucket[bucket.len() - 1]);
            }
        }
    }
}

/// A bucket with no key identical to `key` keeps all of its entries
proof fn lemma_without_identical_unchanged<K: PartialEq, V>(bucket: Seq<(K, V)>, key: K)
    requires
        forall|i: int| 0 <= i < bucket.len() ==> !identical(key, #[trigger] bucket[i].0),
    ensures
        without_identical(bucket, key) == bucket,
    decreases bucket.len(),
{
    if bucket.len() > 0 {
        let rest = bucket.drop_last();
        assert forall|i: int| 0 <= i < rest.len() implies !identical(key, #[trigger] rest[i].0) by {
            assert(rest[i] == bucket[i]);
        }
        lemma_without_identical_unchanged(rest, key);
        assert(!identical(key, bucket[bucket.len() - 1].0));
        assert(rest.push(bucket.last()) =~= bucket);
    }
}

/// Taking out the entries identical to a key keeps the keys of a bucket distinct
proof fn lemma_without_identical_distinct<K: PartialEq, V>(bucket: Seq<(K, V)>, key: K, equal: spec_fn(K, K) -> bool)
    requires
        keys_distinct(bucket, equal),
    ensures
        keys_distinct(without_identical(bucket, key), equal),
    decreases bucket.len(),
{
    if bucket.len() > 0 {
        let rest = bucket.drop_last();
        assert forall|i: int, j: int| 0 <= i < rest.len() && 0 <= j < rest.len() && i != j
            implies !equal(#[trigger] rest[i].0, #[trigger] rest[j].0) by {
            assert(rest[i] == bucket[i] && rest[j] == bucket[j]);
        }
        lemma_without_identical_distinct(rest, key, equal);
        lemma_without_identical_members(rest, key);
        let rest_kept = without_identical(rest, key);
        let kept = without_identical(bucket, key);
        let last = bucket.len() - 1;
        assert(bucket[last] == bucket.last());
        if !identical(key, bucket.last().0) {
            assert forall|a: int, b: int| 0 <= a < kept.len() && 0 <= b < kept.len() && a != b
                implies !equal(#[trigger] kept[a].0, #[trigger] kept[b].0) by {
                if a < rest_kept.len() && b < rest_kept.len() {
                    assert(kept[a] == rest_kept[a] && kept[b] == rest_kept[b]);
                } else if a < rest_kept.len() {
                    let i = choose|i: int| 0 <= i < rest.len() && !identical(key, rest[i].0) && rest_kept[a] == rest[i];
                    assert(kept[a] == bucket[i]);
                    assert(kept[b] == bucket[last]);
                } else {
                    let i = choose|i: int| 0 <= i < rest.len() && !identical(key, rest[i].0) && rest_kept[b] == rest[i];
                    assert(kept[b] == bucket[i]);
                    assert(kept[a] == bucket[last]);
                }
            }
        }
    }
}

/// Applying comparison replies that find nothing equal leaves the bucket as it is
proof fn lemma_replies_without_equal<K, V>(bucket: Seq<(K, V)>, key: K, positions: Seq<usize>, equal: spec_fn(K, K) -> bool)
    requires
        forall|j: int| 0 <= j < positions.len() && 0 <= #[trigger] positions[j] < bucket.len() ==> !equal(key, bucket[positions[j] as int].0),
    ensures
        after_compare_replies(bucket, key, positions, equal) == bucket,
    decreases positions.len(),
{
    if positions.len() > 0 {
        assert forall|j: int| 0 <= j < positions.drop_first().len() && 0 <= #[trigger] positions.drop_first()[j] < bucket.len()
            implies !equal(key, bucket[positions.drop_first()[j] as int].0) by {
            assert(positions.drop_first()[j] == positions[j + 1]);
        }
        lemma_replies_without_equal(bucket, key, positions.drop_first(), equal);
    }
}

/// A bucket whose keys are distinct, with an entry appended whose key is equal to none of them,
/// has distinct keys
proof fn lemma_push_distinct<K: PartialEq, V>(bucket: Seq<(K, V)>, entry: (K, V), equal: spec_fn(K, K) -> bool)
    requires
        keys_distinct(bucket, equal),
        equality_laws(equal),
        forall|i: int| 0 <= i < bucket.len() ==> !equal(entry.0, #[trigger] bucket[i].0),
    ensures
        keys_distinct(bucket.push(entry), equal),
{
    let added = bucket.push(entry);
    assert forall|i: int, j: int| 0 <= i < added.len() && 0 <= j < added.len() && i != j
        implies !equal(#[trigger] added[i].0, #[trigger] added[j].0) by {
        if i < bucket.len() && j < bucket.len() {
            assert(added[i] == bucket[i] && added[j] == bucket[j]);
        } else if i < bucket.len() {
            assert(added[i] == bucket[i]);
            assert(!equal(entry.0, bucket[i].0));
        } else {
            assert(added[j] == bucket[j]);
            assert(!equal(entry.0, bucket[j].0));
        }
    }
}

/// When a bucket holds a key identical to `key`, none of the entries that are kept has a key
/// equal to `key`
proof fn lemma_kept_not_equal<K: PartialEq, V>(bucket: Seq<(K, V)>, key: K, equal: spec_fn(K, K) -> bool)
    requires
        keys_distinct(bucket, equal),
        equality_laws(equal),
        without_identical(bucket, key) != bucket,
    ensures
        forall|k: int| 0 <= k < without_identical(bucket, key).len() ==> !equal(key, #[trigger] without_identical(bucket, key)[k].0),
{
    let kept = without_identical(bucket, key);
    if forall|i: int| 0 <= i < bucket.len() ==> !identical(key, #[trigger] bucket[i].0) {
        lemma_without_identical_unchanged(bucket, key);
    }
    let x = choose|x: int| 0 <= x < bucket.len() && identical(key, #[trigger] bucket[x].0);
    assert(equal(key, bucket[x].0));
    lemma_without_identical_members(bucket, key);
    assert forall|k: int| 0 <= k < kept.len() implies !equal(key, #[trigger] kept[k].0) by {
        let i = choose|i: int| 0 <= i < bucket.len() && !identical(key, bucket[i].0) && kept[k] == bucket[i];
        assert(i != x);
        if equal(key, kept[k].0) {
            assert(equal(bucket[x].0, key));
            assert(equal(bucket[x].0, bucket[i].0));
        }
    }
}

/// When no key of a bucket is identical to `key`, comparing `key` with every entry removes the
/// (at most one) entry with an equal key, and the new entry ends a bucket with distinct keys
/// whose earlier keys are not equal to it
#[verifier::rlimit(30)]
proof fn lemma_compared_bucket<K: PartialEq, V>(bucket: Seq<(K, V)>, key: K, value: V, equal: spec_fn(K, K) -> bool)
    requires
        keys_distinct(bucket, equal),
        equality_laws(equal),
        bucket.len() < usize::MAX,
    ensures
        ({
            let added = bucket.push((key, value));
            let result = after_compare_replies(added, key, positions_before_last(added.len()), equal);
            &&& keys_distinct(result, equal)
            &&& result.len() > 0
            &&& result.last() == (key, value)
            &&& forall|i: int| 0 <= i < result.len() - 1 ==> !equal(key, #[trigger] result[i].0)
        }),
{
    let added = bucket.push((key, value));
    let to_compare = positions_before_last(added.len());
    assert(to_compare =~= Seq::new(bucket.len(), |i: int| (bucket.len() - 1 - i) as usize));
    if exists|m: int| 0 <= m < bucket.len() && equal(key, #[trigger] bucket[m].0) {
        let m = choose|m: int| 0 <= m < bucket.len() && equal(key, #[trigger] bucket[m].0);
        assert forall|i: int| 0 <= i < bucket.len() && i != m implies !equal(key, #[trigger] bucket[i].0) by {
            if equal(key, bucket[i].0) {
                assert(equal(bucket[m].0, key));
                assert(equal(bucket[m].0, bucket[i].0));
            }
        }
        lemma_replies_remove_one_prefix(bucket, (key, value), key, m, equal);
        let shortened = bucket.remove(m);
        bucket.remove_ensures(m);
        assert(added.remove(m) =~= shortened.push((key, value)));
        assert forall|i: int| 0 <= i < shortened.len() implies !equal(key, #[trigger] shortened[i].0) by {
            if i < m {
                assert(shortened[i] == bucket[i]);
            } else {
                assert(shortened[i] == bucket[i + 1]);
            }
        }
        assert forall|i: int, j: int| 0 <= i < shortened.len() && 0 <= j < shortened.len() && i != j
            implies !equal(#[trigger] shortened[i].0, #[trigger] shortened[j].0) by {
            let bi = if i < m { i } else { i + 1 };
            let bj = if j < m { j } else { j + 1 };
            assert(shortened[i] == bucket[bi] && shortened[j] == bucket[bj]);
        }
        lemma_push_distinct(shortened, (key, value), equal);
        let result = shortened.push((key, value));
        assert forall|i: int| 0 <= i < result.len() - 1 implies !equal(key, #[trigger] result[i].0) by {
            assert(result[i] == shortened[i]);
        }
    } else {
        assert forall|j: int| 0 <= j < to_compare.len() && 0 <= #[trigger] to_compare[j] < added.len()
            implies !equal(key, added[to_compare[j] as int].0) by {
            let p = to_compare[j] as int;
            assert(added[p] == bucket[p]);
        }
        lemma_replies_without_equal(added, key, to_compare, equal);
        lemma_push_distinct(bucket, (key, value), equal);
        assert forall|i: int| 0 <= i < added.len() - 1 implies !equal(key, #[trigger] added[i].0) by {
            assert(added[i] == bucket[i]);
        }
    }
}

/// Adding a key keeps the keys of its bucket distinct: once the `=` replies to the comparisons
/// that `add_value` asks for have been applied (and `=` behaves as an equality), no two keys of
/// the bucket are equal, its last entry is the new key with its value, and no earlier entry has
/// a key equal to the new one
pub proof fn law_add_keeps_keys_distinct<K: PartialEq, V>(
    bucket: Seq<(K, V)>,
    key: K,
    value: V,
    equal: spec_fn(K, K) -> bool,
)
    requires
        keys_distinct(bucket, equal),
        equality_laws(equal),
        bucket.len() < usize::MAX,
    ensures
        ({
            let kept = without_identical(bucket, key);
            let added = kept.push((key, value));
            let to_compare = if kept == bucket { positions_before_last(added.len()) } else { Seq::<usize>::empty() };
            let result = after_compare_replies(added, key, to_compare, equal);
            &&& keys_distinct(result, equal)
            &&& result.len() > 0
            &&& result.last() == (key, value)
            &&& forall|i: int| 0 <= i < result.len() - 1 ==> !equal(key, #[trigger] result[i].0)
        }),
{
    let kept = without_identical(bucket, key);
    let added = kept.push((key, value));
    if kept != bucket {
        lemma_without_identical_distinct(bucket, key, equal);
        lemma_kept_not_equal(bucket, key, equal);
        assert forall|i: int| 0 <= i < kept.len() implies !equal(key, #[trigger] kept[i].0) by {}
        lemma_push_distinct(kept, (key, value), equal);
        assert(after_compare_replies(added, key, Seq::<usize>::empty(), equal) == added);
        assert forall|i: int| 0 <= i < added.len() - 1 implies !equal(key, #[trigger] added[i].0) by {
            assert(added[i] == kept[i]);
        }
    } else {
        lemma_compared_bucket(bucket, key, value, equal);
    }
}

/// The comparisons after adding a new entry to a bucket remove the one earlier entry that is
/// equal to the new key
proof fn lemma_replies_remove_one_prefix<K, V>(bucket: Seq<(K, V)>, entry: (K, V), key: K, m: int, equal: spec_fn(K, K) -> bool)
    requires
        0 <= m < bucket.len(),
        bucket.len() < usize::MAX,
        equal(key, bucket[m].0),
        forall|i: int| 0 <= i < bucket.len() && i != m ==> !equal(key, #[trigger] bucket[i].0),
    ensures
        after_compare_replies(bucket.push(entry), key, Seq::new(bucket.len(), |i: int| (bucket.len() - 1 - i) as usize), equal)
            == bucket.push(entry).remove(m),
{
    let added = bucket.push(entry);
    assert(added[m] == bucket[m]);
    // Only positions below the last are compared, so the new entry's own key does not matter
    lemma_replies_remove_one_below(added, key, bucket.len(), m, equal);
}

proof fn lemma_replies_remove_one_below<K, V>(bucket: Seq<(K, V)>, key: K, top: nat, m: int, equal: spec_fn(K, K) -> bool)
    requires
        0 <= m < top <= bucket.len(),
        top <= usize::MAX,
        equal(key, bucket[m].0),
        forall|i: int| 0 <= i < top && i != m ==> !equal(key, #[trigger] bucket[i].0),
    ensures
        after_compare_replies(bucket, key, Seq::new(top, |i: int| (top - 1 - i) as usize), equal) == bucket.remove(m),
    decreases top,
{
    let positions = Seq::new(top, |i: int| (top - 1 - i) as usize);
    let p = (top - 1) as int;
    assert(positions[0] == (top - 1 - 0) as usize);
    assert(positions[0] as int == p);
    let rest: Seq<usize> = Seq::new((top - 1) as nat, |i: int| (top - 2 - i) as usize);
    assert(positions.drop_first() =~= rest);
    if p == m {
        let removed = bucket.remove(m);
        assert forall|j: int| 0 <= j < rest.len() && 0 <= #[trigger] rest[j] < removed.len() implies !equal(key, removed[rest[j] as int].0) by {
            assert(rest[j] < m);
            assert(removed[rest[j] as int] == bucket[rest[j] as int]);
        }
        lemma_replies_without_equal(removed, key, rest, equal);
    } else {
        assert(!equal(key, bucket[p].0));
        lemma_replies_remove_one_below(bucket, key, (top - 1) as nat, m, equal);
    }
}

/// After `at: key put: value` (adding the key and applying the `=` replies), looking up any key
/// that `=` says equals `key` finds `value`, when the bucket's keys were distinct and `=`
/// behaves as an equality
pub proof fn law_lookup_equal_key_after_add<K: PartialEq, V>(
    bucket: Seq<(K, V)>,
    key: K,
    value: V,
    other_key: K,
    equal: spec_fn(K, K) -> bool,
)
    requires
        keys_distinct(bucket, equal),
        equality_laws(equal),
        bucket.len() < usize::MAX,
        equal(other_key, key),
    ensures
        ({
            let kept = without_identical(bucket, key);
            let added = kept.push((key, value));
            let to_compare = if kept == bucket { positions_before_last(added.len()) } else { Seq::<usize>::empty() };
            lookup_outcome(after_compare_replies(added, key, to_compare, equal), other_key, equal) == Some(value)
        }),
{
    law_add_keeps_keys_distinct(bucket, key, value, equal);
    let kept = without_identical(bucket, key);
    let added = kept.push((key, value));
    let to_compare = if kept == bucket { positions_before_last(added.len()) } else { Seq::<usize>::empty() };
    let result = after_compare_replies(added, key, to_compare, equal);
    let last = result.len() - 1;
    assert(result[last] == result.last());
    // Only the new entry has a key equal to `other_key`
    assert forall|i: int| 0 <= i < result.len() - 1 implies !equal(other_key, #[trigger] result[i].0) by {
        if equal(other_key, result[i].0) {
            assert(equal(key, other_key));
            assert(equal(key, result[i].0));
        }
    }
    lemma_first_identical_found(result, other_key);
    match first_identical(result, other_key) {
        Some(i) => {
            assert(equal(other_key, result[i].0));
            if i < last {
                assert(!equal(other_key, result[i].0));
            }
        },
        None => {
            lemma_first_equal_last(result, other_key, equal);
        },
    }
}

/// What the steps after `CompareWith(index)` find when the `=` replies follow `equal`: each
/// `lookup_reply` either finds the entry it compared or moves to the next one
pub open spec fn compare_from<K, V>(bucket: Seq<(K, V)>, key: K, equal: spec_fn(K, K) -> bool, index: int) -> Option<V>
    decreases bucket.len() - index,
{
    if index < 0 || index >= bucket.len() {
        None
    } else if equal(key, bucket[index].0) {
        Some(bucket[index].1)
    } else {
        compare_from(bucket, key, equal, index + 1)
    }
}

proof fn lemma_first_equal_found<K, V>(bucket: Seq<(K, V)>, key: K, equal: spec_fn(K, K) -> bool)
    ensures
        first_equal(bucket, key, equal) matches Some(j) ==> 0 <= j < bucket.len() && equal(key, bucket[j].0)
            && forall|i: int| 0 <= i < j ==> !equal(key, #[trigger] bucket[i].0),
        first_equal(bucket, key, equal) is None ==> forall|i: int| 0 <= i < bucket.len() ==> !equal(key, #[trigger] bucket[i].0),
    decreases bucket.len(),
{
    if bucket.len() > 0 {
        let rest = bucket.drop_last();
        lemma_first_equal_found(rest, key, equal);
        assert forall|i: int| 0 <= i < rest.len() implies #[trigger] bucket[i] == rest[i] by {}
        assert(bucket[bucket.len() - 1] == bucket.last());
    }
}

proof fn lemma_compare_from<K, V>(bucket: Seq<(K, V)>, key: K, equal: spec_fn(K, K) -> bool, index: int)
    requires
        0 <= index <= bucket.len(),
        forall|i: int| 0 <= i < index ==> !equal(key, #[trigger] bucket[i].0),
    ensures
        compare_from(bucket, key, equal, index) == match first_equal(bucket, key, equal) {
            Some(j) => Some(bucket[j].1),
            None => None::<V>,
        },
    decreases bucket.len() - index,
{
    lemma_first_equal_found(bucket, key, equal);
    if index < bucket.len() {
        if !equal(key, bucket[index].0) {
            lemma_compare_from(bucket, key, equal, index + 1);
        } else {
            if let Some(j) = first_equal(bucket, key, equal) {
                if j > index {
                    assert(!equal(key, bucket[index].0));
                }
            }
        }
    }
}

/// Looking a key up step by step finds `lookup_outcome`: `lookup_start` finds the first
/// identical key, and otherwise the comparisons from the first entry on (`lookup_reply` with
/// each `=` reply) stop at the first entry whose key is equal
pub proof fn law_lookup_steps_find_outcome<K: PartialEq, V>(bucket: Seq<(K, V)>, key: K, equal: spec_fn(K, K) -> bool)
    requires
        first_identical(bucket, key) is None,
    ensures
        compare_from(bucket, key, equal, 0) == lookup_outcome(bucket, key, equal),
{
    lemma_compare_from(bucket, key, equal, 0);
}

} // verus!
