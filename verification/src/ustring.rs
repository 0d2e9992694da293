//! The interning store and the handles it hands out.

use crate::uhash::{ahash, spec_ahash};
use std::borrow::Cow;
use std::collections::HashMap;
use vstd::prelude::*;
use vstd::string::StrSliceExecFns;

verus! {

broadcast use vstd::std_specs::hash::group_hash_axioms;

/// Number of independent shards of the store.
pub const BUCKET_COUNT: u64 = 64;

/// One shard as a list: the hash and the text of each string it holds, in
/// the order in which they were stored.
pub type ShardModel = Seq<(u64, Seq<char>)>;

/// The whole store as a list of its shards.
pub type StoreModel = Seq<ShardModel>;

/// Whether some string of the shard was stored under `hash`.
pub open spec fn holds_hash(shard: ShardModel, hash: u64) -> bool {
    exists|i: int| 0 <= i < shard.len() && (#[trigger] shard[i]).0 == hash
}

/// The first slot of the shard that was stored under `hash`; where there
/// is none, the number of slots, which is the slot that comes next.
pub open spec fn slot_of(shard: ShardModel, hash: u64) -> int
    decreases shard.len(),
{
    if shard.len() == 0 {
        0
    } else {
        let before = slot_of(shard.drop_last(), hash);
        if before < shard.len() - 1 {
            before
        } else if shard.last().0 == hash {
            shard.len() - 1
        } else {
            shard.len() as int
        }
    }
}

/// The slot found for a hash lies in the shard exactly when the shard
/// holds the hash; it then holds that hash, and no slot before it does.
pub proof fn lemma_slot_of(shard: ShardModel, hash: u64)
    ensures
        0 <= slot_of(shard, hash) <= shard.len(),
        slot_of(shard, hash) < shard.len() <==> holds_hash(shard, hash),
        slot_of(shard, hash) < shard.len() ==> shard[slot_of(shard, hash)].0 == hash,
        forall|j: int| 0 <= j < slot_of(shard, hash) ==> (#[trigger] shard[j]).0 != hash,
    decreases shard.len(),
{
    if shard.len() > 0 {
        let rest = shard.drop_last();
        lemma_slot_of(rest, hash);
        let before = slot_of(rest, hash);
        assert forall|j: int| 0 <= j < slot_of(shard, hash) implies (#[trigger] shard[j]).0
            != hash by {
            if j < rest.len() {
                assert(rest[j] == shard[j]);
            }
        }
        if before < rest.len() {
            assert(rest[before] == shard[before]);
        } else {
            if holds_hash(shard, hash) {
                let i = choose|i: int| 0 <= i < shard.len() && (#[trigger] shard[i]).0 == hash;
                if i < rest.len() {
                    assert(rest[i] == shard[i]);
                }
            }
        }
    }
}

/// No two strings of the shard were stored under the same hash.
pub open spec fn distinct_hashes(shard: ShardModel) -> bool {
    forall|i: int, j: int|
        0 <= i < shard.len() && 0 <= j < shard.len() && (#[trigger] shard[i]).0 == (
        #[trigger] shard[j]).0 ==> i == j
}

/// The shard that a hash selects.
pub open spec fn spec_shard(hash: u64) -> int {
    (hash % BUCKET_COUNT) as int
}

/// A store is consistent when it has all its shards, every string sits in
/// the shard that its hash selects, and a shard holds each hash once.
pub open spec fn store_consistent(store: StoreModel) -> bool {
    &&& store.len() == BUCKET_COUNT
    &&& forall|s: int| 0 <= s < store.len() ==> distinct_hashes(#[trigger] store[s])
    &&& forall|s: int, i: int|
        0 <= s < store.len() && 0 <= i < store[s].len() ==> spec_shard((#[trigger] store[s][i]).0)
            == s
}

/// Whether `entry`, a pair of shard and slot, names a string of the store.
pub open spec fn holds_entry(store: StoreModel, entry: (usize, usize)) -> bool {
    entry.0 < store.len() && entry.1 < store[entry.0 as int].len()
}

/// Interning in the model: the store afterwards and the shard and slot of
/// the handle. A hash that its shard already holds gives the slot stored
/// under it, whatever the text there; a new hash appends the text to the
/// shard.
pub open spec fn spec_intern(store: StoreModel, hash: u64, string: Seq<char>) -> (
    StoreModel,
    (int, int),
) {
    let shard = spec_shard(hash);
    let slot = slot_of(store[shard], hash);
    if slot < store[shard].len() {
        (store, (shard, slot))
    } else {
        (store.update(shard, store[shard].push((hash, string))), (shard, slot))
    }
}

/// The hash of a text: that of its bytes in UTF-8.
pub open spec fn spec_text_hash(text: Seq<char>) -> u64 {
    spec_ahash(vstd::utf8::encode_utf8(text))
}

/// What a shard keeps of one string.
pub struct UniqueStringEntry {
    hash: u64,
    string: String,
}

/// One shard: the strings it owns, and for each hash the slot of the string
/// stored under it.
pub struct UniqueStringBucket {
    entries: Vec<UniqueStringEntry>,
    lookup: HashMap<u64, usize>,
}

impl View for UniqueStringBucket {
    type V = ShardModel;

    /// The strings of the shard, each with its hash.
    closed spec fn view(&self) -> ShardModel {
        Seq::new(self.entries@.len(), |i: int| (self.entries@[i].hash, self.entries@[i].string@))
    }
}

impl UniqueStringBucket {
    /// The lookup table and the list of strings describe each other.
    pub closed spec fn wf(&self) -> bool {
        &&& forall|h: u64| #[trigger]
            self.lookup@.contains_key(h) ==> self.lookup@[h] < self.entries@.len()
                && self.entries@[self.lookup@[h] as int].hash == h
        &&& forall|i: int|
            0 <= i < self.entries@.len() ==> self.lookup@.contains_key(
                (#[trigger] self.entries@[i]).hash,
            ) && self.lookup@[self.entries@[i].hash] == i
    }

    /// A consistent shard holds each hash once.
    pub proof fn lemma_distinct(&self)
        requires
            self.wf(),
        ensures
            distinct_hashes(self@),
    {
        assert forall|i: int, j: int|
            0 <= i < self@.len() && 0 <= j < self@.len() && (#[trigger] self@[i]).0 == (
            #[trigger] self@[j]).0 implies i == j by {
            assert(self.entries@[i].hash == self.entries@[j].hash);
        }
    }

    /// A shard that holds nothing.
    pub fn new() -> (bucket: Self)
        ensures
            bucket.wf(),
            bucket@ == ShardModel::empty(),
    {
        let bucket = UniqueStringBucket { entries: Vec::new(), lookup: HashMap::new() };
        assert(bucket@ =~= ShardModel::empty());
        bucket
    }

    /// The slot stored under `hash`, if the shard holds that hash.
    pub fn get(&self, hash: u64) -> (slot: Option<usize>)
        requires
            self.wf(),
        ensures
            slot is Some <==> holds_hash(self@, hash),
            slot is Some ==> slot.unwrap() == slot_of(self@, hash),
    {
        proof {
            self.lemma_distinct();
            lemma_slot_of(self@, hash);
        }
        match self.lookup.get(&hash) {
            Some(slot) => {
                assert(self@[*slot as int].0 == hash);
                assert(self@[slot_of(self@, hash)].0 == self@[*slot as int].0);
                Some(*slot)
            },
            None => {
                assert forall|i: int| 0 <= i < self@.len() implies (#[trigger] self@[i]).0
                    != hash by {
                    assert(self.lookup@.contains_key(self.entries@[i].hash));
                }
                None
            },
        }
    }

    /// Appends a copy of `string` under a hash that the shard does not hold
    /// yet, and returns its slot.
    pub fn store(&mut self, string: &str, hash: u64) -> (slot: usize)
        requires
            old(self).wf(),
            !holds_hash(old(self)@, hash),
        ensures
            final(self).wf(),
            final(self)@ == old(self)@.push((hash, string@)),
            slot == old(self)@.len(),
    {
        let slot: usize = self.entries.len();
        proof {
            if self.lookup@.contains_key(hash) {
                assert(self@[self.lookup@[hash] as int].0 == hash);
            }
        }
        self.entries.push(UniqueStringEntry { hash, string: string.to_owned() });
        self.lookup.insert(hash, slot);
        proof {
            assert(self@ =~= old(self)@.push((hash, string@)));
            assert forall|i: int| 0 <= i < self.entries@.len() implies self.lookup@.contains_key(
                (#[trigger] self.entries@[i]).hash,
            ) && self.lookup@[self.entries@[i].hash] == i by {
                if i < slot {
                    assert(self.entries@[i] == old(self).entries@[i]);
                    assert(old(self)@[i].0 == old(self).entries@[i].hash);
                }
            }
        }
        slot
    }

    /// The number of strings that the shard holds.
    pub fn len(&self) -> (len: usize)
        ensures
            len == self@.len(),
    {
        self.entries.len()
    }

    /// The text stored in `slot`.
    pub fn text(&self, slot: usize) -> (string: &str)
        requires
            slot < self@.len(),
        ensures
            string@ == self@[slot as int].1,
    {
        self.entries[slot].string.as_str()
    }

    /// The hash under which `slot` was stored.
    pub fn hash_at(&self, slot: usize) -> (hash: u64)
        requires
            slot < self@.len(),
        ensures
            hash == self@[slot as int].0,
    {
        self.entries[slot].hash
    }
}

/// The interning store: a fixed number of shards that only ever grow.
pub struct UniqueStringStore {
    buckets: Vec<UniqueStringBucket>,
}

impl View for UniqueStringStore {
    type V = StoreModel;

    /// The shards of the store.
    closed spec fn view(&self) -> StoreModel {
        Seq::new(self.buckets@.len(), |s: int| self.buckets@[s]@)
    }
}

impl UniqueStringStore {
    /// Every shard is there and consistent, and the store as a whole is.
    pub closed spec fn wf(&self) -> bool {
        &&& self.buckets@.len() == BUCKET_COUNT
        &&& forall|s: int| 0 <= s < self.buckets@.len() ==> (#[trigger] self.buckets@[s]).wf()
        &&& store_consistent(self@)
    }

    /// A well-formed store is consistent.
    pub proof fn lemma_consistent(&self)
        requires
            self.wf(),
        ensures
            store_consistent(self@),
    {
    }

    /// A store whose shards all hold nothing.
    pub fn new() -> (store: Self)
        ensures
            store.wf(),
            store@ == Seq::new(BUCKET_COUNT as nat, |s: int| ShardModel::empty()),
    {
        let mut buckets: Vec<UniqueStringBucket> = Vec::new();
        let mut made: u64 = 0;
        while made < BUCKET_COUNT
            invariant
                made <= BUCKET_COUNT,
                buckets@.len() == made,
                forall|s: int|
                    0 <= s < buckets@.len() ==> (#[trigger] buckets@[s]).wf() && buckets@[s]@
                        == ShardModel::empty(),
            decreases BUCKET_COUNT - made,
        {
            buckets.push(UniqueStringBucket::new());
            made += 1;
        }
        let store = UniqueStringStore { buckets };
        assert(store@ =~= Seq::new(BUCKET_COUNT as nat, |s: int| ShardModel::empty()));
        store
    }

    /// The handle of the string stored under `hash`; where the selected
    /// shard does not hold that hash yet, `string` is stored under it
    /// first.
    pub fn get_or_store(&mut self, string: &str, hash: u64) -> (handle: UniqueString)
        requires
            old(self).wf(),
        ensures
            final(self).wf(),
            final(self)@ == spec_intern(old(self)@, hash, string@).0,
            handle.spec_entry().0 == spec_intern(old(self)@, hash, string@).1.0,
            handle.spec_entry().1 == spec_intern(old(self)@, hash, string@).1.1,
            holds_entry(final(self)@, handle.spec_entry()),
    {
        let shard: usize = (hash % BUCKET_COUNT) as usize;
        proof {
            lemma_slot_of(self@[shard as int], hash);
        }
        let found: Option<usize> = self.buckets[shard].get(hash);
        let slot: usize = match found {
            Some(slot) => slot,
            None => {
                let slot: usize = self.buckets[shard].store(string, hash);
                proof {
                    let before = old(self)@;
                    let after = self@;
                    assert(after =~= before.update(shard as int, before[shard as int].push((hash, string@))));
                    assert forall|s: int| 0 <= s < self.buckets@.len() implies (
                    #[trigger] self.buckets@[s]).wf() by {
                        if s != shard {
                            assert(self.buckets@[s] == old(self).buckets@[s]);
                        }
                    }
                    assert forall|s: int| 0 <= s < after.len() implies distinct_hashes(
                        #[trigger] after[s],
                    ) by {
                        self.buckets@[s].lemma_distinct();
                    }
                    assert forall|s: int, i: int|
                        0 <= s < after.len() && 0 <= i < after[s].len() implies spec_shard(
                        (#[trigger] after[s][i]).0,
                    ) == s by {
                        if s == shard && i == before[shard as int].len() {
                        } else {
                            assert(after[s][i] == before[s][i]);
                        }
                    }
                }
                slot
            },
        };
        UniqueString { shard, slot }
    }

    /// Whether the handle names a string of this store.
    pub fn holds(&self, handle: UniqueString) -> (held: bool)
        requires
            self.wf(),
        ensures
            held == holds_entry(self@, handle.spec_entry()),
    {
        handle.shard < self.buckets.len() && handle.slot < self.buckets[handle.shard].len()
    }

    /// The text behind a handle of this store.
    pub fn text(&self, handle: UniqueString) -> (string: &str)
        requires
            self.wf(),
            holds_entry(self@, handle.spec_entry()),
        ensures
            string@ == self@[handle.spec_entry().0 as int][handle.spec_entry().1 as int].1,
    {
        self.buckets[handle.shard].text(handle.slot)
    }

    /// The hash behind a handle of this store.
    pub fn hash_of(&self, handle: UniqueString) -> (hash: u64)
        requires
            self.wf(),
            holds_entry(self@, handle.spec_entry()),
        ensures
            hash == self@[handle.spec_entry().0 as int][handle.spec_entry().1 as int].0,
    {
        self.buckets[handle.shard].hash_at(handle.slot)
    }
}

/// A handle of an interned string: the shard and the slot in which the
/// store keeps it. Two handles are equal exactly when they name the same
/// slot of the same shard.
#[derive(Clone, Copy, PartialEq, Eq, Hash, Debug, Structural)]
pub struct UniqueString {
    shard: usize,
    slot: usize,
}

/// A string together with the hash under which it is to be interned.
#[derive(Clone, Copy, PartialEq, Eq, Debug)]
pub struct UniqueStringIntermediary<'a> {
    hash: u64,
    string: &'a str,
}

impl UniqueString {
    /// The shard and the slot that the handle names.
    pub closed spec fn spec_entry(&self) -> (usize, usize) {
        (self.shard, self.slot)
    }

    /// Handles are equal exactly when they name the same shard and slot.
    pub proof fn lemma_identity(a: UniqueString, b: UniqueString)
        ensures
            a == b <==> a.spec_entry() == b.spec_entry(),
    {
    }

    /// Interns `string` under its hash.
    pub fn new(store: &mut UniqueStringStore, string: &str) -> (handle: UniqueString)
        requires
            old(store).wf(),
        ensures
            final(store).wf(),
            final(store)@ == spec_intern(old(store)@, spec_text_hash(string@), string@).0,
            handle.spec_entry().0 == spec_intern(
                old(store)@,
                spec_text_hash(string@),
                string@,
            ).1.0,
            handle.spec_entry().1 == spec_intern(
                old(store)@,
                spec_text_hash(string@),
                string@,
            ).1.1,
            holds_entry(final(store)@, handle.spec_entry()),
    {
        Self::create(string).intern(store)
    }

    /// Pairs `string` with its hash, without touching any store.
    pub fn create(string: &str) -> (pending: UniqueStringIntermediary<'_>)
        ensures
            pending.spec_hash() == spec_text_hash(string@),
            pending.spec_string() == string@,
    {
        UniqueStringIntermediary { hash: ahash(string.as_bytes()), string }
    }

    /// Interns `string` under a hash that the caller supplies.
    pub fn new_with_hash(store: &mut UniqueStringStore, string: &str, hash: u64) -> (handle:
        UniqueString)
        requires
            old(store).wf(),
        ensures
            final(store).wf(),
            final(store)@ == spec_intern(old(store)@, hash, string@).0,
            handle.spec_entry().0 == spec_intern(old(store)@, hash, string@).1.0,
            handle.spec_entry().1 == spec_intern(old(store)@, hash, string@).1.1,
            holds_entry(final(store)@, handle.spec_entry()),
    {
        Self::create_with_hash(string, hash).intern(store)
    }

    /// Pairs `string` with a hash that the caller supplies.
    pub fn create_with_hash(string: &str, hash: u64) -> (pending: UniqueStringIntermediary<'_>)
        ensures
            pending.spec_hash() == hash,
            pending.spec_string() == string@,
    {
        UniqueStringIntermediary { hash, string }
    }

    /// The handle that names `entry`.
    pub fn from_entry(entry: (usize, usize)) -> (handle: UniqueString)
        ensures
            handle.spec_entry() == entry,
    {
        UniqueString { shard: entry.0, slot: entry.1 }
    }

    /// The interned text.
    pub fn as_str<'a>(&self, store: &'a UniqueStringStore) -> (string: &'a str)
        requires
            store.wf(),
            holds_entry(store@, self.spec_entry()),
        ensures
            string@ == store@[self.spec_entry().0 as int][self.spec_entry().1 as int].1,
    {
        store.text(*self)
    }

    /// The interned text, borrowed from the store.
    pub fn as_cow<'a>(&self, store: &'a UniqueStringStore) -> (string: Cow<'a, str>)
        requires
            store.wf(),
            holds_entry(store@, self.spec_entry()),
        ensures
            string@ == store@[self.spec_entry().0 as int][self.spec_entry().1 as int].1,
            string is Borrowed,
    {
        Cow::Borrowed(self.as_str(store))
    }

    /// The bytes of the interned text with a zero byte after them, the
    /// form in which a C string is kept.
    pub fn as_cstr(&self, store: &UniqueStringStore) -> (bytes: Vec<u8>)
        requires
            store.wf(),
            holds_entry(store@, self.spec_entry()),
        ensures
            bytes@ == vstd::utf8::encode_utf8(
                store@[self.spec_entry().0 as int][self.spec_entry().1 as int].1,
            ).push(0u8),
    {
        let mut bytes: Vec<u8> = self.as_str(store).as_bytes_vec();
        bytes.push(0);
        bytes
    }

    /// The hash under which the text was interned.
    pub fn hash(&self, store: &UniqueStringStore) -> (hash: u64)
        requires
            store.wf(),
            holds_entry(store@, self.spec_entry()),
        ensures
            hash == store@[self.spec_entry().0 as int][self.spec_entry().1 as int].0,
    {
        store.hash_of(*self)
    }

    /// The identity of the handle: its shard and its slot.
    pub fn entry(&self) -> (entry: (usize, usize))
        ensures
            entry == self.spec_entry(),
    {
        (self.shard, self.slot)
    }
}

impl<'a> UniqueStringIntermediary<'a> {
    /// The hash under which the string is to be interned.
    pub closed spec fn spec_hash(&self) -> u64 {
        self.hash
    }

    /// The text that is to be interned.
    pub closed spec fn spec_string(&self) -> Seq<char> {
        self.string@
    }

    /// Hands the string to the store and returns its handle.
    pub fn intern(self, store: &mut UniqueStringStore) -> (handle: UniqueString)
        requires
            old(store).wf(),
        ensures
            final(store).wf(),
            final(store)@ == spec_intern(old(store)@, self.spec_hash(), self.spec_string()).0,
            handle.spec_entry().0 == spec_intern(
                old(store)@,
                self.spec_hash(),
                self.spec_string(),
            ).1.0,
            handle.spec_entry().1 == spec_intern(
                old(store)@,
                self.spec_hash(),
                self.spec_string(),
            ).1.1,
            holds_entry(final(store)@, handle.spec_entry()),
    {
        store.get_or_store(self.string, self.hash)
    }
}

} // verus!
