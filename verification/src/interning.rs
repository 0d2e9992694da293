//! What interning promises, stated over the model of the store: one
//! handle for equal hashes, different handles for different hashes, and
//! handles that stay valid while the store grows.

use crate::ustring::{
    distinct_hashes, holds_entry, holds_hash, lemma_slot_of, slot_of, spec_intern, spec_shard,
    store_consistent, ShardModel, StoreModel,
};
use vstd::prelude::*;

verus! {

/// `later` has everything that `earlier` has, in the same slots.
pub open spec fn store_extends(earlier: StoreModel, later: StoreModel) -> bool {
    &&& earlier.len() == later.len()
    &&& forall|s: int|
        0 <= s < earlier.len() ==> (#[trigger] earlier[s]).len() <= later[s].len()
    &&& forall|s: int, i: int|
        0 <= s < earlier.len() && 0 <= i < earlier[s].len() ==> (#[trigger] later[s][i])
            == earlier[s][i]
}

/// The string that `entry` names in `store`, as hash and text.
pub open spec fn entry_at(store: StoreModel, entry: (int, int)) -> (u64, Seq<char>) {
    store[entry.0][entry.1]
}

/// In a shard that holds each hash once, the slot found for a hash is the
/// one slot that holds it.
pub proof fn lemma_slot_found(shard: ShardModel, hash: u64, slot: int)
    requires
        distinct_hashes(shard),
        0 <= slot < shard.len(),
        shard[slot].0 == hash,
    ensures
        holds_hash(shard, hash),
        slot_of(shard, hash) == slot,
{
    lemma_slot_of(shard, hash);
    let found = slot_of(shard, hash);
    assert(shard[found].0 == shard[slot].0);
}

/// Interning keeps a consistent store consistent and only ever adds to it.
/// The handle it gives names a string of the store that was stored under
/// the given hash; where the hash was new, that string has the given text.
pub proof fn lemma_intern(store: StoreModel, hash: u64, string: Seq<char>)
    requires
        store_consistent(store),
    ensures
        ({
            let (after, entry) = spec_intern(store, hash, string);
            &&& store_consistent(after)
            &&& store_extends(store, after)
            &&& entry.0 == spec_shard(hash)
            &&& 0 <= entry.1 < after[entry.0].len()
            &&& entry_at(after, entry).0 == hash
            &&& !holds_hash(store[spec_shard(hash)], hash) ==> entry_at(after, entry).1 == string
            &&& holds_hash(store[spec_shard(hash)], hash) ==> after == store
        }),
{
    let shard = spec_shard(hash);
    let (after, entry) = spec_intern(store, hash, string);
    assert(0 <= shard < store.len());
    lemma_slot_of(store[shard], hash);
    if holds_hash(store[shard], hash) {
    } else {
        let grown = store[shard].push((hash, string));
        assert forall|s: int| 0 <= s < after.len() implies distinct_hashes(
            #[trigger] after[s],
        ) by {
            if s == shard {
                assert forall|i: int, j: int|
                    0 <= i < grown.len() && 0 <= j < grown.len() && (#[trigger] grown[i]).0 == (
                    #[trigger] grown[j]).0 implies i == j by {
                    if i < store[shard].len() {
                        assert(grown[i] == store[shard][i]);
                    }
                    if j < store[shard].len() {
                        assert(grown[j] == store[shard][j]);
                    }
                }
            } else {
                assert(after[s] == store[s]);
            }
        }
        assert forall|s: int, i: int|
            0 <= s < after.len() && 0 <= i < after[s].len() implies spec_shard(
            (#[trigger] after[s][i]).0,
        ) == s by {
            if s == shard && i == store[shard].len() {
            } else {
                assert(after[s][i] == store[s][i]);
            }
        }
    }
}

/// A hash that was interned keeps its handle: whatever was interned in
/// between, interning the same hash again gives the same handle and leaves
/// the store as it is. Byte-identical strings have the same hash, so they
/// get one handle however often and wherever they are met.
pub proof fn lemma_intern_again(
    store: StoreModel,
    later: StoreModel,
    hash: u64,
    first: Seq<char>,
    second: Seq<char>,
)
    requires
        store_consistent(store),
        store_consistent(later),
        store_extends(spec_intern(store, hash, first).0, later),
    ensures
        spec_intern(later, hash, second).1 == spec_intern(store, hash, first).1,
        spec_intern(later, hash, second).0 == later,
{
    lemma_intern(store, hash, first);
    let (after, entry) = spec_intern(store, hash, first);
    let shard = spec_shard(hash);
    assert(later[shard][entry.1] == after[shard][entry.1]);
    lemma_slot_found(later[shard], hash, entry.1);
}

/// Strings with different hashes get different handles, in whichever order
/// they are interned and whatever is interned in between.
pub proof fn lemma_intern_apart(
    store: StoreModel,
    later: StoreModel,
    first_hash: u64,
    first: Seq<char>,
    second_hash: u64,
    second: Seq<char>,
)
    requires
        store_consistent(store),
        store_consistent(later),
        store_extends(spec_intern(store, first_hash, first).0, later),
        first_hash != second_hash,
    ensures
        spec_intern(later, second_hash, second).1 != spec_intern(store, first_hash, first).1,
{
    lemma_intern(store, first_hash, first);
    lemma_intern(later, second_hash, second);
    let (after, entry) = spec_intern(store, first_hash, first);
    let (last, other) = spec_intern(later, second_hash, second);
    if other == entry {
        assert(last[entry.0][entry.1] == later[entry.0][entry.1]);
        assert(later[entry.0][entry.1] == after[entry.0][entry.1]);
    }
}

/// Two handles of a consistent store are the same exactly when the strings
/// they name were stored under the same hash.
pub proof fn lemma_handles_by_hash(store: StoreModel, a: (usize, usize), b: (usize, usize))
    requires
        store_consistent(store),
        holds_entry(store, a),
        holds_entry(store, b),
    ensures
        a == b <==> store[a.0 as int][a.1 as int].0 == store[b.0 as int][b.1 as int].0,
{
    if store[a.0 as int][a.1 as int].0 == store[b.0 as int][b.1 as int].0 {
        assert(spec_shard(store[a.0 as int][a.1 as int].0) == a.0);
        assert(spec_shard(store[b.0 as int][b.1 as int].0) == b.0);
        assert(distinct_hashes(store[a.0 as int]));
    }
}

/// What a store once held it holds for good: extending is reflexive and
/// transitive, and a handle of the earlier store names the same string in
/// the later one.
pub proof fn lemma_extends(a: StoreModel, b: StoreModel, c: StoreModel, entry: (usize, usize))
    requires
        store_extends(a, b),
        store_extends(b, c),
    ensures
        store_extends(a, a),
        store_extends(a, c),
        holds_entry(a, entry) ==> holds_entry(c, entry) && c[entry.0 as int][entry.1 as int]
            == a[entry.0 as int][entry.1 as int],
{
    assert forall|s: int, i: int| 0 <= s < a.len() && 0 <= i < a[s].len() implies (
    #[trigger] c[s][i]) == a[s][i] by {
        assert(b[s][i] == a[s][i]);
        assert(c[s][i] == b[s][i]);
    }
    assert forall|s: int| 0 <= s < a.len() implies (#[trigger] a[s]).len() <= c[s].len() by {
        assert(a[s].len() <= b[s].len());
        assert(b[s].len() <= c[s].len());
    }
}

} // verus!
