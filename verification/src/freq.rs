//! Frequency maps and frequency tables: the concurrent map in which the
//! handles of a text are counted, and the sorted table that is made from
//! it.

use crate::ustring::UniqueString;
use dashmap::DashMap;
use vstd::prelude::*;

verus! {

/// `DashMap` of dashmap. Nothing of its inside is known here: what a map
/// holds is spoken of through `map_counts`.
#[verifier::external_type_specification]
#[verifier::external_body]
#[verifier::reject_recursive_types(K)]
#[verifier::reject_recursive_types(V)]
#[verifier::reject_recursive_types(S)]
pub struct ExDashMap<K, V, S>(DashMap<K, V, S>);

/// What a frequency map holds: the count kept for each handle, the handle
/// given by its shard and slot.
pub uninterp spec fn map_counts(map: DashMap<(usize, usize), usize>) -> Map<(usize, usize), usize>;

/// The identity of a handle: its shard and its slot.
pub type HandleKey = (usize, usize);

/// The concurrent map in which the counts of one analysis are kept.
pub type FrequencyMap = DashMap<HandleKey, usize>;

/// The counts of a map that holds nothing.
pub open spec fn no_counts() -> Map<HandleKey, usize> {
    Map::empty()
}

/// One line of a frequency table: a count and the handle it belongs to.
pub type FrequencyEntry = (usize, UniqueString);

/// The table lists the map: every line is an entry of the map, no handle
/// has two lines, and every entry of the map has its line.
pub open spec fn lists_counts(table: Seq<FrequencyEntry>, counts: Map<(usize, usize), usize>) -> bool {
    &&& forall|i: int|
        0 <= i < table.len() ==> counts.contains_key((#[trigger] table[i]).1.spec_entry())
            && counts[table[i].1.spec_entry()] == table[i].0
    &&& forall|i: int, j: int|
        0 <= i < table.len() && 0 <= j < table.len() && (#[trigger] table[i]).1.spec_entry() == (
        #[trigger] table[j]).1.spec_entry() ==> i == j
    &&& forall|key: HandleKey| #[trigger]
        counts.contains_key(key) ==> exists|i: int|
            0 <= i < table.len() && (#[trigger] table[i]).1.spec_entry() == key
}

/// `DashMap::new`: the map it makes holds nothing.
#[verifier::external_body]
pub(crate) fn counts_new() -> (fresh: FrequencyMap)
    ensures
        map_counts(fresh) == no_counts(),
{
    DashMap::new()
}

/// `Clone` of `DashMap`: the copy holds what the map holds.
#[verifier::external_body]
pub(crate) fn counts_clone(map: &FrequencyMap) -> (copy: FrequencyMap)
    ensures
        map_counts(copy) == map_counts(*map),
{
    map.clone()
}

/// `DashMap::get`: the count kept for `key`, if the map holds the key.
#[verifier::external_body]
pub(crate) fn counts_get(map: &FrequencyMap, key: HandleKey) -> (count:
    Option<usize>)
    ensures
        count == if map_counts(*map).contains_key(key) {
            Some(map_counts(*map)[key])
        } else {
            None
        },
{
    map.get(&key).map(|found| *found)
}

/// `DashMap::insert`: afterwards the map keeps `count` for `key` and is
/// otherwise as before.
#[verifier::external_body]
pub(crate) fn counts_insert(map: &mut FrequencyMap, key: HandleKey, count: usize)
    ensures
        map_counts(*final(map)) == map_counts(*old(map)).insert(key, count),
{
    map.insert(key, count);
}

/// `DashMap::iter`: walks the map once and hands out every entry, in an
/// order of its own choosing.
#[verifier::external_body]
pub(crate) fn counts_entries(map: &FrequencyMap) -> (table: Vec<FrequencyEntry>)
    ensures
        lists_counts(table@, map_counts(*map)),
{
    map.iter().map(|item| (*item.value(), UniqueString::from_entry(*item.key()))).collect()
}

/// The count that `counts` keeps for `key`, zero where it keeps none.
pub open spec fn count_in(counts: Map<HandleKey, usize>, key: HandleKey) -> nat {
    if counts.contains_key(key) {
        counts[key] as nat
    } else {
        0
    }
}

/// The sum of all counts of a finite map.
pub open spec fn map_total(counts: Map<HandleKey, usize>) -> nat
    decreases counts.dom().len(),
    when counts.dom().finite()
{
    if counts.dom().len() == 0 {
        0
    } else {
        let key = counts.dom().choose();
        counts[key] as nat + map_total(counts.remove(key))
    }
}

/// The sum of the counts of a table.
pub open spec fn table_total(table: Seq<FrequencyEntry>) -> nat
    decreases table.len(),
{
    if table.len() == 0 {
        0
    } else {
        table_total(table.drop_last()) + table.last().0 as nat
    }
}

/// The total of a map is the count of any one of its keys plus the total of
/// the rest.
pub proof fn lemma_total_remove(counts: Map<HandleKey, usize>, key: HandleKey)
    requires
        counts.dom().finite(),
        counts.contains_key(key),
    ensures
        map_total(counts) == counts[key] as nat + map_total(counts.remove(key)),
    decreases counts.dom().len(),
{
    let chosen = counts.dom().choose();
    if chosen != key {
        lemma_total_remove(counts.remove(chosen), key);
        lemma_total_remove(counts.remove(key), chosen);
        assert(counts.remove(chosen).remove(key) =~= counts.remove(key).remove(chosen));
    }
}

/// Setting the count of one key changes the total by the difference.
pub proof fn lemma_total_insert(counts: Map<HandleKey, usize>, key: HandleKey, count: usize)
    requires
        counts.dom().finite(),
    ensures
        map_total(counts.insert(key, count)) + count_in(counts, key) == map_total(counts) + count,
{
    lemma_total_remove(counts.insert(key, count), key);
    assert(counts.insert(key, count).remove(key) =~= counts.remove(key));
    if counts.contains_key(key) {
        lemma_total_remove(counts, key);
    } else {
        assert(counts.remove(key) =~= counts);
    }
}

/// A table that lists a map has the map's total, and the map is finite.
pub proof fn lemma_total_listed(table: Seq<FrequencyEntry>, counts: Map<HandleKey, usize>)
    requires
        lists_counts(table, counts),
    ensures
        counts.dom().finite(),
        table_total(table) == map_total(counts),
        counts.dom().len() == table.len(),
    decreases table.len(),
{
    if table.len() == 0 {
        assert(counts.dom() =~= Set::empty());
    } else {
        let last = table.last();
        let key = last.1.spec_entry();
        let rest = table.drop_last();
        let fewer = counts.remove(key);
        assert(table[table.len() - 1] == last);
        assert forall|k: HandleKey| #[trigger] fewer.contains_key(k) implies exists|i: int|
            0 <= i < rest.len() && (#[trigger] rest[i]).1.spec_entry() == k by {
            let i = choose|i: int| 0 <= i < table.len() && (#[trigger] table[i]).1.spec_entry() == k;
            assert(rest[i] == table[i]);
        }
        assert forall|i: int| 0 <= i < rest.len() implies fewer.contains_key(
            (#[trigger] rest[i]).1.spec_entry(),
        ) && fewer[rest[i].1.spec_entry()] == rest[i].0 by {
            assert(rest[i] == table[i]);
        }
        assert forall|i: int, j: int|
            0 <= i < rest.len() && 0 <= j < rest.len() && (#[trigger] rest[i]).1.spec_entry() == (
            #[trigger] rest[j]).1.spec_entry() implies i == j by {
            assert(rest[i] == table[i]);
            assert(rest[j] == table[j]);
        }
        lemma_total_listed(rest, fewer);
        assert(counts.dom() =~= fewer.dom().insert(key));
        lemma_total_remove(counts, key);
    }
}

/// Whether line `a` may stand before line `b`: its count is higher, or the
/// counts are equal and its handle is not the later one.
pub open spec fn precedes(a: FrequencyEntry, b: FrequencyEntry) -> bool {
    a.0 > b.0 || (a.0 == b.0 && (a.1.spec_entry().0 < b.1.spec_entry().0 || (a.1.spec_entry().0
        == b.1.spec_entry().0 && a.1.spec_entry().1 <= b.1.spec_entry().1)))
}

/// Every line of the table may stand before all that follow it.
pub open spec fn table_sorted(table: Seq<FrequencyEntry>) -> bool {
    forall|i: int, j: int|
        0 <= i < j < table.len() ==> precedes(#[trigger] table[i], #[trigger] table[j])
}

/// Whether line `a` may stand before line `b`.
pub fn stands_before(a: &FrequencyEntry, b: &FrequencyEntry) -> (before: bool)
    ensures
        before == precedes(*a, *b),
{
    let mine: HandleKey = a.1.entry();
    let theirs: HandleKey = b.1.entry();
    a.0 > b.0 || (a.0 == b.0 && (mine.0 < theirs.0 || (mine.0 == theirs.0 && mine.1
        <= theirs.1)))
}

/// Merges two sorted tables into one sorted table that holds the lines of
/// both.
pub fn merge_tables(left: &Vec<FrequencyEntry>, right: &Vec<FrequencyEntry>) -> (merged: Vec<
    FrequencyEntry,
>)
    requires
        table_sorted(left@),
        table_sorted(right@),
        left@.len() + right@.len() <= usize::MAX,
    ensures
        table_sorted(merged@),
        merged@.to_multiset() == left@.to_multiset().add(right@.to_multiset()),
{
    let mut merged: Vec<FrequencyEntry> = Vec::new();
    let mut i: usize = 0;
    let mut j: usize = 0;
    proof {
        assert(left@.take(0) =~= Seq::empty());
        assert(right@.take(0) =~= Seq::empty());
        vstd::seq_lib::lemma_multiset_commutative(left@.take(0), right@.take(0));
        assert(left@.take(0) + right@.take(0) =~= Seq::empty());
    }
    while i < left.len() || j < right.len()
        invariant
            i <= left@.len(),
            j <= right@.len(),
            left@.len() + right@.len() <= usize::MAX,
            table_sorted(left@),
            table_sorted(right@),
            table_sorted(merged@),
            merged@.len() == i + j,
            merged@.to_multiset() == left@.take(i as int).to_multiset().add(
                right@.take(j as int).to_multiset(),
            ),
            forall|k: int, p: int|
                0 <= k < merged@.len() && i <= p < left@.len() ==> precedes(
                    #[trigger] merged@[k],
                    #[trigger] left@[p],
                ),
            forall|k: int, q: int|
                0 <= k < merged@.len() && j <= q < right@.len() ==> precedes(
                    #[trigger] merged@[k],
                    #[trigger] right@[q],
                ),
        decreases left@.len() - i + right@.len() - j,
    {
        let ghost before = merged@;
        let from_left: bool = if i >= left.len() {
            false
        } else if j >= right.len() {
            true
        } else {
            stands_before(&left[i], &right[j])
        };
        if from_left {
            let line: FrequencyEntry = left[i];
            merged.push(line);
            proof {
                assert(left@.take(i + 1) =~= left@.take(i as int).push(line));
                vstd::seq_lib::to_multiset_build(left@.take(i as int), line);
                vstd::seq_lib::to_multiset_build(before, line);
                assert(merged@.to_multiset() =~= left@.take(i + 1).to_multiset().add(
                    right@.take(j as int).to_multiset(),
                ));
                assert forall|k: int, l: int| 0 <= k < l < merged@.len() implies precedes(
                    #[trigger] merged@[k],
                    #[trigger] merged@[l],
                ) by {
                    if l < before.len() {
                        assert(precedes(before[k], before[l]));
                    } else {
                        assert(precedes(before[k], left@[i as int]));
                    }
                }
                assert forall|k: int, q: int|
                    0 <= k < merged@.len() && j <= q < right@.len() implies precedes(
                    #[trigger] merged@[k],
                    #[trigger] right@[q],
                ) by {
                    if k < before.len() {
                        assert(precedes(before[k], right@[q]));
                    } else {
                        assert(precedes(line, right@[j as int]));
                        if q > j {
                            assert(precedes(right@[j as int], right@[q]));
                        }
                    }
                }
                assert forall|k: int, p: int|
                    0 <= k < merged@.len() && i + 1 <= p < left@.len() implies precedes(
                    #[trigger] merged@[k],
                    #[trigger] left@[p],
                ) by {
                    if k < before.len() {
                        assert(precedes(before[k], left@[p]));
                    } else {
                        assert(precedes(left@[i as int], left@[p]));
                    }
                }
            }
            i += 1;
        } else {
            let line: FrequencyEntry = right[j];
            merged.push(line);
            proof {
                assert(right@.take(j + 1) =~= right@.take(j as int).push(line));
                vstd::seq_lib::to_multiset_build(right@.take(j as int), line);
                vstd::seq_lib::to_multiset_build(before, line);
                assert(merged@.to_multiset() =~= left@.take(i as int).to_multiset().add(
                    right@.take(j + 1).to_multiset(),
                ));
                assert forall|k: int, l: int| 0 <= k < l < merged@.len() implies precedes(
                    #[trigger] merged@[k],
                    #[trigger] merged@[l],
                ) by {
                    if l < before.len() {
                        assert(precedes(before[k], before[l]));
                    } else {
                        assert(precedes(before[k], right@[j as int]));
                    }
                }
                assert forall|k: int, p: int|
                    0 <= k < merged@.len() && i <= p < left@.len() implies precedes(
                    #[trigger] merged@[k],
                    #[trigger] left@[p],
                ) by {
                    if k < before.len() {
                        assert(precedes(before[k], left@[p]));
                    } else {
                        assert(precedes(line, left@[i as int]));
                        if p > i {
                            assert(precedes(left@[i as int], left@[p]));
                        }
                    }
                }
                assert forall|k: int, q: int|
                    0 <= k < merged@.len() && j + 1 <= q < right@.len() implies precedes(
                    #[trigger] merged@[k],
                    #[trigger] right@[q],
                ) by {
                    if k < before.len() {
                        assert(precedes(before[k], right@[q]));
                    } else {
                        assert(precedes(right@[j as int], right@[q]));
                    }
                }
            }
            j += 1;
        }
    }
    proof {
        assert(left@.take(i as int) =~= left@);
        assert(right@.take(j as int) =~= right@);
    }
    merged
}

/// The lines `table[from .. to]` as a sorted table: sorts the two halves
/// and merges them.
pub fn sorted_range(table: &Vec<FrequencyEntry>, from: usize, to: usize) -> (sorted: Vec<
    FrequencyEntry,
>)
    requires
        from <= to <= table@.len(),
    ensures
        table_sorted(sorted@),
        sorted@.to_multiset() == table@.subrange(from as int, to as int).to_multiset(),
    decreases to - from,
{
    let mut sorted: Vec<FrequencyEntry> = Vec::new();
    if to - from == 0 {
        proof {
            assert(table@.subrange(from as int, to as int) =~= sorted@);
        }
        sorted
    } else if to - from == 1 {
        sorted.push(table[from]);
        proof {
            assert(table@.subrange(from as int, to as int) =~= sorted@);
        }
        sorted
    } else {
        let middle: usize = from + (to - from) / 2;
        let left: Vec<FrequencyEntry> = sorted_range(table, from, middle);
        let right: Vec<FrequencyEntry> = sorted_range(table, middle, to);
        proof {
            let first = table@.subrange(from as int, middle as int);
            let second = table@.subrange(middle as int, to as int);
            assert(first + second =~= table@.subrange(from as int, to as int));
            vstd::seq_lib::lemma_multiset_commutative(first, second);
            left@.to_multiset_ensures();
            right@.to_multiset_ensures();
            first.to_multiset_ensures();
            second.to_multiset_ensures();
        }
        merge_tables(&left, &right)
    }
}

/// Sequences with the same elements, however ordered, have the same
/// members.
pub proof fn lemma_same_members(
    before: Seq<FrequencyEntry>,
    after: Seq<FrequencyEntry>,
    line: FrequencyEntry,
)
    requires
        before.to_multiset() == after.to_multiset(),
        before.contains(line),
    ensures
        after.contains(line),
{
    vstd::seq_lib::to_multiset_contains(before, line);
    vstd::seq_lib::to_multiset_contains(after, line);
}

/// A table that lists a map still lists it when its lines are reordered.
pub proof fn lemma_listing_reordered(
    before: Seq<FrequencyEntry>,
    after: Seq<FrequencyEntry>,
    counts: Map<HandleKey, usize>,
)
    requires
        lists_counts(before, counts),
        before.to_multiset() == after.to_multiset(),
    ensures
        lists_counts(after, counts),
{
    before.to_multiset_ensures();
    after.to_multiset_ensures();
    assert forall|i: int, j: int| 0 <= i < before.len() && 0 <= j < before.len() && i != j implies before[i] != before[j] by {
        if before[i] == before[j] {
            assert(before[i].1.spec_entry() == before[j].1.spec_entry());
        }
    }
    assert(before.no_duplicates());
    before.lemma_multiset_has_no_duplicates();
    after.lemma_multiset_has_no_duplicates_conv();
    assert forall|i: int| 0 <= i < after.len() implies counts.contains_key(
        (#[trigger] after[i]).1.spec_entry(),
    ) && counts[after[i].1.spec_entry()] == after[i].0 by {
        assert(after.contains(after[i]));
        lemma_same_members(after, before, after[i]);
    }
    assert forall|i: int, j: int|
        0 <= i < after.len() && 0 <= j < after.len() && (#[trigger] after[i]).1.spec_entry() == (
        #[trigger] after[j]).1.spec_entry() implies i == j by {
        assert(after.contains(after[i]));
        lemma_same_members(after, before, after[i]);
        assert(after.contains(after[j]));
        lemma_same_members(after, before, after[j]);
        let a = choose|a: int| 0 <= a < before.len() && before[a] == after[i];
        let b = choose|b: int| 0 <= b < before.len() && before[b] == after[j];
        assert(before[a].1.spec_entry() == before[b].1.spec_entry());
        assert(a == b);
    }
    assert forall|key: HandleKey| #[trigger] counts.contains_key(key) implies exists|i: int|
        0 <= i < after.len() && (#[trigger] after[i]).1.spec_entry() == key by {
        let a = choose|a: int| 0 <= a < before.len() && (#[trigger] before[a]).1.spec_entry() == key;
        assert(before.contains(before[a]));
        lemma_same_members(before, after, before[a]);
        let b = choose|b: int| 0 <= b < after.len() && after[b] == before[a];
        assert(after[b].1.spec_entry() == key);
    }
}

/// Two sorted tables that list the same map have the same line in every
/// place.
pub proof fn lemma_same_line(
    a: Seq<FrequencyEntry>,
    b: Seq<FrequencyEntry>,
    counts: Map<HandleKey, usize>,
    place: int,
)
    requires
        lists_counts(a, counts),
        lists_counts(b, counts),
        table_sorted(a),
        table_sorted(b),
        a.len() == b.len(),
        0 <= place < a.len(),
    ensures
        a[place] == b[place],
    decreases place,
{
    assert forall|j: int| 0 <= j < place implies a[j] == b[j] by {
        lemma_same_line(a, b, counts, j);
    }
    let mine = a[place];
    let theirs = b[place];
    assert(counts.contains_key(theirs.1.spec_entry()));
    assert(counts.contains_key(mine.1.spec_entry()));
    let there = choose|i: int|
        0 <= i < a.len() && (#[trigger] a[i]).1.spec_entry() == theirs.1.spec_entry();
    let here = choose|i: int|
        0 <= i < b.len() && (#[trigger] b[i]).1.spec_entry() == mine.1.spec_entry();
    UniqueString::lemma_identity(a[there].1, theirs.1);
    UniqueString::lemma_identity(b[here].1, mine.1);
    assert(a[there] == theirs);
    assert(b[here] == mine);
    if there < place {
        assert(a[there] == b[there]);
    }
    if here < place {
        assert(b[here] == a[here]);
    }
    if there > place && here > place {
        assert(precedes(a[place], a[there]));
        assert(precedes(b[place], b[here]));
    }
}

/// The sorted table of a map is determined by the map: lines of equal
/// count have their order from their handles, so two sorted tables that
/// list the same map are the same table.
pub proof fn lemma_table_determined(
    a: Seq<FrequencyEntry>,
    b: Seq<FrequencyEntry>,
    counts: Map<HandleKey, usize>,
)
    requires
        lists_counts(a, counts),
        lists_counts(b, counts),
        table_sorted(a),
        table_sorted(b),
    ensures
        a == b,
{
    lemma_total_listed(a, counts);
    lemma_total_listed(b, counts);
    assert forall|place: int| 0 <= place < a.len() implies a[place] == b[place] by {
        lemma_same_line(a, b, counts, place);
    }
    assert(a =~= b);
}

/// The sorted frequency table of a map: one line for each handle that the
/// map holds, with its count, the most frequent first.
pub fn frequency_table(map: &FrequencyMap) -> (table: Vec<FrequencyEntry>)
    ensures
        lists_counts(table@, map_counts(*map)),
        table_sorted(table@),
{
    let listed: Vec<FrequencyEntry> = counts_entries(map);
    let table: Vec<FrequencyEntry> = sorted_range(&listed, 0, listed.len());
    proof {
        assert(listed@.subrange(0, listed@.len() as int) =~= listed@);
        lemma_listing_reordered(listed@, table@, map_counts(*map));
    }
    table
}

/// Adds `times` to the count that the map keeps for `key`, where it keeps
/// none yet, the count is `times`.
pub fn add_count(map: &mut FrequencyMap, key: HandleKey, times: usize)
    requires
        count_in(map_counts(*old(map)), key) + times <= usize::MAX,
    ensures
        map_counts(*final(map)) == map_counts(*old(map)).insert(
            key,
            (count_in(map_counts(*old(map)), key) + times) as usize,
        ),
{
    match counts_get(map, key) {
        Some(count) => counts_insert(map, key, count + times),
        None => counts_insert(map, key, times),
    }
}

/// How often `key` stands in `keys`.
pub open spec fn occurrences(keys: Seq<HandleKey>, key: HandleKey) -> nat
    decreases keys.len(),
{
    if keys.len() == 0 {
        0
    } else {
        occurrences(keys.drop_last(), key) + if keys.last() == key {
            1nat
        } else {
            0nat
        }
    }
}

/// A key that occurs stands somewhere in the list.
pub proof fn lemma_occurs(keys: Seq<HandleKey>, key: HandleKey) -> (at: int)
    requires
        occurrences(keys, key) > 0,
    ensures
        0 <= at < keys.len(),
        keys[at] == key,
    decreases keys.len(),
{
    if keys.last() == key {
        keys.len() - 1
    } else {
        lemma_occurs(keys.drop_last(), key)
    }
}

/// No count of the map is zero.
pub open spec fn all_positive(counts: Map<HandleKey, usize>) -> bool {
    forall|key: HandleKey| #[trigger] counts.contains_key(key) ==> counts[key] > 0
}

/// The map is the tally of `keys`: it holds exactly the keys that occur,
/// each with the number of its occurrences.
pub open spec fn tallies(counts: Map<HandleKey, usize>, keys: Seq<HandleKey>) -> bool {
    &&& counts.dom().finite()
    &&& all_positive(counts)
    &&& forall|key: HandleKey| #[trigger] count_in(counts, key) == occurrences(keys, key)
}

/// No count of a finite map is larger than the map's total.
pub proof fn lemma_count_within_total(counts: Map<HandleKey, usize>, key: HandleKey)
    requires
        counts.dom().finite(),
    ensures
        count_in(counts, key) <= map_total(counts),
{
    if counts.contains_key(key) {
        lemma_total_remove(counts, key);
    }
}

/// A tally counts every key once: its total is the number of keys.
pub proof fn lemma_tally_total(counts: Map<HandleKey, usize>, keys: Seq<HandleKey>)
    requires
        tallies(counts, keys),
    ensures
        map_total(counts) == keys.len(),
    decreases keys.len(),
{
    if keys.len() == 0 {
        assert forall|key: HandleKey| !counts.contains_key(key) by {
            assert(count_in(counts, key) == occurrences(keys, key));
        }
        assert(counts.dom() =~= Set::empty());
    } else {
        let last = keys.last();
        let rest = keys.drop_last();
        assert(count_in(counts, last) == occurrences(keys, last));
        let fewer = if counts[last] == 1 {
            counts.remove(last)
        } else {
            counts.insert(last, (counts[last] - 1) as usize)
        };
        assert forall|key: HandleKey| #[trigger] count_in(fewer, key) == occurrences(rest, key) by {
            assert(count_in(counts, key) == occurrences(keys, key));
        }
        lemma_tally_total(fewer, rest);
        if counts[last] == 1 {
            lemma_total_remove(counts, last);
        } else {
            lemma_total_insert(counts, last, (counts[last] - 1) as usize);
        }
    }
}

/// Counts one more occurrence of `key`.
pub(crate) fn count_occurrence(map: &mut FrequencyMap, key: HandleKey, Ghost(keys): Ghost<Seq<HandleKey>>)
    requires
        tallies(map_counts(*old(map)), keys),
        keys.len() < usize::MAX,
    ensures
        tallies(map_counts(*final(map)), keys.push(key)),
{
    proof {
        lemma_tally_total(map_counts(*map), keys);
        lemma_count_within_total(map_counts(*map), key);
    }
    add_count(map, key, 1);
    proof {
        let before = map_counts(*old(map));
        let after = map_counts(*map);
        let longer = keys.push(key);
        assert(longer.drop_last() =~= keys);
        assert forall|other: HandleKey| #[trigger] count_in(after, other) == occurrences(longer, other) by {
            assert(count_in(before, other) == occurrences(keys, other));
        }
    }
}

} // verus!
