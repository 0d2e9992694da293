//! Merging the records of several sources into one aggregate.

use crate::analysis::{table_held, update_dists, Analysis};
use crate::freq::{
    add_count, all_positive, count_in, counts_new, frequency_table, lemma_count_within_total,
    lemma_total_insert, lemma_total_listed, lists_counts, map_counts, map_total, no_counts,
    FrequencyEntry, FrequencyMap, HandleKey,
};
use crate::stats::{counts_of, lemma_sum_grows, lemma_table_counts, sum_upto, Distribution};
use crate::ustring::{holds_entry, StoreModel};
use vstd::prelude::*;

verus! {

/// Whether one of the first `upto` lines of the table belongs to `key`.
pub open spec fn listed_before(table: Seq<FrequencyEntry>, key: HandleKey, upto: int) -> bool {
    exists|l: int| 0 <= l < upto && (#[trigger] table[l]).1.spec_entry() == key
}

/// Adds the counts of a record to a map, handle by handle: a handle that
/// the map holds gets the record's count on top, a new one is put in with
/// the record's count.
pub fn merge_counts(map: &mut FrequencyMap, analysis: &Analysis)
    requires
        analysis.wf(),
        map_counts(*old(map)).dom().finite(),
        all_positive(map_counts(*old(map))),
        map_total(map_counts(*old(map))) + analysis.word_count <= usize::MAX,
    ensures
        map_counts(*final(map)).dom().finite(),
        all_positive(map_counts(*final(map))),
        map_total(map_counts(*final(map))) == map_total(map_counts(*old(map)))
            + analysis.word_count,
        forall|key: HandleKey| #[trigger]
            count_in(map_counts(*final(map)), key) == count_in(map_counts(*old(map)), key)
                + count_in(map_counts(analysis.word_freq_map), key),
{
    let ghost before = map_counts(*map);
    let ghost source = map_counts(analysis.word_freq_map);
    let ghost table = analysis.word_freq@;
    let ghost counts = counts_of(table);
    let n: usize = analysis.word_freq.len();
    let mut index: usize = 0;
    proof {
        lemma_table_counts(table);
    }
    while index < n
        invariant
            n == table.len(),
            index <= n,
            table == analysis.word_freq@,
            counts == counts_of(table),
            source == map_counts(analysis.word_freq_map),
            lists_counts(table, source),
            all_positive(source),
            sum_upto(counts, n as int) == analysis.word_count,
            map_total(before) + analysis.word_count <= usize::MAX,
            map_counts(*map).dom().finite(),
            all_positive(map_counts(*map)),
            map_total(map_counts(*map)) == map_total(before) + sum_upto(counts, index as int),
            forall|key: HandleKey| #[trigger]
                count_in(map_counts(*map), key) == count_in(before, key) + if listed_before(
                    table,
                    key,
                    index as int,
                ) {
                    count_in(source, key)
                } else {
                    0
                },
        decreases n - index,
    {
        let line: FrequencyEntry = analysis.word_freq[index];
        let key: HandleKey = line.1.entry();
        let ghost current = map_counts(*map);
        proof {
            lemma_sum_grows(counts, index + 1, n as int);
            lemma_count_within_total(current, key);
            assert(table[index as int] == line);
            assert(source.contains_key(key) && source[key] == line.0);
        }
        add_count(map, key, line.0);
        proof {
            let updated = map_counts(*map);
            lemma_total_insert(current, key, (count_in(current, key) + line.0) as usize);
            assert(!listed_before(table, key, index as int)) by {
                if listed_before(table, key, index as int) {
                    let l = choose|l: int|
                        0 <= l < index && (#[trigger] table[l]).1.spec_entry() == key;
                    assert(table[l].1.spec_entry() == table[index as int].1.spec_entry());
                }
            }
            assert(count_in(current, key) == count_in(before, key) + 0);
            assert(listed_before(table, key, index + 1));
            assert forall|other: HandleKey| #[trigger]
                count_in(updated, other) == count_in(before, other) + if listed_before(
                    table,
                    other,
                    index + 1,
                ) {
                    count_in(source, other)
                } else {
                    0
                } by {
                assert(count_in(current, other) == count_in(before, other) + if listed_before(
                    table,
                    other,
                    index as int,
                ) {
                    count_in(source, other)
                } else {
                    0
                });
                if other != key {
                    if listed_before(table, other, index + 1) {
                        let l = choose|l: int|
                            0 <= l < index + 1 && (#[trigger] table[l]).1.spec_entry() == other;
                        assert(l < index);
                        assert(listed_before(table, other, index as int));
                    }
                    if listed_before(table, other, index as int) {
                        let l = choose|l: int|
                            0 <= l < index && (#[trigger] table[l]).1.spec_entry() == other;
                        assert(listed_before(table, other, index + 1));
                    }
                }
            }
        }
        index += 1;
    }
    proof {
        assert forall|key: HandleKey| #[trigger]
            count_in(map_counts(*map), key) == count_in(before, key) + count_in(source, key) by {
            assert(count_in(map_counts(*map), key) == count_in(before, key) + if listed_before(
                table,
                key,
                n as int,
            ) {
                count_in(source, key)
            } else {
                0
            });
            if source.contains_key(key) {
                let l = choose|l: int|
                    0 <= l < table.len() && (#[trigger] table[l]).1.spec_entry() == key;
                assert(listed_before(table, key, n as int));
            }
        }
    }
}

/// The numbers of words of a list of records.
pub open spec fn word_counts(analyses: Seq<Analysis>) -> Seq<usize> {
    Seq::new(analyses.len(), |i: int| analyses[i].word_count)
}

/// The numbers of characters of a list of records.
pub open spec fn char_counts(analyses: Seq<Analysis>) -> Seq<usize> {
    Seq::new(analyses.len(), |i: int| analyses[i].char_count)
}

/// The numbers of sentences of a list of records.
pub open spec fn sent_counts(analyses: Seq<Analysis>) -> Seq<usize> {
    Seq::new(analyses.len(), |i: int| analyses[i].sent_count)
}

/// The numbers of paragraphs of a list of records.
pub open spec fn para_counts(analyses: Seq<Analysis>) -> Seq<usize> {
    Seq::new(analyses.len(), |i: int| analyses[i].para_count)
}

/// The sum of the counts that the first `upto` records keep for `key`.
pub open spec fn key_sum_upto(analyses: Seq<Analysis>, key: HandleKey, upto: int) -> nat
    decreases upto,
{
    if upto <= 0 {
        0
    } else {
        key_sum_upto(analyses, key, upto - 1) + count_in(
            map_counts(analyses[upto - 1].word_freq_map),
            key,
        )
    }
}

/// Every record of the list is consistent.
pub open spec fn all_wf(analyses: Seq<Analysis>) -> bool {
    forall|i: int| 0 <= i < analyses.len() ==> (#[trigger] analyses[i]).wf()
}

/// The four sums of the records' counts are numbers of the machine.
pub open spec fn sums_fit(analyses: Seq<Analysis>) -> bool {
    &&& sum_upto(word_counts(analyses), analyses.len() as int) <= usize::MAX
    &&& sum_upto(char_counts(analyses), analyses.len() as int) <= usize::MAX
    &&& sum_upto(sent_counts(analyses), analyses.len() as int) <= usize::MAX
    &&& sum_upto(para_counts(analyses), analyses.len() as int) <= usize::MAX
}

/// Whether `total` is the aggregate of the records: a consistent record
/// without a source, whose counts are the sums of theirs and whose map
/// keeps for every handle the sum of what theirs keep.
pub open spec fn is_aggregate(total: Analysis, analyses: Seq<Analysis>) -> bool {
    &&& total.wf()
    &&& total.file is None
    &&& total.word_count == sum_upto(word_counts(analyses), analyses.len() as int)
    &&& total.char_count == sum_upto(char_counts(analyses), analyses.len() as int)
    &&& total.sent_count == sum_upto(sent_counts(analyses), analyses.len() as int)
    &&& total.para_count == sum_upto(para_counts(analyses), analyses.len() as int)
    &&& forall|key: HandleKey| #[trigger]
        count_in(map_counts(total.word_freq_map), key) == key_sum_upto(
            analyses,
            key,
            analyses.len() as int,
        )
}

/// The store holds the handles of every record's table.
pub open spec fn all_held(analyses: Seq<Analysis>, store: StoreModel) -> bool {
    forall|k: int|
        0 <= k < analyses.len() ==> table_held((#[trigger] analyses[k]).word_freq@, store)
}

/// A handle whose counts over the records add up to more than nothing is
/// counted by one of the records.
pub proof fn lemma_key_sum_met(analyses: Seq<Analysis>, key: HandleKey, upto: int) -> (index: int)
    requires
        key_sum_upto(analyses, key, upto) > 0,
        upto <= analyses.len(),
    ensures
        0 <= index < upto,
        count_in(map_counts(analyses[index].word_freq_map), key) > 0,
    decreases upto,
{
    if count_in(map_counts(analyses[upto - 1].word_freq_map), key) > 0 {
        upto - 1
    } else {
        lemma_key_sum_met(analyses, key, upto - 1)
    }
}

/// The aggregate has no handle of its own: a store that holds the handles
/// of the records holds those of their aggregate.
pub proof fn lemma_aggregate_held(total: Analysis, analyses: Seq<Analysis>, store: StoreModel)
    requires
        is_aggregate(total, analyses),
        all_wf(analyses),
        all_held(analyses, store),
    ensures
        table_held(total.word_freq@, store),
{
    assert forall|i: int| 0 <= i < total.word_freq@.len() implies holds_entry(
        store,
        (#[trigger] total.word_freq@[i]).1.spec_entry(),
    ) by {
        let key = total.word_freq@[i].1.spec_entry();
        let counts = map_counts(total.word_freq_map);
        assert(counts.contains_key(key));
        assert(count_in(counts, key) == key_sum_upto(analyses, key, analyses.len() as int));
        let k = lemma_key_sum_met(analyses, key, analyses.len() as int);
        let part = analyses[k];
        assert(part.wf());
        assert(map_counts(part.word_freq_map).contains_key(key));
        let l = choose|l: int|
            0 <= l < part.word_freq@.len() && (#[trigger] part.word_freq@[l]).1.spec_entry()
                == key;
        assert(table_held(part.word_freq@, store));
    }
}

/// The aggregate of the records of all sources that succeeded; none where
/// there is no record.
pub fn aggregate(analyses: &Vec<Analysis>) -> (total: Option<Analysis>)
    requires
        all_wf(analyses@),
        sums_fit(analyses@),
    ensures
        total is Some <==> analyses@.len() > 0,
        total is Some ==> is_aggregate(total.unwrap(), analyses@),
{
    let n: usize = analyses.len();
    if n == 0 {
        return None;
    }
    let mut word_freq_map: FrequencyMap = counts_new();
    let mut word_count: usize = 0;
    let mut char_count: usize = 0;
    let mut sent_count: usize = 0;
    let mut para_count: usize = 0;
    let mut index: usize = 0;
    proof {
        assert(map_total(no_counts()) == 0);
    }
    while index < n
        invariant
            n == analyses@.len(),
            index <= n,
            all_wf(analyses@),
            sums_fit(analyses@),
            word_count == sum_upto(word_counts(analyses@), index as int),
            char_count == sum_upto(char_counts(analyses@), index as int),
            sent_count == sum_upto(sent_counts(analyses@), index as int),
            para_count == sum_upto(para_counts(analyses@), index as int),
            map_counts(word_freq_map).dom().finite(),
            all_positive(map_counts(word_freq_map)),
            map_total(map_counts(word_freq_map)) == word_count,
            forall|key: HandleKey| #[trigger]
                count_in(map_counts(word_freq_map), key) == key_sum_upto(
                    analyses@,
                    key,
                    index as int,
                ),
        decreases n - index,
    {
        let analysis: &Analysis = &analyses[index];
        proof {
            lemma_sum_grows(word_counts(analyses@), index + 1, n as int);
            lemma_sum_grows(char_counts(analyses@), index + 1, n as int);
            lemma_sum_grows(sent_counts(analyses@), index + 1, n as int);
            lemma_sum_grows(para_counts(analyses@), index + 1, n as int);
            assert(analyses@[index as int].wf());
        }
        merge_counts(&mut word_freq_map, analysis);
        word_count = word_count + analysis.word_count;
        char_count = char_count + analysis.char_count;
        sent_count = sent_count + analysis.sent_count;
        para_count = para_count + analysis.para_count;
        index += 1;
    }
    let word_freq: Vec<FrequencyEntry> = frequency_table(&word_freq_map);
    proof {
        lemma_total_listed(word_freq@, map_counts(word_freq_map));
    }
    let mut total = Analysis {
        file: None,
        word_count,
        char_count,
        sent_count,
        para_count,
        word_uniqs: word_freq.len(),
        word_freq,
        word_freq_map,
        word_dist: Distribution::default(),
    };
    update_dists(&mut total);
    Some(total)
}

/// A checked sum with one more count added: none once the sum has left
/// the numbers of the machine.
fn add_checked(sum: Option<usize>, count: usize) -> (more: Option<usize>)
    ensures
        more == if sum is Some && sum.unwrap() + count <= usize::MAX {
            Some((sum.unwrap() + count) as usize)
        } else {
            None
        },
{
    match sum {
        Some(sum) => sum.checked_add(count),
        None => None,
    }
}

/// Whether a checked sum stands for the sum of the first `upto` counts.
pub open spec fn is_checked_sum(sum: Option<usize>, counts: Seq<usize>, upto: int) -> bool {
    &&& sum is Some <==> sum_upto(counts, upto) <= usize::MAX
    &&& sum is Some ==> sum.unwrap() == sum_upto(counts, upto)
}

/// The aggregate of the records, where there is a record and the sums of
/// the counts are numbers of the machine; none otherwise.
pub fn try_aggregate(analyses: &Vec<Analysis>) -> (total: Option<Analysis>)
    requires
        all_wf(analyses@),
    ensures
        total is Some <==> analyses@.len() > 0 && sums_fit(analyses@),
        total is Some ==> is_aggregate(total.unwrap(), analyses@),
{
    let n: usize = analyses.len();
    let mut words: Option<usize> = Some(0);
    let mut chars: Option<usize> = Some(0);
    let mut sents: Option<usize> = Some(0);
    let mut paras: Option<usize> = Some(0);
    let mut index: usize = 0;
    while index < n
        invariant
            n == analyses@.len(),
            index <= n,
            is_checked_sum(words, word_counts(analyses@), index as int),
            is_checked_sum(chars, char_counts(analyses@), index as int),
            is_checked_sum(sents, sent_counts(analyses@), index as int),
            is_checked_sum(paras, para_counts(analyses@), index as int),
        decreases n - index,
    {
        let analysis: &Analysis = &analyses[index];
        words = add_checked(words, analysis.word_count);
        chars = add_checked(chars, analysis.char_count);
        sents = add_checked(sents, analysis.sent_count);
        paras = add_checked(paras, analysis.para_count);
        index += 1;
    }
    if words.is_some() && chars.is_some() && sents.is_some() && paras.is_some() {
        aggregate(analyses)
    } else {
        None
    }
}

/// A handle that one of the records counts is counted by their aggregate,
/// with the sum of the counts that the records keep for it.
pub proof fn lemma_aggregate_counts(
    total: Analysis,
    analyses: Seq<Analysis>,
    key: HandleKey,
    index: int,
)
    requires
        is_aggregate(total, analyses),
        0 <= index < analyses.len(),
        all_wf(analyses),
        map_counts(analyses[index].word_freq_map).contains_key(key),
    ensures
        map_counts(total.word_freq_map).contains_key(key),
        map_counts(total.word_freq_map)[key] == key_sum_upto(
            analyses,
            key,
            analyses.len() as int,
        ),
        map_counts(total.word_freq_map)[key] >= map_counts(analyses[index].word_freq_map)[key],
{
    lemma_key_sum_holds(analyses, key, index, analyses.len() as int);
    assert(count_in(map_counts(total.word_freq_map), key) == key_sum_upto(
        analyses,
        key,
        analyses.len() as int,
    ));
    assert(analyses[index].wf());
}

/// The sum of a handle's counts over the records is at least the count of
/// any one record among them.
pub proof fn lemma_key_sum_holds(analyses: Seq<Analysis>, key: HandleKey, index: int, upto: int)
    requires
        0 <= index < upto <= analyses.len(),
    ensures
        key_sum_upto(analyses, key, upto) >= count_in(
            map_counts(analyses[index].word_freq_map),
            key,
        ),
    decreases upto,
{
    if index < upto - 1 {
        lemma_key_sum_holds(analyses, key, index, upto - 1);
    }
}

} // verus!
