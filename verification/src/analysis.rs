//! The record of one source: how its text is counted and what the record
//! holds.

use crate::freq::{
    all_positive, count_in, count_occurrence, counts_clone, counts_new, frequency_table,
    lemma_occurs, lemma_tally_total, lemma_total_listed, lists_counts, map_counts, no_counts,
    occurrences,
    table_sorted, table_total, tallies, FrequencyEntry, FrequencyMap, HandleKey,
};
use crate::interning::{lemma_extends, lemma_intern, store_extends};
use crate::stats::{
    counts_of, distribution_of, lemma_table_counts, never_rising, spec_distribution, sum_upto,
    Distribution,
};
use crate::text::{
    grapheme_cluster_count, grapheme_clusters, lowercase_text, paragraph_count, spec_paragraphs,
    to_lowercase, unicode_sentence_count, unicode_sentences, unicode_word_texts, unicode_words,
};
use crate::ustring::{
    holds_entry, spec_intern, spec_text_hash, store_consistent, StoreModel, UniqueString,
    UniqueStringStore,
};
use std::path::PathBuf;
use vstd::prelude::*;

verus! {


/// `PathBuf` of std, carried through as it is: nothing of what a path
/// holds is known here.
#[verifier::external_type_specification]
#[verifier::external_body]
pub struct ExPathBuf(PathBuf);

/// `Clone` of std's `PathBuf`: the copy is the same path.
pub assume_specification[ <PathBuf as Clone>::clone ](path: &PathBuf) -> (copy: PathBuf)
    ensures
        copy == *path,
;

/// Number of words that are counted in one go.
pub const CHUNK_SIZE: usize = 12500;

/// The options of an analysis run.
#[derive(Default, Debug, Clone)]
pub struct Args {
    pub lowercase: bool,
    pub top_words: usize,
    pub bottom_words: usize,
    pub recursive: bool,
    pub follow_symlinks: bool,
    pub outfile: Option<String>,
    pub hide_empty: bool,
    pub emojis: bool,
    pub show_all_words: bool,
}

/// Where the text of an analysis comes from.
#[derive(Debug, Clone)]
pub enum AnalyzeSource {
    Content(String),
    Path(PathBuf),
}

/// The counts, the frequency table and the distribution of one source, or
/// of all sources together.
#[derive(Debug)]
pub struct Analysis {
    pub file: Option<PathBuf>,
    pub word_count: usize,
    pub char_count: usize,
    pub sent_count: usize,
    pub para_count: usize,
    pub word_uniqs: usize,
    pub word_freq: Vec<FrequencyEntry>,
    pub word_freq_map: FrequencyMap,
    pub word_dist: Distribution,
}

impl Default for Analysis {
    /// The record of nothing: no source, no words, an empty table.
    fn default() -> (empty: Self)
        ensures
            empty.wf(),
            empty.file is None,
            empty.word_count == 0,
            empty.char_count == 0,
            empty.sent_count == 0,
            empty.para_count == 0,
            empty.word_freq@.len() == 0,
            map_counts(empty.word_freq_map) == no_counts(),
    {
        let empty = Analysis {
            file: None,
            word_count: 0,
            char_count: 0,
            sent_count: 0,
            para_count: 0,
            word_uniqs: 0,
            word_freq: Vec::new(),
            word_freq_map: counts_new(),
            word_dist: Distribution::default(),
        };
        proof {
            assert(counts_of(empty.word_freq@) =~= Seq::empty());
        }
        empty
    }
}

impl Clone for Analysis {
    /// A copy with a map of its own that holds the same counts.
    fn clone(&self) -> (copy: Self)
        ensures
            copy.file == self.file,
            copy.word_count == self.word_count,
            copy.char_count == self.char_count,
            copy.sent_count == self.sent_count,
            copy.para_count == self.para_count,
            copy.word_uniqs == self.word_uniqs,
            copy.word_freq@ == self.word_freq@,
            map_counts(copy.word_freq_map) == map_counts(self.word_freq_map),
            copy.word_dist == self.word_dist,
    {
        let mut word_freq: Vec<FrequencyEntry> = Vec::new();
        let mut index: usize = 0;
        while index < self.word_freq.len()
            invariant
                index <= self.word_freq@.len(),
                word_freq@ == self.word_freq@.take(index as int),
            decreases self.word_freq@.len() - index,
        {
            word_freq.push(self.word_freq[index]);
            index += 1;
            proof {
                assert(word_freq@ =~= self.word_freq@.take(index as int));
            }
        }
        proof {
            assert(self.word_freq@.take(index as int) =~= self.word_freq@);
        }
        Analysis {
            file: self.file.clone(),
            word_count: self.word_count,
            char_count: self.char_count,
            sent_count: self.sent_count,
            para_count: self.para_count,
            word_uniqs: self.word_uniqs,
            word_freq,
            word_freq_map: counts_clone(&self.word_freq_map),
            word_dist: self.word_dist,
        }
    }
}

impl Analysis {
    /// The record is consistent: the table lists the map, most frequent
    /// first; no count is zero; the counts add up to the number of words;
    /// the number of unique words is the number of lines; and the
    /// distribution is that of the table.
    pub open spec fn wf(&self) -> bool {
        &&& lists_counts(self.word_freq@, map_counts(self.word_freq_map))
        &&& table_sorted(self.word_freq@)
        &&& all_positive(map_counts(self.word_freq_map))
        &&& table_total(self.word_freq@) == self.word_count
        &&& self.word_uniqs == self.word_freq@.len()
        &&& self.word_dist == spec_distribution(counts_of(self.word_freq@))
    }
}

/// The form in which each word is counted: as it stands, or in lowercase.
pub open spec fn word_forms(words: Seq<Seq<char>>, lowercase: bool) -> Seq<Seq<char>> {
    Seq::new(
        words.len(),
        |i: int|
            if lowercase {
                lowercase_text(words[i])
            } else {
                words[i]
            },
    )
}

/// Interning texts one after the other: the store afterwards and the
/// handle of each text, in order.
pub open spec fn intern_all(store: StoreModel, texts: Seq<Seq<char>>) -> (StoreModel, Seq<HandleKey>)
    decreases texts.len(),
{
    if texts.len() == 0 {
        (store, Seq::empty())
    } else {
        let (before, keys) = intern_all(store, texts.drop_last());
        let (after, entry) = spec_intern(before, spec_text_hash(texts.last()), texts.last());
        (after, keys.push((entry.0 as usize, entry.1 as usize)))
    }
}

/// The texts of a list of words.
pub open spec fn texts_of(words: Seq<&str>) -> Seq<Seq<char>> {
    Seq::new(words.len(), |i: int| words[i]@)
}

/// Every handle of the table names a string of the store.
pub open spec fn table_held(table: Seq<FrequencyEntry>, store: StoreModel) -> bool {
    forall|i: int|
        0 <= i < table.len() ==> holds_entry(store, (#[trigger] table[i]).1.spec_entry())
}

/// Interning texts keeps a consistent store consistent and only adds to
/// it; it gives one handle for each text, and every one of them names a
/// string of the store afterwards.
pub proof fn lemma_intern_all(store: StoreModel, texts: Seq<Seq<char>>)
    requires
        store_consistent(store),
    ensures
        store_consistent(intern_all(store, texts).0),
        store_extends(store, intern_all(store, texts).0),
        intern_all(store, texts).1.len() == texts.len(),
        forall|i: int|
            0 <= i < texts.len() ==> holds_entry(
                intern_all(store, texts).0,
                #[trigger] intern_all(store, texts).1[i],
            ),
    decreases texts.len(),
{
    if texts.len() > 0 {
        let (before, keys) = intern_all(store, texts.drop_last());
        let (after, entry) = spec_intern(before, spec_text_hash(texts.last()), texts.last());
        lemma_intern_all(store, texts.drop_last());
        lemma_intern(before, spec_text_hash(texts.last()), texts.last());
        lemma_extends(store, before, after, (0, 0));
        let all = intern_all(store, texts).1;
        assert forall|i: int| 0 <= i < texts.len() implies holds_entry(after, #[trigger] all[i]) by {
            if i < keys.len() {
                assert(all[i] == keys[i]);
                lemma_extends(before, after, after, keys[i]);
            }
        }
    }
}

/// A table whose handles a store holds is held by every store that
/// extends it.
pub proof fn lemma_table_stays_held(
    table: Seq<FrequencyEntry>,
    earlier: StoreModel,
    later: StoreModel,
)
    requires
        table_held(table, earlier),
        store_extends(earlier, later),
    ensures
        table_held(table, later),
{
    assert forall|i: int| 0 <= i < table.len() implies holds_entry(
        later,
        (#[trigger] table[i]).1.spec_entry(),
    ) by {
        lemma_extends(earlier, later, later, table[i].1.spec_entry());
    }
}

/// A table that lists the tally of handles which a store holds is held by
/// that store.
pub proof fn lemma_tally_held(
    table: Seq<FrequencyEntry>,
    counts: Map<HandleKey, usize>,
    keys: Seq<HandleKey>,
    store: StoreModel,
)
    requires
        lists_counts(table, counts),
        tallies(counts, keys),
        forall|i: int| 0 <= i < keys.len() ==> holds_entry(store, #[trigger] keys[i]),
    ensures
        table_held(table, store),
{
    assert forall|i: int| 0 <= i < table.len() implies holds_entry(
        store,
        (#[trigger] table[i]).1.spec_entry(),
    ) by {
        let key = table[i].1.spec_entry();
        assert(counts.contains_key(key));
        assert(count_in(counts, key) == occurrences(keys, key));
        let at = lemma_occurs(keys, key);
        assert(holds_entry(store, keys[at]));
    }
}

/// Interns each word, in lowercase if asked, and counts how often each
/// handle came back. The words are taken chunk by chunk; the number handed
/// back beside the map is the sum of the lengths of the chunks, which is
/// the number of words whether or not they repeat.
pub fn tally_words(store: &mut UniqueStringStore, words: &Vec<&str>, lowercase: bool) -> (tally: (
    FrequencyMap,
    usize,
))
    requires
        old(store).wf(),
    ensures
        final(store).wf(),
        final(store)@ == intern_all(old(store)@, word_forms(texts_of(words@), lowercase)).0,
        tallies(
            map_counts(tally.0),
            intern_all(old(store)@, word_forms(texts_of(words@), lowercase)).1,
        ),
        tally.1 == words@.len(),
{
    let mut map: FrequencyMap = counts_new();
    let mut counted: usize = 0;
    let ghost forms = word_forms(texts_of(words@), lowercase);
    let ghost mut keys: Seq<HandleKey> = Seq::empty();
    let n: usize = words.len();
    let mut done: usize = 0;
    proof {
        assert(forms.take(0) =~= Seq::empty());
    }
    while done < n
        invariant
            n == words@.len(),
            done <= n,
            forms == word_forms(texts_of(words@), lowercase),
            store.wf(),
            (store@, keys) == intern_all(old(store)@, forms.take(done as int)),
            keys.len() == done,
            counted == done,
            tallies(map_counts(map), keys),
        decreases n - done,
    {
        let start: usize = done;
        let mut end: usize = n;
        if n - done > CHUNK_SIZE {
            end = done + CHUNK_SIZE;
        }
        while done < end
            invariant
                n == words@.len(),
                start <= done <= end <= n,
                counted == start,
                forms == word_forms(texts_of(words@), lowercase),
                store.wf(),
                (store@, keys) == intern_all(old(store)@, forms.take(done as int)),
                keys.len() == done,
                tallies(map_counts(map), keys),
            decreases end - done,
        {
            let word: &str = words[done];
            let handle: UniqueString = if lowercase {
                let lowered: String = to_lowercase(word);
                UniqueString::new(store, lowered.as_str())
            } else {
                UniqueString::new(store, word)
            };
            proof {
                assert(forms.take(done + 1).drop_last() =~= forms.take(done as int));
                assert(forms.take(done + 1).last() == forms[done as int]);
            }
            count_occurrence(&mut map, handle.entry(), Ghost(keys));
            proof {
                keys = keys.push(handle.spec_entry());
            }
            done += 1;
        }
        counted = counted + (end - start);
    }
    proof {
        assert(forms.take(n as int) =~= forms);
    }
    (map, counted)
}

/// Computes the distribution of the record's table anew.
pub fn update_dists(analysis: &mut Analysis)
    requires
        table_sorted(old(analysis).word_freq@),
        table_total(old(analysis).word_freq@) <= usize::MAX,
    ensures
        final(analysis).word_dist == spec_distribution(counts_of(old(analysis).word_freq@)),
        final(analysis).file == old(analysis).file,
        final(analysis).word_count == old(analysis).word_count,
        final(analysis).char_count == old(analysis).char_count,
        final(analysis).sent_count == old(analysis).sent_count,
        final(analysis).para_count == old(analysis).para_count,
        final(analysis).word_uniqs == old(analysis).word_uniqs,
        final(analysis).word_freq == old(analysis).word_freq,
        final(analysis).word_freq_map == old(analysis).word_freq_map,
{
    proof {
        lemma_table_counts(analysis.word_freq@);
    }
    analysis.word_dist = distribution_of(&analysis.word_freq);
}

/// The record of a source whose text has been segmented: interns and
/// counts the words, builds the sorted table from the map and computes the
/// distribution. The counts of characters, sentences and paragraphs are
/// taken over as they are given.
pub fn analyze_words(
    store: &mut UniqueStringStore,
    words: &Vec<&str>,
    lowercase: bool,
    file: Option<PathBuf>,
    char_count: usize,
    sent_count: usize,
    para_count: usize,
) -> (analysis: Analysis)
    requires
        old(store).wf(),
    ensures
        final(store).wf(),
        final(store)@ == intern_all(old(store)@, word_forms(texts_of(words@), lowercase)).0,
        tallies(
            map_counts(analysis.word_freq_map),
            intern_all(old(store)@, word_forms(texts_of(words@), lowercase)).1,
        ),
        analysis.wf(),
        table_held(analysis.word_freq@, final(store)@),
        analysis.file == file,
        analysis.word_count == words@.len(),
        analysis.char_count == char_count,
        analysis.sent_count == sent_count,
        analysis.para_count == para_count,
{
    let (word_freq_map, word_count) = tally_words(store, words, lowercase);
    let word_freq: Vec<FrequencyEntry> = frequency_table(&word_freq_map);
    proof {
        let keys = intern_all(old(store)@, word_forms(texts_of(words@), lowercase)).1;
        old(store).lemma_consistent();
        lemma_intern_all(old(store)@, word_forms(texts_of(words@), lowercase));
        lemma_tally_total(map_counts(word_freq_map), keys);
        lemma_total_listed(word_freq@, map_counts(word_freq_map));
        lemma_tally_held(word_freq@, map_counts(word_freq_map), keys, store@);
    }
    let mut analysis = Analysis {
        file,
        word_count,
        char_count,
        sent_count,
        para_count,
        word_uniqs: word_freq.len(),
        word_freq,
        word_freq_map,
        word_dist: Distribution::default(),
    };
    update_dists(&mut analysis);
    analysis
}

/// Analyzes one text: counts its grapheme clusters, sentences and
/// paragraphs, splits it into words, interns and counts them.
pub fn process(
    store: &mut UniqueStringStore,
    content: &str,
    file: Option<PathBuf>,
    lowercase: bool,
) -> (analysis: Analysis)
    requires
        old(store).wf(),
    ensures
        final(store).wf(),
        final(store)@ == intern_all(
            old(store)@,
            word_forms(unicode_word_texts(content@), lowercase),
        ).0,
        tallies(
            map_counts(analysis.word_freq_map),
            intern_all(old(store)@, word_forms(unicode_word_texts(content@), lowercase)).1,
        ),
        analysis.wf(),
        table_held(analysis.word_freq@, final(store)@),
        analysis.file == file,
        analysis.word_count == unicode_word_texts(content@).len(),
        analysis.char_count == grapheme_cluster_count(content@),
        analysis.sent_count == unicode_sentence_count(content@),
        analysis.para_count == spec_paragraphs(vstd::utf8::encode_utf8(content@)),
        content@.len() == 0 ==> analysis.word_count == 0 && analysis.char_count == 0
            && analysis.sent_count == 0 && analysis.word_freq@.len() == 0 && analysis.word_dist
            == spec_distribution(Seq::empty()),
{
    let sent_count: usize = unicode_sentences(content);
    let para_count: usize = paragraph_count(content);
    let char_count: usize = grapheme_clusters(content);
    let words: Vec<&str> = unicode_words(content);
    proof {
        assert(texts_of(words@) =~= unicode_word_texts(content@));
    }
    let analysis = analyze_words(
        store,
        &words,
        lowercase,
        file,
        char_count,
        sent_count,
        para_count,
    );
    proof {
        if analysis.word_freq@.len() == 0 {
            assert(counts_of(analysis.word_freq@) =~= Seq::empty());
        }
        if content@.len() == 0 {
            lemma_table_positive(
                analysis.word_freq@,
                map_counts(analysis.word_freq_map),
                analysis.word_freq@.len() as int,
            );
            assert(analysis.word_freq@.take(analysis.word_freq@.len() as int)
                =~= analysis.word_freq@);
        }
    }
    analysis
}

/// A table that lists a map without zero counts has a total of at least
/// the number of its first `upto` lines.
pub proof fn lemma_table_positive(
    table: Seq<FrequencyEntry>,
    counts: Map<HandleKey, usize>,
    upto: int,
)
    requires
        lists_counts(table, counts),
        all_positive(counts),
        0 <= upto <= table.len(),
    ensures
        upto <= table_total(table.take(upto)),
    decreases upto,
{
    if upto > 0 {
        lemma_table_positive(table, counts, upto - 1);
        assert(table.take(upto).drop_last() =~= table.take(upto - 1));
        assert(table.take(upto).last() == table[upto - 1]);
        assert(counts.contains_key(table[upto - 1].1.spec_entry()));
    }
}

/// The table of a consistent record is sorted: its counts never rise from
/// one line to the next. Its counts add up to the number of words, and it
/// has one line for each unique word.
pub proof fn lemma_record_table(analysis: Analysis)
    requires
        analysis.wf(),
    ensures
        never_rising(counts_of(analysis.word_freq@)),
        sum_upto(counts_of(analysis.word_freq@), analysis.word_freq@.len() as int)
            == analysis.word_count,
        analysis.word_uniqs == analysis.word_freq@.len(),
        analysis.word_uniqs == map_counts(analysis.word_freq_map).dom().len(),
{
    lemma_table_counts(analysis.word_freq@);
    lemma_total_listed(analysis.word_freq@, map_counts(analysis.word_freq_map));
}

} // verus!
