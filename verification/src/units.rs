//! The run over all units of work: every text that is at hand is
//! analyzed, failures are set aside, and the records are aggregated.

use crate::aggregate::{
    all_held, is_aggregate, lemma_aggregate_held, sums_fit, try_aggregate,
};
use crate::analysis::{
    intern_all, lemma_intern_all, lemma_table_stays_held, process, table_held, word_forms,
    Analysis, Args,
};
use crate::freq::{map_counts, tallies};
use crate::text::{
    grapheme_cluster_count, spec_paragraphs, unicode_sentence_count, unicode_word_texts,
};
use crate::ustring::{StoreModel, UniqueStringStore};
use std::path::PathBuf;
use vstd::prelude::*;

verus! {

/// The records among the outcomes of the units, in their order.
pub open spec fn successes_of<E>(outcomes: Seq<Result<Analysis, E>>) -> Seq<Analysis>
    decreases outcomes.len(),
{
    if outcomes.len() == 0 {
        Seq::empty()
    } else {
        match outcomes.last() {
            Ok(analysis) => successes_of(outcomes.drop_last()).push(analysis),
            Err(_) => successes_of(outcomes.drop_last()),
        }
    }
}

/// The failures among the outcomes of the units, in their order.
pub open spec fn failures_of<E>(outcomes: Seq<Result<Analysis, E>>) -> Seq<E>
    decreases outcomes.len(),
{
    if outcomes.len() == 0 {
        Seq::empty()
    } else {
        match outcomes.last() {
            Ok(_) => failures_of(outcomes.drop_last()),
            Err(failure) => failures_of(outcomes.drop_last()).push(failure),
        }
    }
}

/// Every unit either succeeded or failed: there are as many records as
/// units less the failures.
pub proof fn lemma_outcomes_split<E>(outcomes: Seq<Result<Analysis, E>>)
    ensures
        successes_of(outcomes).len() == outcomes.len() - failures_of(outcomes).len(),
    decreases outcomes.len(),
{
    if outcomes.len() > 0 {
        lemma_outcomes_split(outcomes.drop_last());
    }
}

/// The items in the opposite order.
pub fn reversed<T>(items: Vec<T>) -> (turned: Vec<T>)
    ensures
        turned@.len() == items@.len(),
        forall|i: int| 0 <= i < turned@.len() ==> turned@[i] == items@[items@.len() - 1 - i],
{
    let ghost given = items@;
    let mut items = items;
    let mut turned: Vec<T> = Vec::new();
    while items.len() > 0
        invariant
            items@.len() + turned@.len() == given.len(),
            forall|i: int| 0 <= i < items@.len() ==> items@[i] == given[i],
            forall|i: int| 0 <= i < turned@.len() ==> turned@[i] == given[given.len() - 1 - i],
        decreases items@.len(),
    {
        let item = items.pop().unwrap();
        turned.push(item);
    }
    turned
}

/// Parts the outcomes of the units into the records of those that
/// succeeded and the failures of the others, each in the order in which
/// they came.
pub fn split_outcomes<E>(outcomes: Vec<Result<Analysis, E>>) -> (parts: (Vec<Analysis>, Vec<E>))
    ensures
        parts.0@ == successes_of(outcomes@),
        parts.1@ == failures_of(outcomes@),
        parts.0@.len() == outcomes@.len() - parts.1@.len(),
{
    let ghost given = outcomes@;
    let mut stack: Vec<Result<Analysis, E>> = reversed(outcomes);
    let mut successes: Vec<Analysis> = Vec::new();
    let mut failures: Vec<E> = Vec::new();
    let ghost mut done: int = 0;
    proof {
        assert(given.take(0) =~= Seq::empty());
    }
    while stack.len() > 0
        invariant
            0 <= done <= given.len(),
            stack@.len() == given.len() - done,
            forall|i: int|
                0 <= i < stack@.len() ==> stack@[i] == given[given.len() - 1 - i],
            successes@ == successes_of(given.take(done)),
            failures@ == failures_of(given.take(done)),
        decreases stack@.len(),
    {
        let outcome = stack.pop().unwrap();
        proof {
            assert(outcome == given[done]);
            assert(given.take(done + 1).drop_last() =~= given.take(done));
            assert(given.take(done + 1).last() == given[done]);
            done = done + 1;
        }
        match outcome {
            Ok(analysis) => {
                successes.push(analysis);
            },
            Err(failure) => {
                failures.push(failure);
            },
        }
    }
    proof {
        assert(given.take(done) =~= given);
        lemma_outcomes_split(given);
    }
    (successes, failures)
}

/// A unit of work whose text is at hand: the text, and the file it was
/// read from, if it was read from one.
#[derive(Debug, Clone)]
pub struct Loaded {
    pub file: Option<PathBuf>,
    pub content: String,
}

/// The units whose text is at hand, in their order.
pub open spec fn loaded_of<E>(units: Seq<Result<Loaded, E>>) -> Seq<Loaded>
    decreases units.len(),
{
    if units.len() == 0 {
        Seq::empty()
    } else {
        match units.last() {
            Ok(loaded) => loaded_of(units.drop_last()).push(loaded),
            Err(_) => loaded_of(units.drop_last()),
        }
    }
}

/// The failures among the units, in their order.
pub open spec fn unreadable_of<E>(units: Seq<Result<Loaded, E>>) -> Seq<E>
    decreases units.len(),
{
    if units.len() == 0 {
        Seq::empty()
    } else {
        match units.last() {
            Ok(_) => unreadable_of(units.drop_last()),
            Err(failure) => unreadable_of(units.drop_last()).push(failure),
        }
    }
}

/// The store after the words of a text have been interned.
pub open spec fn store_after_text(store: StoreModel, content: Seq<char>, lowercase: bool)
    -> StoreModel {
    intern_all(store, word_forms(unicode_word_texts(content), lowercase)).0
}

/// The store after the words of the first `upto` texts have been interned,
/// text by text.
pub open spec fn store_along(store: StoreModel, loaded: Seq<Loaded>, lowercase: bool, upto: int)
    -> StoreModel
    decreases upto,
{
    if upto <= 0 {
        store
    } else {
        store_after_text(
            store_along(store, loaded, lowercase, upto - 1),
            loaded[upto - 1].content@,
            lowercase,
        )
    }
}

/// Whether the record is that of the text `content`, read from `file`,
/// whose words were interned into `store`.
pub open spec fn is_analysis_of(
    analysis: Analysis,
    store: StoreModel,
    file: Option<PathBuf>,
    content: Seq<char>,
    lowercase: bool,
) -> bool {
    &&& analysis.wf()
    &&& analysis.file == file
    &&& analysis.word_count == unicode_word_texts(content).len()
    &&& analysis.char_count == grapheme_cluster_count(content)
    &&& analysis.sent_count == unicode_sentence_count(content)
    &&& analysis.para_count == spec_paragraphs(vstd::utf8::encode_utf8(content))
    &&& tallies(
        map_counts(analysis.word_freq_map),
        intern_all(store, word_forms(unicode_word_texts(content), lowercase)).1,
    )
}

/// As many units are at hand as there are units less the failures.
pub proof fn lemma_units_split<E>(units: Seq<Result<Loaded, E>>)
    ensures
        loaded_of(units).len() == units.len() - unreadable_of(units).len(),
    decreases units.len(),
{
    if units.len() > 0 {
        lemma_units_split(units.drop_last());
    }
}

/// Analyzes every unit whose text is at hand, one after the other, and
/// aggregates the records. A unit that failed is passed over: its failure
/// is handed back and touches no other unit. The aggregate is there when
/// at least one unit succeeded and the sums of the counts are numbers of
/// the machine.
pub fn analyze<E>(store: &mut UniqueStringStore, units: Vec<Result<Loaded, E>>, args: &Args) -> (report:
    (Vec<Analysis>, Option<Analysis>, Vec<E>))
    requires
        old(store).wf(),
    ensures
        final(store).wf(),
        report.0@.len() == units@.len() - report.2@.len(),
        report.0@.len() == loaded_of(units@).len(),
        report.2@ == unreadable_of(units@),
        forall|k: int|
            0 <= k < report.0@.len() ==> is_analysis_of(
                #[trigger] report.0@[k],
                store_along(old(store)@, loaded_of(units@), args.lowercase, k),
                loaded_of(units@)[k].file,
                loaded_of(units@)[k].content@,
                args.lowercase,
            ),
        final(store)@ == store_along(
            old(store)@,
            loaded_of(units@),
            args.lowercase,
            loaded_of(units@).len() as int,
        ),
        report.1 is Some <==> report.0@.len() > 0 && sums_fit(report.0@),
        report.1 is Some ==> is_aggregate(report.1.unwrap(), report.0@),
        all_held(report.0@, final(store)@),
        report.1 is Some ==> table_held(report.1.unwrap().word_freq@, final(store)@),
{
    let ghost given = units@;
    let ghost first = store@;
    let lowercase: bool = args.lowercase;
    let mut stack: Vec<Result<Loaded, E>> = reversed(units);
    let mut analyses: Vec<Analysis> = Vec::new();
    let mut failures: Vec<E> = Vec::new();
    let ghost mut done: int = 0;
    proof {
        assert(given.take(0) =~= Seq::empty());
    }
    while stack.len() > 0
        invariant
            0 <= done <= given.len(),
            stack@.len() == given.len() - done,
            forall|i: int| 0 <= i < stack@.len() ==> stack@[i] == given[given.len() - 1 - i],
            store.wf(),
            analyses@.len() == loaded_of(given.take(done)).len(),
            failures@ == unreadable_of(given.take(done)),
            forall|k: int|
                0 <= k < analyses@.len() ==> is_analysis_of(
                    #[trigger] analyses@[k],
                    store_along(first, loaded_of(given.take(done)), lowercase, k),
                    loaded_of(given.take(done))[k].file,
                    loaded_of(given.take(done))[k].content@,
                    lowercase,
                ),
            store@ == store_along(
                first,
                loaded_of(given.take(done)),
                lowercase,
                loaded_of(given.take(done)).len() as int,
            ),
            all_held(analyses@, store@),
        decreases stack@.len(),
    {
        let unit = stack.pop().unwrap();
        let ghost before = loaded_of(given.take(done));
        let ghost after = loaded_of(given.take(done + 1));
        proof {
            assert(unit == given[done]);
            assert(given.take(done + 1).drop_last() =~= given.take(done));
            assert(given.take(done + 1).last() == given[done]);
        }
        match unit {
            Ok(loaded) => {
                let ghost earlier = store@;
                let ghost tables = analyses@;
                proof {
                    store.lemma_consistent();
                }
                let analysis = process(store, loaded.content.as_str(), loaded.file, lowercase);
                analyses.push(analysis);
                proof {
                    let forms = word_forms(unicode_word_texts(loaded.content@), lowercase);
                    lemma_intern_all(earlier, forms);
                    assert forall|k: int| 0 <= k < analyses@.len() implies table_held(
                        (#[trigger] analyses@[k]).word_freq@,
                        store@,
                    ) by {
                        if k < tables.len() {
                            assert(analyses@[k] == tables[k]);
                            lemma_table_stays_held(tables[k].word_freq@, earlier, store@);
                        }
                    }
                    assert(after == before.push(loaded));
                    lemma_store_along_agrees(first, before, after, lowercase, before.len() as int);
                    assert forall|k: int| 0 <= k < analyses@.len() implies is_analysis_of(
                        #[trigger] analyses@[k],
                        store_along(first, after, lowercase, k),
                        after[k].file,
                        after[k].content@,
                        lowercase,
                    ) by {
                        lemma_store_along_agrees(first, before, after, lowercase, k);
                        if k < before.len() {
                            assert(after[k] == before[k]);
                        }
                    }
                }
            },
            Err(failure) => {
                failures.push(failure);
                proof {
                    assert(after == before);
                }
            },
        }
        proof {
            done = done + 1;
        }
    }
    proof {
        assert(given.take(done) =~= given);
        lemma_units_split(given);
    }
    let total: Option<Analysis> = try_aggregate(&analyses);
    proof {
        if total is Some {
            lemma_aggregate_held(total.unwrap(), analyses@, store@);
        }
    }
    (analyses, total, failures)
}

/// The store along a list of texts depends only on the texts passed.
pub proof fn lemma_store_along_agrees(
    store: StoreModel,
    a: Seq<Loaded>,
    b: Seq<Loaded>,
    lowercase: bool,
    upto: int,
)
    requires
        upto <= a.len(),
        upto <= b.len(),
        forall|i: int| 0 <= i < upto ==> a[i] == b[i],
    ensures
        store_along(store, a, lowercase, upto) == store_along(store, b, lowercase, upto),
    decreases upto,
{
    if upto > 0 {
        lemma_store_along_agrees(store, a, b, lowercase, upto - 1);
    }
}

} // verus!
