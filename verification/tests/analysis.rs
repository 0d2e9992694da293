use dashmap::DashMap;
use std::path::PathBuf;
use wordstat::aggregate::{aggregate, merge_counts, try_aggregate};
use wordstat::analysis::{
    analyze_words, process, tally_words, update_dists, Analysis, AnalyzeSource, Args,
};
use wordstat::units::{analyze, split_outcomes, Loaded};
use wordstat::freq::{
    add_count, frequency_table, merge_tables, sorted_range, stands_before, FrequencyEntry,
};
use wordstat::stats::Distribution;
use wordstat::ustring::{UniqueString, UniqueStringStore};

fn lines(store: &UniqueStringStore, analysis: &Analysis) -> Vec<(usize, String)> {
    analysis
        .word_freq
        .iter()
        .map(|line| (line.0, line.1.as_str(store).to_string()))
        .collect()
}

fn counted(analysis: &Analysis, handle: UniqueString) -> Option<usize> {
    analysis.word_freq_map.get(&handle.entry()).map(|count| *count)
}

#[test]
fn the_cat_sat_on_the_mat() {
    let mut store = UniqueStringStore::new();
    let analysis = process(&mut store, "the cat sat on the mat", None, false);
    assert_eq!(analysis.word_count, 6);
    assert_eq!(analysis.word_uniqs, 5);
    assert_eq!(analysis.word_freq.len(), 5);
    assert_eq!(lines(&store, &analysis)[0], (2, "the".to_string()));
    assert_eq!(analysis.char_count, 22);
    assert_eq!(analysis.sent_count, 1);
    assert_eq!(analysis.para_count, 1);
    assert!(analysis.file.is_none());
}

#[test]
fn table_is_sorted_and_ties_go_by_handle() {
    let mut store = UniqueStringStore::new();
    let analysis = process(&mut store, "the cat sat on the mat", None, false);
    assert_eq!(
        lines(&store, &analysis),
        vec![
            (2, "the".to_string()),
            (1, "sat".to_string()),
            (1, "mat".to_string()),
            (1, "on".to_string()),
            (1, "cat".to_string()),
        ]
    );
}

#[test]
fn counts_of_the_table_add_up_to_the_word_count() {
    let mut store = UniqueStringStore::new();
    let text = "one two two three three three four four four four";
    let analysis = process(&mut store, text, None, false);
    assert_eq!(analysis.word_count, 10);
    assert_eq!(analysis.word_freq.iter().map(|line| line.0).sum::<usize>(), 10);
    assert_eq!(analysis.word_uniqs, analysis.word_freq.len());
    assert_eq!(analysis.word_freq_map.len(), 4);
    let counts: Vec<usize> = analysis.word_freq.iter().map(|line| line.0).collect();
    assert_eq!(counts, vec![4, 3, 2, 1]);
}

#[test]
fn distribution_of_a_processed_text() {
    let mut store = UniqueStringStore::new();
    let analysis = process(&mut store, "the cat sat on the mat", None, false);
    assert_eq!(
        analysis.word_dist,
        Distribution {
            entries: 5,
            total: 6,
            square_total: 8,
            median_first: 1,
            median_second: 1,
            mode_total: 1,
            mode_ties: 1,
        }
    );
}

#[test]
fn empty_content_gives_an_empty_record() {
    let mut store = UniqueStringStore::new();
    let analysis = process(&mut store, "", None, true);
    assert_eq!(analysis.word_count, 0);
    assert_eq!(analysis.char_count, 0);
    assert_eq!(analysis.sent_count, 0);
    assert_eq!(analysis.para_count, 1);
    assert_eq!(analysis.word_uniqs, 0);
    assert!(analysis.word_freq.is_empty());
    assert!(analysis.word_freq_map.is_empty());
    assert_eq!(analysis.word_dist, Distribution::default());
}

#[test]
fn lowercase_folds_words_together() {
    let mut store = UniqueStringStore::new();
    let folded = process(&mut store, "The the THE Cat", None, true);
    assert_eq!(folded.word_count, 4);
    assert_eq!(lines(&store, &folded), vec![(3, "the".to_string()), (1, "cat".to_string())]);
    let mut other = UniqueStringStore::new();
    let plain = process(&mut other, "The the THE Cat", None, false);
    assert_eq!(plain.word_count, 4);
    assert_eq!(plain.word_uniqs, 4);
}

#[test]
fn words_follow_unicode_word_boundaries() {
    let mut store = UniqueStringStore::new();
    let text = "The quick (\"brown\") fox can't jump 32.3 feet, right?";
    let analysis = process(&mut store, text, None, false);
    assert_eq!(analysis.word_count, 9);
    let cant = UniqueString::new(&mut store, "can't");
    let number = UniqueString::new(&mut store, "32.3");
    assert_eq!(counted(&analysis, cant), Some(1));
    assert_eq!(counted(&analysis, number), Some(1));
}

#[test]
fn characters_are_grapheme_clusters() {
    let mut store = UniqueStringStore::new();
    let analysis = process(&mut store, "a\u{310}e\u{301}o\u{308}\u{332}", None, false);
    assert_eq!(analysis.char_count, 3);
    let other = process(&mut store, "a\r\nb", None, false);
    assert_eq!(other.char_count, 3);
}

#[test]
fn sentences_follow_unicode_sentence_boundaries() {
    let mut store = UniqueStringStore::new();
    let text = "Mr. Fox jumped. [...] The dog was too lazy.";
    let analysis = process(&mut store, text, None, false);
    assert_eq!(analysis.sent_count, 3);
}

#[test]
fn paragraphs_of_a_processed_text() {
    let mut store = UniqueStringStore::new();
    let analysis = process(&mut store, "one\r\n\r\ntwo\n\nthree\nfour", None, false);
    assert_eq!(analysis.para_count, 3);
    assert_eq!(analysis.word_count, 4);
}

#[test]
fn file_of_the_source_is_kept() {
    let mut store = UniqueStringStore::new();
    let analysis = process(&mut store, "a", Some(PathBuf::from("dir/file.txt")), false);
    assert_eq!(analysis.file, Some(PathBuf::from("dir/file.txt")));
}

#[test]
fn more_words_than_one_chunk() {
    let mut store = UniqueStringStore::new();
    let mut text = String::new();
    for i in 0..30000 {
        text.push_str(if i % 3 == 0 { "x " } else { "y " });
    }
    let analysis = process(&mut store, &text, None, false);
    assert_eq!(analysis.word_count, 30000);
    assert_eq!(lines(&store, &analysis), vec![(20000, "y".to_string()), (10000, "x".to_string())]);
}

#[test]
fn analyze_words_takes_the_segments_as_given() {
    let mut store = UniqueStringStore::new();
    let words = vec!["B", "a", "b", "A", "a"];
    let analysis = analyze_words(&mut store, &words, true, None, 11, 12, 13);
    assert_eq!(analysis.word_count, 5);
    assert_eq!(analysis.char_count, 11);
    assert_eq!(analysis.sent_count, 12);
    assert_eq!(analysis.para_count, 13);
    assert_eq!(lines(&store, &analysis), vec![(3, "a".to_string()), (2, "b".to_string())]);
}

#[test]
fn one_unreadable_source_and_one_valid_source() {
    let mut store = UniqueStringStore::new();
    let units: Vec<Result<Loaded, String>> = vec![
        Err("missing.txt: not found".to_string()),
        Ok(Loaded { file: Some(PathBuf::from("valid.txt")), content: "a a b".to_string() }),
    ];
    let (analyses, total, failures) = analyze(&mut store, units, &Args::default());
    assert_eq!(analyses.len(), 1);
    assert_eq!(failures, vec!["missing.txt: not found".to_string()]);
    let total = total.unwrap();
    assert_eq!(total.word_count, 3);
    assert!(total.file.is_none());
    assert_eq!(lines(&store, &total)[0], (2, "a".to_string()));
    assert_eq!(analyses[0].file, Some(PathBuf::from("valid.txt")));
}

#[test]
fn no_successful_source_gives_no_aggregate() {
    let mut store = UniqueStringStore::new();
    let units: Vec<Result<Loaded, u32>> = vec![Err(1), Err(2)];
    let (analyses, total, failures) = analyze(&mut store, units, &Args::default());
    assert!(analyses.is_empty());
    assert!(total.is_none());
    assert_eq!(failures, vec![1, 2]);
    let none: Vec<Result<Loaded, u32>> = Vec::new();
    let (analyses, total, failures) = analyze(&mut store, none, &Args::default());
    assert!(analyses.is_empty() && total.is_none() && failures.is_empty());
}

#[test]
fn records_are_as_many_as_sources_less_failures() {
    let mut store = UniqueStringStore::new();
    let mut units: Vec<Result<Loaded, usize>> = Vec::new();
    for i in 0..10 {
        if i % 3 == 0 {
            units.push(Err(i));
        } else {
            units.push(Ok(Loaded { file: None, content: format!("w{} w{}", i, i) }));
        }
    }
    let (analyses, total, failures) = analyze(&mut store, units, &Args::default());
    assert_eq!(failures, vec![0, 3, 6, 9]);
    assert_eq!(analyses.len(), 10 - 4);
    assert_eq!(total.unwrap().word_count, 12);
    let texts: Vec<String> =
        analyses.iter().map(|analysis| lines(&store, analysis)[0].1.clone()).collect();
    assert_eq!(texts, vec!["w1", "w2", "w4", "w5", "w7", "w8"]);
}

#[test]
fn aggregate_sums_counts_and_merges_maps() {
    let mut store = UniqueStringStore::new();
    let first = process(&mut store, "a a b.", None, false);
    let second = process(&mut store, "b c\n\nc b a", None, false);
    let a = UniqueString::new(&mut store, "a");
    let b = UniqueString::new(&mut store, "b");
    let c = UniqueString::new(&mut store, "c");
    let analyses = vec![first, second];
    let total = aggregate(&analyses).unwrap();
    assert_eq!(total.word_count, analyses[0].word_count + analyses[1].word_count);
    assert_eq!(total.word_count, 8);
    assert_eq!(total.char_count, analyses[0].char_count + analyses[1].char_count);
    assert_eq!(total.sent_count, analyses[0].sent_count + analyses[1].sent_count);
    assert_eq!(total.para_count, 1 + 2);
    assert_eq!(total.word_uniqs, 3);
    for handle in [a, b, c] {
        let parts: usize = analyses.iter().map(|each| counted(each, handle).unwrap_or(0)).sum();
        assert_eq!(counted(&total, handle), Some(parts));
    }
    assert_eq!(
        lines(&store, &total),
        vec![(3, "b".to_string()), (3, "a".to_string()), (2, "c".to_string())]
    );
    assert_eq!(
        total.word_dist,
        Distribution {
            entries: 3,
            total: 8,
            square_total: 22,
            median_first: 3,
            median_second: 3,
            mode_total: 3,
            mode_ties: 1,
        }
    );
}

#[test]
fn aggregate_of_one_record_repeats_it_without_its_file() {
    let mut store = UniqueStringStore::new();
    let only = process(&mut store, "x y x", Some(PathBuf::from("only.txt")), false);
    let analyses = vec![only];
    let total = try_aggregate(&analyses).unwrap();
    assert!(total.file.is_none());
    assert_eq!(total.word_count, 3);
    assert_eq!(lines(&store, &total), lines(&store, &analyses[0]));
    assert_eq!(total.word_dist, analyses[0].word_dist);
}

#[test]
fn aggregate_of_nothing_is_absent() {
    assert!(aggregate(&Vec::new()).is_none());
    assert!(try_aggregate(&Vec::new()).is_none());
}

#[test]
fn try_aggregate_gives_none_when_a_sum_does_not_fit() {
    let mut store = UniqueStringStore::new();
    let mut first = process(&mut store, "a", None, false);
    let second = process(&mut store, "b", None, false);
    first.char_count = usize::MAX;
    assert!(try_aggregate(&vec![first, second]).is_none());
}

#[test]
fn aggregate_of_empty_records_is_empty() {
    let mut store = UniqueStringStore::new();
    let analyses = vec![process(&mut store, "", None, false), process(&mut store, "...", None, false)];
    let total = aggregate(&analyses).unwrap();
    assert_eq!(total.word_count, 0);
    assert!(total.word_freq.is_empty());
    assert_eq!(total.word_dist, Distribution::default());
    assert_eq!(total.para_count, 2);
}

#[test]
fn merge_counts_adds_to_what_the_map_holds() {
    let mut store = UniqueStringStore::new();
    let analysis = process(&mut store, "a a b", None, false);
    let a = UniqueString::new(&mut store, "a");
    let b = UniqueString::new(&mut store, "b");
    let mut map = DashMap::new();
    map.insert(a.entry(), 10);
    map.insert((0, 99), 1);
    merge_counts(&mut map, &analysis);
    assert_eq!(*map.get(&a.entry()).unwrap(), 12);
    assert_eq!(*map.get(&b.entry()).unwrap(), 1);
    assert_eq!(*map.get(&(0, 99)).unwrap(), 1);
    assert_eq!(map.len(), 3);
}

#[test]
fn split_outcomes_keeps_the_order() {
    let mut store = UniqueStringStore::new();
    let outcomes: Vec<Result<Analysis, &str>> = vec![
        Ok(process(&mut store, "one", None, false)),
        Err("first"),
        Ok(process(&mut store, "two two", None, false)),
        Err("second"),
    ];
    let (analyses, failures) = split_outcomes(outcomes);
    assert_eq!(failures, vec!["first", "second"]);
    assert_eq!(analyses.len(), 2);
    assert_eq!(analyses[0].word_count, 1);
    assert_eq!(analyses[1].word_count, 2);
}

#[test]
fn update_dists_recomputes_from_the_table() {
    let mut store = UniqueStringStore::new();
    let mut analysis = process(&mut store, "a a a b b c", None, false);
    analysis.word_dist = Distribution::default();
    update_dists(&mut analysis);
    assert_eq!(analysis.word_dist.total, 6);
    assert_eq!(analysis.word_dist.entries, 3);
    assert_eq!(analysis.word_dist.square_total, 14);
    assert_eq!(analysis.word_dist.median_first, 2);
    assert_eq!(analysis.word_dist.mode_total, 6);
    assert_eq!(analysis.word_dist.mode_ties, 3);
}

#[test]
fn clone_copies_the_record_and_its_map() {
    let mut store = UniqueStringStore::new();
    let analysis = process(&mut store, "a a b", Some(PathBuf::from("f")), false);
    let copy = analysis.clone();
    let a = UniqueString::new(&mut store, "a");
    assert_eq!(copy.file, analysis.file);
    assert_eq!(copy.word_count, 3);
    assert_eq!(copy.word_freq, analysis.word_freq);
    assert_eq!(copy.word_dist, analysis.word_dist);
    assert_eq!(counted(&copy, a), Some(2));
    copy.word_freq_map.insert(a.entry(), 50);
    assert_eq!(counted(&analysis, a), Some(2));
}

#[test]
fn frequency_table_lists_the_map_most_frequent_first() {
    let map = DashMap::new();
    map.insert((5, 0), 1);
    map.insert((1, 3), 7);
    map.insert((1, 2), 7);
    map.insert((0, 9), 2);
    map.insert((9, 9), 7);
    let table: Vec<(usize, (usize, usize))> =
        frequency_table(&map).iter().map(|line| (line.0, line.1.entry())).collect();
    assert_eq!(table, vec![(7, (1, 2)), (7, (1, 3)), (7, (9, 9)), (2, (0, 9)), (1, (5, 0))]);
}

#[test]
fn add_count_inserts_or_adds() {
    let mut map = DashMap::new();
    add_count(&mut map, (1, 1), 1);
    add_count(&mut map, (1, 1), 1);
    add_count(&mut map, (2, 0), 5);
    add_count(&mut map, (1, 1), 40);
    assert_eq!(*map.get(&(1, 1)).unwrap(), 42);
    assert_eq!(*map.get(&(2, 0)).unwrap(), 5);
    assert_eq!(map.len(), 2);
}

fn entry(count: usize, shard: usize, slot: usize) -> FrequencyEntry {
    (count, UniqueString::from_entry((shard, slot)))
}

#[test]
fn higher_counts_stand_first_and_ties_go_by_handle() {
    assert!(stands_before(&entry(9, 3, 4), &entry(2, 0, 0)));
    assert!(!stands_before(&entry(2, 0, 0), &entry(9, 3, 4)));
    assert!(stands_before(&entry(5, 1, 9), &entry(5, 2, 0)));
    assert!(stands_before(&entry(5, 1, 3), &entry(5, 1, 4)));
    assert!(!stands_before(&entry(5, 1, 4), &entry(5, 1, 3)));
    assert!(stands_before(&entry(5, 1, 4), &entry(5, 1, 4)));
}

#[test]
fn sorted_range_sorts_the_lines_it_is_given() {
    let table = vec![
        entry(1, 0, 0),
        entry(4, 2, 2),
        entry(9, 1, 1),
        entry(4, 2, 1),
        entry(7, 0, 5),
        entry(4, 0, 8),
        entry(2, 3, 3),
    ];
    assert_eq!(
        sorted_range(&table, 0, table.len()),
        vec![
            entry(9, 1, 1),
            entry(7, 0, 5),
            entry(4, 0, 8),
            entry(4, 2, 1),
            entry(4, 2, 2),
            entry(2, 3, 3),
            entry(1, 0, 0),
        ]
    );
    assert_eq!(sorted_range(&table, 1, 4), vec![entry(9, 1, 1), entry(4, 2, 1), entry(4, 2, 2)]);
    assert_eq!(sorted_range(&table, 3, 3), Vec::new());
    assert_eq!(sorted_range(&table, 6, 7), vec![entry(2, 3, 3)]);
}

#[test]
fn merge_tables_keeps_every_line() {
    let left = vec![entry(8, 0, 0), entry(3, 0, 1), entry(3, 5, 0)];
    let right = vec![entry(9, 9, 9), entry(3, 2, 2), entry(1, 1, 1)];
    assert_eq!(
        merge_tables(&left, &right),
        vec![
            entry(9, 9, 9),
            entry(8, 0, 0),
            entry(3, 0, 1),
            entry(3, 2, 2),
            entry(3, 5, 0),
            entry(1, 1, 1),
        ]
    );
    assert_eq!(merge_tables(&left, &Vec::new()), left);
    assert_eq!(merge_tables(&Vec::new(), &right), right);
}

#[test]
fn large_table_is_sorted() {
    let mut table = Vec::new();
    for i in 0..5000usize {
        table.push(entry((i * 7919) % 101, i % 64, i));
    }
    let sorted = sorted_range(&table, 0, table.len());
    assert_eq!(sorted.len(), 5000);
    for pair in sorted.windows(2) {
        assert!(stands_before(&pair[0], &pair[1]));
        assert!(pair[0].0 >= pair[1].0);
    }
}

#[test]
fn sources_are_text_or_paths() {
    let content = AnalyzeSource::Content("text".to_string());
    let path = AnalyzeSource::Path(PathBuf::from("a/b"));
    assert!(matches!(content.clone(), AnalyzeSource::Content(text) if text == "text"));
    assert!(matches!(path.clone(), AnalyzeSource::Path(file) if file == PathBuf::from("a/b")));
}

#[test]
fn args_default_to_all_off() {
    let args = Args::default();
    assert!(!args.lowercase && !args.recursive && !args.follow_symlinks);
    assert_eq!(args.top_words, 0);
    assert_eq!(args.outfile, None);
}

#[test]
fn default_record_is_empty() {
    let empty = Analysis::default();
    assert!(empty.file.is_none());
    assert_eq!(empty.word_count, 0);
    assert_eq!(empty.para_count, 0);
    assert!(empty.word_freq.is_empty());
    assert!(empty.word_freq_map.is_empty());
    assert_eq!(empty.word_dist, Distribution::default());
}

#[test]
fn tally_counts_every_word_repeated_or_not() {
    let mut store = UniqueStringStore::new();
    let words = vec!["x", "y", "x", "x", "Y"];
    let (map, counted) = tally_words(&mut store, &words, false);
    assert_eq!(counted, 5);
    assert_eq!(map.len(), 3);
    let x = UniqueString::new(&mut store, "x");
    assert_eq!(*map.get(&x.entry()).unwrap(), 3);
    let (folded, counted) = tally_words(&mut store, &words, true);
    assert_eq!(counted, 5);
    assert_eq!(folded.len(), 2);
}
