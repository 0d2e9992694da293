use wordstat::freq::FrequencyEntry;
use wordstat::stats::{distribution_of, Distribution};
use wordstat::ustring::UniqueString;

fn table_of(counts: &[usize]) -> Vec<FrequencyEntry> {
    counts
        .iter()
        .enumerate()
        .map(|(slot, count)| (*count, UniqueString::from_entry((0, slot))))
        .collect()
}

#[test]
fn distribution_of_an_empty_table_is_zero() {
    let distribution = distribution_of(&table_of(&[]));
    assert_eq!(distribution, Distribution::default());
    assert_eq!(distribution.entries, 0);
    assert_eq!(distribution.total, 0);
    assert_eq!(distribution.square_total, 0);
    assert_eq!(distribution.median_first, 0);
    assert_eq!(distribution.median_second, 0);
    assert_eq!(distribution.mode_total, 0);
    assert_eq!(distribution.mode_ties, 0);
}

#[test]
fn distribution_of_a_single_count() {
    let distribution = distribution_of(&table_of(&[7]));
    assert_eq!(
        distribution,
        Distribution {
            entries: 1,
            total: 7,
            square_total: 49,
            median_first: 7,
            median_second: 7,
            mode_total: 7,
            mode_ties: 1,
        }
    );
}

#[test]
fn distribution_with_one_most_common_count() {
    let distribution = distribution_of(&table_of(&[2, 1, 1, 1, 1]));
    assert_eq!(
        distribution,
        Distribution {
            entries: 5,
            total: 6,
            square_total: 8,
            median_first: 1,
            median_second: 1,
            mode_total: 1,
            mode_ties: 1,
        }
    );
}

#[test]
fn mode_averages_the_counts_that_tie() {
    let distribution = distribution_of(&table_of(&[5, 3, 3, 2, 2, 1]));
    assert_eq!(distribution.mode_total, 5);
    assert_eq!(distribution.mode_ties, 2);
    assert_eq!(distribution.total, 16);
    assert_eq!(distribution.square_total, 52);
}

#[test]
fn mode_of_counts_that_all_differ_takes_them_all() {
    let distribution = distribution_of(&table_of(&[9, 4, 2]));
    assert_eq!(distribution.mode_total, 15);
    assert_eq!(distribution.mode_ties, 3);
}

#[test]
fn mode_is_about_counts_not_about_the_top_word() {
    let distribution = distribution_of(&table_of(&[100, 2, 2, 2, 1, 1]));
    assert_eq!(distribution.mode_total, 2);
    assert_eq!(distribution.mode_ties, 1);
}

#[test]
fn median_of_an_even_number_of_counts_has_two_central_counts() {
    let distribution = distribution_of(&table_of(&[8, 6, 4, 2]));
    assert_eq!(distribution.median_first, 6);
    assert_eq!(distribution.median_second, 4);
    let pair = distribution_of(&table_of(&[3, 1]));
    assert_eq!((pair.median_first, pair.median_second), (3, 1));
}

#[test]
fn median_of_an_odd_number_of_counts_is_the_central_count() {
    let distribution = distribution_of(&table_of(&[9, 5, 1]));
    assert_eq!(distribution.median_first, 5);
    assert_eq!(distribution.median_second, 5);
}

#[test]
fn square_total_holds_large_counts() {
    let big = u32::MAX as usize * 4;
    let distribution = distribution_of(&table_of(&[big, big]));
    assert_eq!(distribution.total, 2 * big);
    assert_eq!(distribution.square_total, 2 * (big as u128) * (big as u128));
}
