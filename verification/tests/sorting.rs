use rustroperiods::error::InvalidInput;
use rustroperiods::sorting::{argsort, find_peaks};

fn patterns(values: &[f64]) -> Vec<u64> {
    values.iter().map(|x| x.to_bits()).collect()
}

/// A fixed stream of numbers in `[0, 1)`.
struct Stream(u64);

impl Stream {
    fn next(&mut self) -> f64 {
        self.0 = self.0.wrapping_mul(6364136223846793005).wrapping_add(1442695040888963407);
        (self.0 >> 11) as f64 / 9007199254740992.0
    }
}

/// The indices of `values` as a stable sort by the total order leaves them.
fn stable_order(values: &[f64]) -> Vec<usize> {
    let mut indices: Vec<usize> = (0..values.len()).collect();
    indices.sort_by(|&i, &j| values[i].total_cmp(&values[j]));
    indices
}

fn local_maxima(values: &[f64]) -> Vec<usize> {
    let mut found = Vec::new();
    for i in 1..values.len().saturating_sub(1) {
        if values[i] >= values[i - 1] && values[i] >= values[i + 1] {
            found.push(i);
        }
    }
    found
}

#[test]
fn argsort_of_three_values() {
    assert_eq!(argsort(&patterns(&[2.0, 1.0, 3.0])), vec![1, 0, 2]);
}

#[test]
fn argsort_of_nothing_and_of_one_value() {
    assert_eq!(argsort(&[]), Vec::<usize>::new());
    assert_eq!(argsort(&patterns(&[7.5])), vec![0]);
}

#[test]
fn argsort_of_sorted_and_of_reversed_values() {
    assert_eq!(argsort(&patterns(&[1.0, 2.0, 3.0, 4.0])), vec![0, 1, 2, 3]);
    assert_eq!(argsort(&patterns(&[4.0, 3.0, 2.0, 1.0, 0.0])), vec![4, 3, 2, 1, 0]);
}

#[test]
fn argsort_gives_a_permutation_that_sorts() {
    let mut stream = Stream(7);
    for n in [2usize, 3, 5, 8, 13, 64, 100, 1000] {
        let values: Vec<f64> = (0..n).map(|_| stream.next() * 200.0 - 100.0).collect();
        let order = argsort(&patterns(&values));
        let mut seen = order.clone();
        seen.sort();
        assert_eq!(seen, (0..n).collect::<Vec<usize>>());
        for pair in order.windows(2) {
            assert!(values[pair[0]] <= values[pair[1]]);
        }
    }
}

#[test]
fn argsort_keeps_equal_values_in_index_order() {
    assert_eq!(argsort(&patterns(&[1.0, 0.0, 1.0, 0.0, 1.0])), vec![1, 3, 0, 2, 4]);
    let mut stream = Stream(11);
    let values: Vec<f64> = (0..500).map(|_| (stream.next() * 10.0).floor()).collect();
    assert_eq!(argsort(&patterns(&values)), stable_order(&values));
}

#[test]
fn argsort_orders_zeros_infinities_and_nans() {
    let negative_nan = f64::from_bits(0xfff8_0000_0000_0000);
    let values = [f64::NAN, 1.0, f64::NEG_INFINITY, 0.0, f64::INFINITY, negative_nan, -0.0, -1.0];
    assert_eq!(argsort(&patterns(&values)), vec![5, 2, 7, 6, 3, 1, 4, 0]);
}

#[test]
fn argsort_agrees_with_a_stable_sort_by_the_total_order() {
    let mut stream = Stream(2024);
    let specials = [f64::NAN, -f64::NAN, f64::INFINITY, f64::NEG_INFINITY, 0.0, -0.0, 5e-324];
    let mut values: Vec<f64> = Vec::new();
    for i in 0..2000 {
        if i % 17 == 0 {
            values.push(specials[(i / 17) % specials.len()]);
        } else {
            values.push((stream.next() - 0.5) * 1e6);
        }
    }
    assert_eq!(argsort(&patterns(&values)), stable_order(&values));
}

#[test]
fn find_peaks_of_one_summit() {
    assert_eq!(find_peaks(&patterns(&[0.0, 1.0, 2.0, 1.0, 0.0]), 1), Ok(vec![2]));
}

/// The local maxima are put in ascending order of their values and the first
/// are returned, so these are the lowest local maxima and not the highest.
#[test]
fn find_peaks_returns_the_lowest_local_maxima_first() {
    let data = patterns(&[0.0, 5.0, 0.0, 3.0, 0.0, 9.0, 0.0, 7.0, 0.0]);
    assert_eq!(find_peaks(&data, 1), Ok(vec![3]));
    assert_eq!(find_peaks(&data, 2), Ok(vec![3, 1]));
    assert_eq!(find_peaks(&data, 3), Ok(vec![3, 1, 7]));
    assert_eq!(find_peaks(&data, 4), Ok(vec![3, 1, 7, 5]));
}

#[test]
fn find_peaks_refuses_zero_peaks() {
    assert_eq!(find_peaks(&patterns(&[0.0, 1.0, 2.0, 1.0, 0.0]), 0), Err(InvalidInput));
}

#[test]
fn find_peaks_refuses_more_peaks_than_there_are() {
    assert_eq!(find_peaks(&patterns(&[0.0, 1.0, 2.0, 1.0, 0.0]), 2), Err(InvalidInput));
    let data = patterns(&[0.0, 5.0, 0.0, 3.0, 0.0, 9.0, 0.0, 7.0, 0.0]);
    assert_eq!(find_peaks(&data, 5), Err(InvalidInput));
}

#[test]
fn find_peaks_finds_none_in_short_data() {
    assert_eq!(find_peaks(&[], 1), Err(InvalidInput));
    assert_eq!(find_peaks(&patterns(&[1.0]), 1), Err(InvalidInput));
    assert_eq!(find_peaks(&patterns(&[1.0, 2.0]), 1), Err(InvalidInput));
}

#[test]
fn find_peaks_leaves_the_ends_out() {
    assert_eq!(find_peaks(&patterns(&[5.0, 1.0, 5.0]), 1), Err(InvalidInput));
    assert_eq!(find_peaks(&patterns(&[9.0, 1.0, 2.0, 1.0, 9.0]), 1), Ok(vec![2]));
}

#[test]
fn find_peaks_counts_each_point_of_a_plateau() {
    assert_eq!(find_peaks(&patterns(&[0.0, 1.0, 1.0, 0.0]), 2), Ok(vec![1, 2]));
    assert_eq!(find_peaks(&patterns(&[2.0, 2.0, 2.0, 2.0, 2.0]), 3), Ok(vec![1, 2, 3]));
}

#[test]
fn find_peaks_finds_no_maximum_at_or_beside_a_nan() {
    let data = patterns(&[0.0, 1.0, f64::NAN, 1.0, 0.0]);
    assert_eq!(find_peaks(&data, 1), Err(InvalidInput));
    let data = patterns(&[0.0, 2.0, 0.0, f64::NAN, 0.0, 1.0, 0.0]);
    assert_eq!(find_peaks(&data, 2), Ok(vec![5, 1]));
}

#[test]
fn find_peaks_takes_the_first_of_the_sorted_local_maxima() {
    let mut stream = Stream(99);
    let values: Vec<f64> = (0..400).map(|_| (stream.next() * 50.0).floor()).collect();
    let maxima = local_maxima(&values);
    let mut sorted = maxima.clone();
    sorted.sort_by(|&i, &j| values[i].total_cmp(&values[j]));
    for npeaks in [1, 2, 10, maxima.len()] {
        assert_eq!(find_peaks(&patterns(&values), npeaks), Ok(sorted[..npeaks].to_vec()));
    }
    assert_eq!(find_peaks(&patterns(&values), maxima.len() + 1), Err(InvalidInput));
}
