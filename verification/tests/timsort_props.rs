use sorthos::events::Operation;
use sorthos::models::SortBar;
use sorthos::timsort::{compute_min_run, stable_merge, tim_sort};

fn bars_of(values: Vec<usize>) -> Vec<SortBar> {
    values.into_iter().map(SortBar::new).collect()
}

fn values_of(bars: &[SortBar]) -> Vec<usize> {
    bars.iter().map(|b| b.value).collect()
}

fn sorted_nondecreasing(values: &[usize]) -> bool {
    values.windows(2).all(|w| w[0] <= w[1])
}

#[test]
fn test_timsort_functionality() {
    let test_cases = vec![
        vec![5, 2, 8, 1, 9, 3, 7, 4, 6],
        vec![9, 8, 7, 6, 5, 4, 3, 2, 1],
        vec![1, 2, 3, 4, 5, 6, 7, 8, 9],
        vec![5, 5, 5, 5, 5],
        vec![3, 1, 4, 1, 5, 9, 2, 6, 5],
        vec![42],
        vec![2, 1],
        (0..50).rev().collect::<Vec<_>>(),
        (0..50).collect::<Vec<_>>(),
    ];

    for test_values in test_cases {
        let original_values = test_values.clone();
        let mut bars = bars_of(test_values);
        let mut ops: Vec<Operation> = Vec::new();

        tim_sort(&mut bars, &mut ops);

        let sorted_values = values_of(&bars);

        assert!(
            sorted_nondecreasing(&sorted_values),
            "TimSort failed to sort array: {:?} -> {:?}",
            original_values,
            sorted_values
        );

        let mut original_sorted = original_values.clone();
        original_sorted.sort();
        let mut result_sorted = sorted_values.clone();
        result_sorted.sort();
        assert_eq!(
            original_sorted, result_sorted,
            "TimSort lost or added elements: original {:?} -> result {:?}",
            original_values, sorted_values
        );
    }
}

#[test]
fn test_timsort_edge_cases() {
    let mut empty_bars: Vec<SortBar> = vec![];
    let mut ops: Vec<Operation> = Vec::new();
    tim_sort(&mut empty_bars, &mut ops);
    assert!(empty_bars.is_empty(), "Empty array should remain empty");

    let mut single_bars = bars_of(vec![42]);
    tim_sort(&mut single_bars, &mut ops);
    assert_eq!(
        values_of(&single_bars),
        vec![42],
        "Single element should be unchanged"
    );

    let test_32: Vec<usize> = (0..32).rev().collect();
    let mut bars_32 = bars_of(test_32.clone());
    tim_sort(&mut bars_32, &mut ops);
    let sorted_32 = values_of(&bars_32);
    assert!(
        sorted_nondecreasing(&sorted_32),
        "32-element array should be sorted"
    );

    let test_33: Vec<usize> = (0..33).rev().collect();
    let mut bars_33 = bars_of(test_33.clone());
    tim_sort(&mut bars_33, &mut ops);
    let sorted_33 = values_of(&bars_33);
    assert!(
        sorted_nondecreasing(&sorted_33),
        "33-element array should be sorted"
    );
}

#[test]
fn test_min_run_exact_values() {
    assert_eq!(compute_min_run(0), 0);
    assert_eq!(compute_min_run(1), 1);
    assert_eq!(compute_min_run(31), 31);
    assert_eq!(compute_min_run(32), 32);
    assert_eq!(compute_min_run(63), 63);
    assert_eq!(compute_min_run(64), 32);
    assert_eq!(compute_min_run(65), 33);
    assert_eq!(compute_min_run(130), 33);
}

#[test]
fn test_min_run_range_and_halving() {
    for n in 64..4096usize {
        let r = compute_min_run(n);
        assert!(32 <= r && r <= 64, "min run out of range for {}: {}", n, r);
    }
    // doubling the length keeps the same minimum run once the low bit
    // pattern matches: the halving scheme scales consistently
    assert_eq!(compute_min_run(65), compute_min_run(130));
    assert_eq!(compute_min_run(100), compute_min_run(200));
}

#[test]
fn test_timsort_stability_with_tags() {
    // equal keys carry distinct tags recording their input position;
    // after the sort, equal keys must keep their relative input order
    let keys = vec![3usize, 1, 4, 1, 5, 9, 2, 6, 5, 3, 5];
    let mut bars: Vec<SortBar> = keys
        .iter()
        .enumerate()
        .map(|(i, &k)| {
            let mut b = SortBar::new(k);
            b.color.r = i as u8;
            b
        })
        .collect();
    let mut ops: Vec<Operation> = Vec::new();
    tim_sort(&mut bars, &mut ops);
    assert!(sorted_nondecreasing(&values_of(&bars)));
    for w in bars.windows(2) {
        if w[0].value == w[1].value {
            assert!(
                w[0].color.r < w[1].color.r,
                "equal keys reordered: tag {} before {}",
                w[0].color.r,
                w[1].color.r
            );
        }
    }
}

#[test]
fn test_stable_merge_drains_both_sides() {
    // two adjacent sorted spans, the right one exhausted first
    let mut bars = bars_of(vec![1, 4, 9, 2, 3]);
    let mut ops: Vec<Operation> = Vec::new();
    stable_merge(&mut bars, 0, 3, 5, &mut ops);
    assert_eq!(values_of(&bars), vec![1, 2, 3, 4, 9]);
    // and one where the left side is exhausted first
    let mut bars2 = bars_of(vec![5, 6, 1, 2, 3, 4]);
    stable_merge(&mut bars2, 0, 2, 6, &mut ops);
    assert_eq!(values_of(&bars2), vec![1, 2, 3, 4, 5, 6]);
}

#[test]
fn test_stable_merge_ties_favour_left() {
    let mut left_a = SortBar::new(7);
    left_a.color.r = 1;
    let mut right_a = SortBar::new(7);
    right_a.color.r = 2;
    let mut bars = vec![left_a, right_a];
    let mut ops: Vec<Operation> = Vec::new();
    stable_merge(&mut bars, 0, 1, 2, &mut ops);
    assert_eq!(bars[0].color.r, 1, "the left span must win ties");
    assert_eq!(bars[1].color.r, 2);
}
