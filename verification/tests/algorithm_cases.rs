use sorthos::counting_sort_visual::counting_sort_visual;
use sorthos::events::Operation;
use sorthos::models::SortBar;
use sorthos::radix_sort_visual::radix_sort_visual;
use sorthos::shell_sort_visual::shell_sort_visual;

/// Helper function to create a vector of SortBars from values
fn create_bars(values: Vec<usize>) -> Vec<SortBar> {
    values.into_iter().map(SortBar::new).collect()
}

/// Helper function to extract values from SortBars
fn extract_values(bars: &[SortBar]) -> Vec<usize> {
    bars.iter().map(|b| b.value).collect()
}

/// Check if a slice is sorted in non-decreasing order (usize version)
fn is_sorted_usize(values: &[usize]) -> bool {
    values.windows(2).all(|w| w[0] <= w[1])
}

#[test]
fn test_counting_sort_visual() {
    println!("Testing Counting Sort...");
    let test_cases_usize = vec![
        vec![5, 2, 8, 1, 9, 3, 7, 4, 6],
        vec![9, 8, 7, 6, 5, 4, 3, 2, 1],
        vec![1, 2, 3, 4, 5, 6, 7, 8, 9],
        vec![5, 5, 5, 5, 5],
        vec![3, 1, 4, 1, 5, 9, 2, 6, 5, 3, 5],
        vec![42],
        vec![2, 1],
        vec![],
        (1..=10).rev().collect::<Vec<_>>(),
        (1..=10).collect::<Vec<_>>(),
    ];

    for test_case in test_cases_usize {
        let original = test_case.clone();
        let mut bars = create_bars(test_case);
        let mut ops: Vec<Operation> = Vec::new();

        counting_sort_visual(&mut bars, &mut ops);
        let result = extract_values(&bars);

        assert!(
            is_sorted_usize(&result),
            "Counting Sort failed on input: {:?}, got: {:?}",
            original,
            result
        );

        let mut original_sorted = original.clone();
        original_sorted.sort();
        let mut result_sorted = result.clone();
        result_sorted.sort();
        assert_eq!(
            original_sorted, result_sorted,
            "Counting Sort lost elements on input: {:?}",
            original
        );
    }
}

#[test]
fn test_radix_sort_visual() {
    println!("Testing Radix Sort...");
    let test_cases_usize = vec![
        vec![5, 2, 8, 1, 9, 3, 7, 4, 6],
        vec![9, 8, 7, 6, 5, 4, 3, 2, 1],
        vec![1, 2, 3, 4, 5, 6, 7, 8, 9],
        vec![5, 5, 5, 5, 5],
        vec![3, 1, 4, 1, 5, 9, 2, 6, 5, 3, 5],
        vec![42],
        vec![2, 1],
        vec![],
        (1..=15).rev().collect::<Vec<_>>(),
        (1..=15).collect::<Vec<_>>(),
    ];

    for test_case in test_cases_usize {
        let original = test_case.clone();
        let mut bars = create_bars(test_case);
        let mut ops: Vec<Operation> = Vec::new();

        radix_sort_visual(&mut bars, &mut ops);
        let result = extract_values(&bars);

        assert!(
            is_sorted_usize(&result),
            "Radix Sort failed on input: {:?}, got: {:?}",
            original,
            result
        );

        let mut original_sorted = original.clone();
        original_sorted.sort();
        let mut result_sorted = result.clone();
        result_sorted.sort();
        assert_eq!(
            original_sorted, result_sorted,
            "Radix Sort lost elements on input: {:?}",
            original
        );
    }
}

#[test]
fn test_shell_sort_visual() {
    println!("Testing Shell Sort...");
    let test_cases_usize = vec![
        vec![5, 2, 8, 1, 9, 3, 7, 4, 6],
        vec![9, 8, 7, 6, 5, 4, 3, 2, 1],
        vec![1, 2, 3, 4, 5, 6, 7, 8, 9],
        vec![5, 5, 5, 5, 5],
        vec![3, 1, 4, 1, 5, 9, 2, 6, 5, 3, 5],
        vec![42],
        vec![2, 1],
        vec![],
        (1..=15).rev().collect::<Vec<_>>(),
        (1..=15).collect::<Vec<_>>(),
    ];

    for test_case in test_cases_usize {
        let original = test_case.clone();
        let mut bars = create_bars(test_case);
        let mut ops: Vec<Operation> = Vec::new();

        shell_sort_visual(&mut bars, &mut ops);
        let result = extract_values(&bars);

        assert!(
            is_sorted_usize(&result),
            "Shell Sort failed on input: {:?}, got: {:?}",
            original,
            result
        );

        let mut original_sorted = original.clone();
        original_sorted.sort();
        let mut result_sorted = result.clone();
        result_sorted.sort();
        assert_eq!(
            original_sorted, result_sorted,
            "Shell Sort lost elements on input: {:?}",
            original
        );
    }
}

#[test]
fn test_bogo_sort() {
    println!("Testing Bogo Sort...");
    // Use very small test cases for probabilistic sorts
    let small_test_cases = vec![vec![2, 1], vec![3, 1, 2], vec![42], vec![]];

    for test_case in small_test_cases {
        let original = test_case.clone();
        let mut bars = create_bars(test_case);
        let mut ops: Vec<Operation> = Vec::new();

        let done = sorthos::bogo::bogo_sort(&mut bars, &mut ops, 1000000);
        let result = extract_values(&bars);

        assert!(done, "Bogo Sort ran out of rounds on input: {:?}", original);
        assert!(
            is_sorted_usize(&result),
            "Bogo Sort failed on input: {:?}, got: {:?}",
            original,
            result
        );
    }
}
