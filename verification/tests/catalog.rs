use sorthos::models::{SortBar, Tag};
use sorthos::sorting::SortingAlgorithm;
use sorthos::theme::Theme;
use std::sync::mpsc;

/// Helper function to create a vector of SortBars from values
fn create_bars(values: Vec<usize>) -> Vec<SortBar> {
    values.into_iter().map(SortBar::new).collect()
}

/// Helper function to extract values from SortBars
fn extract_values(bars: &[SortBar]) -> Vec<usize> {
    bars.iter().map(|b| b.value).collect()
}

/// Check if a slice is sorted in non-decreasing order
fn is_sorted(values: &[usize]) -> bool {
    values.windows(2).all(|w| w[0] <= w[1])
}

/// Count duplicates in a slice
fn count_duplicates(values: &[usize]) -> usize {
    let mut seen = std::collections::HashMap::new();
    let mut duplicate_count = 0;
    for &value in values {
        let count = seen.entry(value).or_insert(0);
        *count += 1;
        if *count == 2 {
            duplicate_count += 1;
        } else if *count > 2 {
            duplicate_count += 1;
        }
    }
    duplicate_count
}

#[test]
fn test_duplicate_removal() {
    let values_with_dups = vec![5, 2, 8, 2, 1, 5, 9, 1, 3];
    let original_count = count_duplicates(&values_with_dups);
    assert!(original_count > 0, "Test data should have duplicates");

    let mut seen = std::collections::HashMap::new();
    let mut unique_values = Vec::new();
    for &value in &values_with_dups {
        if !seen.contains_key(&value) {
            seen.insert(value, true);
            unique_values.push(value);
        }
    }

    assert_eq!(
        count_duplicates(&unique_values),
        0,
        "Should have no duplicates after removal"
    );
    assert!(
        unique_values.len() < values_with_dups.len(),
        "Should have fewer elements after removing duplicates"
    );
}

#[test]
fn test_no_duplicates_removal() {
    let values_no_dups = vec![1, 2, 3, 4, 5];
    assert_eq!(
        count_duplicates(&values_no_dups),
        0,
        "Test data should have no duplicates"
    );

    let mut seen = std::collections::HashMap::new();
    let mut unique_values = Vec::new();
    for &value in &values_no_dups {
        if !seen.contains_key(&value) {
            seen.insert(value, true);
            unique_values.push(value);
        }
    }

    assert_eq!(
        unique_values.len(),
        values_no_dups.len(),
        "Length should remain the same"
    );
    assert_eq!(
        count_duplicates(&unique_values),
        0,
        "Should still have no duplicates"
    );
}

#[test]
fn test_sorting_algorithms_basic() {
    let test_cases = vec![
        vec![5, 2, 8, 1, 9],
        vec![1, 2, 3, 4, 5],
        vec![5, 4, 3, 2, 1],
        vec![3, 3, 3, 3],
        vec![42],
        vec![],
    ];

    for test_values in test_cases {
        let original_len = test_values.len();

        if test_values.len() > 1 {
            let mut values = test_values.clone();
            for i in 0..values.len() {
                for j in 0..values.len() - i - 1 {
                    if values[j] > values[j + 1] {
                        values.swap(j, j + 1);
                    }
                }
            }
            assert!(
                is_sorted(&values),
                "Bubble sort should produce sorted array"
            );
            assert_eq!(
                values.len(),
                original_len,
                "Array length should be preserved"
            );
        }
    }
}

#[test]
fn test_sorting_edge_cases() {
    let empty_bars: Vec<SortBar> = vec![];
    assert!(is_sorted(&extract_values(&empty_bars)));

    let single_bars = create_bars(vec![42]);
    assert!(is_sorted(&extract_values(&single_bars)));

    let two_bars = create_bars(vec![2, 1]);
    let values = extract_values(&two_bars);
    let mut sorted_values = values;
    sorted_values.sort();
    assert!(is_sorted(&sorted_values));

    let same_bars = create_bars(vec![5, 5, 5, 5, 5]);
    let values = extract_values(&same_bars);
    assert!(is_sorted(&values));
}

#[test]
fn test_duplicate_generation() {
    let num_bars = 12;
    let unique_values = num_bars / 3;

    let mut values = Vec::new();
    for i in 0..num_bars {
        let value = i % unique_values;
        values.push(value);
    }

    assert!(
        count_duplicates(&values) > 0,
        "Generated array should have duplicates"
    );

    let expected_duplicates = num_bars - unique_values;
    assert!(
        count_duplicates(&values) >= expected_duplicates / 2,
        "Should have significant duplicates"
    );
}

#[test]
fn test_large_value_handling() {
    let large_values = vec![100001, 50000, 200000];
    let max_val = *large_values.iter().max().unwrap();

    const MAX_SAFE_SIZE: usize = 10000;
    if max_val > MAX_SAFE_SIZE {
        assert!(
            max_val > MAX_SAFE_SIZE,
            "Large values should exceed safe threshold"
        );
    }
}

#[test]
fn test_algorithm_enum() {
    let algorithms = SortingAlgorithm::all();
    assert!(
        !algorithms.is_empty(),
        "Should have sorting algorithms available"
    );

    for &algorithm in algorithms.iter() {
        let name = algorithm.display_name();
        assert!(!name.is_empty(), "Algorithm should have a display name");
    }
}

#[test]
fn test_sort_bar() {
    let bar = SortBar::new(42);
    assert_eq!(bar.value, 42, "SortBar should store the correct value");
    assert_eq!(
        bar.color,
        Tag::white(),
        "SortBar should start with white color"
    );

    let bars = create_bars(vec![1, 2, 3]);
    assert_eq!(bars.len(), 3, "Should create correct number of bars");
    assert_eq!(
        extract_values(&bars),
        vec![1, 2, 3],
        "Should preserve values"
    );
}

#[test]
fn test_bounds_checking() {
    let values = vec![3, 1, 4, 1, 5];
    let len = values.len();

    if len > 1 {
        let low = 0;
        let high = len - 1;

        assert!(low < len, "Low bound should be valid");
        assert!(high < len, "High bound should be valid");
        assert!(low <= high, "Low should be <= high");
    }

    let single = vec![42];
    if single.len() <= 1 {
        assert!(
            single.len() <= 1,
            "Single element arrays don't need sorting"
        );
    }
}

#[test]
fn test_sorting_integration() {
    let (_tx, _rx) = mpsc::channel::<String>();
    let test_values = vec![5, 2, 8, 1, 9, 3];
    let mut bars = create_bars(test_values);

    bars.sort_by(|a, b| a.value.cmp(&b.value));
    let sorted_values = extract_values(&bars);

    assert!(is_sorted(&sorted_values), "Bars should be sorted");
    assert_eq!(
        sorted_values,
        vec![1, 2, 3, 5, 8, 9],
        "Should be in correct order"
    );
}

#[test]
fn test_status_messages() {
    let no_dups = vec![1, 2, 3, 4, 5];
    let with_dups = vec![1, 2, 2, 3, 3, 3];

    assert_eq!(count_duplicates(&no_dups), 0);
    assert!(count_duplicates(&with_dups) > 0);

    let duplicate_count = count_duplicates(&with_dups);
    let status_msg = if duplicate_count > 0 {
        format!("⚠ {} duplicates detected", duplicate_count)
    } else {
        "✓ No duplicates".to_string()
    };

    assert!(status_msg.contains("duplicates detected"));
}

#[test]
fn test_algorithm_performance_characteristics() {
    let small_array = (0..10).collect::<Vec<_>>();
    assert!(small_array.len() == 10);

    let medium_array = (0..100).collect::<Vec<_>>();
    assert!(medium_array.len() == 100);

    let max_reasonable_size = 1000;
    assert!(
        medium_array.len() < max_reasonable_size,
        "Should use reasonable array sizes"
    );
}

#[test]
fn test_color_consistency() {
    let mut bars = create_bars(vec![1, 2, 3]);

    for bar in &mut bars {
        bar.color = Tag::red();
    }

    assert!(
        bars.iter().all(|b| b.color == Tag::red()),
        "All bars should be red"
    );

    for bar in &mut bars {
        bar.color = Tag::white();
    }

    assert!(
        bars.iter().all(|b| b.color == Tag::white()),
        "All bars should be white"
    );
}

#[test]
fn test_theme_default_tag() {
    assert_eq!(Theme::default(), Theme::Dark);
    assert_eq!(Theme::Dark.default_tag(), Tag::white());
    assert_eq!(Theme::Light.default_tag(), Tag::from_rgb(0, 0, 0));
}
