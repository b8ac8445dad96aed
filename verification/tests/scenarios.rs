use sorthos::burstsort::burst_sort;
use sorthos::events::{apply_operations, Operation};
use sorthos::models::{SortBar, Tag};
use sorthos::pancakesort::pancake_sort;
use sorthos::quadsort::quad_sort;
use sorthos::quicksort::quick_sort;
use sorthos::sort_utils::{insertion_sort_numeric, insertion_sort_range_numeric};
use sorthos::sorting::{merge_discipline_holds, run_sort, SortingAlgorithm};
use sorthos::spaghettisort::{spaghetti_sort, spaghetti_sort_optimized};

fn mk_bars(values: &[usize]) -> Vec<SortBar> {
    values.iter().map(|&v| SortBar::new(v)).collect()
}

fn keys(bars: &[SortBar]) -> Vec<usize> {
    bars.iter().map(|b| b.value).collect()
}

fn nondecreasing_usize(values: &[usize]) -> bool {
    values.windows(2).all(|w| w[0] <= w[1])
}

fn nondecreasing_i32(values: &[i32]) -> bool {
    values.windows(2).all(|w| w[0] <= w[1])
}

fn same_elements(a: &[i32], b: &[i32]) -> bool {
    let mut x = a.to_vec();
    let mut y = b.to_vec();
    x.sort();
    y.sort();
    x == y
}

#[test]
fn scenario_sorted_output_with_terminal_done() {
    let input = [5usize, 2, 8, 1, 9, 3, 7, 4, 6];
    let (out, ops) = run_sort(SortingAlgorithm::TimSort, mk_bars(&input));
    assert_eq!(keys(&out), vec![1, 2, 3, 4, 5, 6, 7, 8, 9]);
    assert!(matches!(ops.last(), Some(Operation::Done)));
    let done_count = ops
        .iter()
        .filter(|op| matches!(op, Operation::Done))
        .count();
    assert_eq!(done_count, 1, "exactly one terminal Done");
    for k in 1..=9usize {
        assert!(keys(&out).contains(&k), "key {} missing", k);
    }
}

#[test]
fn scenario_empty_input_stream_is_exactly_done() {
    let (out, ops) = run_sort(SortingAlgorithm::TimSort, mk_bars(&[]));
    assert!(out.is_empty());
    assert_eq!(ops.len(), 1);
    assert!(matches!(ops[0], Operation::Done));
}

#[test]
fn scenario_single_element_stream_is_exactly_done() {
    let (out, ops) = run_sort(SortingAlgorithm::BogoSort, mk_bars(&[42]));
    assert_eq!(keys(&out), vec![42]);
    assert_eq!(ops.len(), 1);
    assert!(matches!(ops[0], Operation::Done));
}

#[test]
fn scenario_equal_keys_zero_swaps() {
    let (out, ops) = run_sort(SortingAlgorithm::TimSort, mk_bars(&[5, 5, 5, 5, 5]));
    assert_eq!(keys(&out), vec![5, 5, 5, 5, 5]);
    let swap_count = ops
        .iter()
        .filter(|op| matches!(op, Operation::Swap(_, _)))
        .count();
    assert_eq!(swap_count, 0, "already sorted, stable: no swaps");
}

#[test]
fn scenario_descending_sixty_five() {
    let input: Vec<usize> = (1..=65).rev().collect();
    let (out, _ops) = run_sort(SortingAlgorithm::TimSort, mk_bars(&input));
    let expected: Vec<usize> = (1..=65).collect();
    assert_eq!(keys(&out), expected);
}

#[test]
fn scenario_sawtooth_sixty_five_uses_extension() {
    // short natural runs force the bounded insertion extension; the
    // stream then carries the extension's swaps
    let input: Vec<usize> = (0..65).map(|i| if i % 2 == 0 { i } else { i + 40 }).collect();
    let (out, ops) = run_sort(SortingAlgorithm::TimSort, mk_bars(&input));
    assert!(nondecreasing_usize(&keys(&out)));
    let swap_count = ops
        .iter()
        .filter(|op| matches!(op, Operation::Swap(_, _)))
        .count();
    assert!(swap_count > 0, "run extension must move elements");
}

#[test]
fn scenario_duplicates_stay_in_input_order() {
    let input = [3usize, 1, 4, 1, 5, 9, 2, 6, 5, 3, 5];
    let mut bars: Vec<SortBar> = input
        .iter()
        .enumerate()
        .map(|(i, &k)| {
            let mut b = SortBar::new(k);
            b.color = Tag::from_rgb(i as u8, 0, 0);
            b
        })
        .collect();
    let tagged = bars.clone();
    let (out, _ops) = run_sort(SortingAlgorithm::MergeSort, std::mem::take(&mut bars));
    assert!(nondecreasing_usize(&keys(&out)));
    for w in out.windows(2) {
        if w[0].value == w[1].value {
            assert!(w[0].color.r < w[1].color.r, "equal keys must keep input order");
        }
    }
    assert_eq!(out.len(), tagged.len());
}

#[test]
fn test_run_sort_every_core_algorithm_sorts() {
    let input = [9usize, 3, 7, 3, 1, 8, 0, 4, 4, 6];
    for alg in [
        SortingAlgorithm::Bubble,
        SortingAlgorithm::Selection,
        SortingAlgorithm::Insertion,
        SortingAlgorithm::QuickVisual,
        SortingAlgorithm::MergeSort,
        SortingAlgorithm::CocktailSort,
        SortingAlgorithm::GnomeSort,
        SortingAlgorithm::CountingSort,
        SortingAlgorithm::ShellSort,
        SortingAlgorithm::HeapSort,
        SortingAlgorithm::RadixSort,
        SortingAlgorithm::TimSort,
    ] {
        let (out, ops) = run_sort(alg, mk_bars(&input));
        assert!(
            nondecreasing_usize(&keys(&out)),
            "{} left the store unsorted",
            alg.display_name()
        );
        let mut want = input.to_vec();
        want.sort();
        let mut got = keys(&out);
        got.sort();
        assert_eq!(want, got, "conservation violated by {}", alg.display_name());
        assert!(matches!(ops.last(), Some(Operation::Done)));
    }
}

#[test]
fn test_radix_sort_runs_and_backs_off() {
    let input = [170usize, 45, 75, 90, 802, 24, 2, 66];
    let (out, ops) = run_sort(SortingAlgorithm::RadixSort, mk_bars(&input));
    assert_eq!(keys(&out), vec![2, 24, 45, 66, 75, 90, 170, 802]);
    assert!(matches!(ops.last(), Some(Operation::Done)));
    // a key above the guard leaves the store untouched
    let big = [200000usize, 3, 7];
    let (out2, _) = run_sort(SortingAlgorithm::RadixSort, mk_bars(&big));
    assert_eq!(keys(&out2), big.to_vec());
}

#[test]
fn test_consumer_replay_matches_worker() {
    let input = [4usize, 2, 7, 2, 9, 1];
    for alg in [
        SortingAlgorithm::Bubble,
        SortingAlgorithm::QuickVisual,
        SortingAlgorithm::TimSort,
    ] {
        let (out, ops) = run_sort(alg, mk_bars(&input));
        let mut replica = mk_bars(&input);
        apply_operations(&mut replica, &ops, Tag::gray());
        assert_eq!(
            keys(&replica),
            keys(&out),
            "replaying the stream must reproduce the worker's keys"
        );
    }
}

#[test]
fn test_consumer_maps_reset_tag_to_default() {
    let mut replica = mk_bars(&[3, 1]);
    let ops = vec![
        Operation::Compare(0, 1),
        Operation::Swap(0, 1),
        Operation::SetColor(0, Tag::white()),
        Operation::SetColor(1, Tag::red()),
        Operation::Done,
    ];
    apply_operations(&mut replica, &ops, Tag::gray());
    assert_eq!(keys(&replica), vec![1, 3]);
    assert_eq!(replica[0].color, Tag::gray(), "white is the reset sentinel");
    assert_eq!(replica[1].color, Tag::red());
}

#[test]
fn test_merge_discipline_checker() {
    let good: Vec<(usize, usize)> = vec![(0, 10), (10, 14), (14, 16)];
    assert!(merge_discipline_holds(&good));
    let bad_pair: Vec<(usize, usize)> = vec![(0, 4), (4, 8)];
    assert!(!merge_discipline_holds(&bad_pair));
    let bad_triple: Vec<(usize, usize)> = vec![(0, 5), (5, 8), (8, 11)];
    assert!(!merge_discipline_holds(&bad_triple));
    let empty: Vec<(usize, usize)> = vec![];
    assert!(merge_discipline_holds(&empty));
}

#[test]
fn test_quick_sort_exact() {
    let out = quick_sort(vec![3, -1, 4, 1, -5, 9, 2, 6]);
    assert_eq!(out, vec![-5, -1, 1, 2, 3, 4, 6, 9]);
    assert_eq!(quick_sort(vec![]), Vec::<i32>::new());
    assert_eq!(quick_sort(vec![7]), vec![7]);
}

#[test]
fn test_burst_sort_small_and_wide_ranges() {
    // small array: insertion path
    assert_eq!(burst_sort(vec![3, 1, 2]), vec![1, 2, 3]);
    // narrow range: counting path
    let narrow: Vec<i32> = (0..64).map(|i| 100 - (i % 50)).collect();
    let out = burst_sort(narrow.clone());
    assert!(nondecreasing_i32(&out));
    assert!(same_elements(&narrow, &out));
    // wide range: quicksort path
    let wide = vec![1000000, -1000000, 5, 0, 999999, -7];
    let out2 = burst_sort(wide.clone());
    assert_eq!(out2, vec![-1000000, -7, 0, 5, 999999, 1000000]);
}

#[test]
fn test_quad_sort_exact() {
    let big: Vec<i32> = (0..100).map(|i| (i * 37) % 100 - 50).collect();
    let out = quad_sort(big.clone());
    assert!(nondecreasing_i32(&out));
    assert!(same_elements(&big, &out));
    assert_eq!(quad_sort(vec![2, 1]), vec![1, 2]);
}

#[test]
fn test_spaghetti_sort_exact() {
    let input = vec![5, -3, 2, -3, 0, 7];
    assert_eq!(spaghetti_sort(input.clone()), vec![-3, -3, 0, 2, 5, 7]);
    assert_eq!(spaghetti_sort_optimized(input), vec![-3, -3, 0, 2, 5, 7]);
    assert_eq!(spaghetti_sort(vec![]), Vec::<i32>::new());
    assert_eq!(spaghetti_sort_optimized(vec![0, 0]), vec![0, 0]);
}

#[test]
fn test_insertion_sort_numeric_and_range() {
    let mut whole = vec![4, 2, 9, 1];
    insertion_sort_numeric(&mut whole);
    assert_eq!(whole, vec![1, 2, 4, 9]);

    let mut partial = vec![9, 5, 3, 1, 0];
    insertion_sort_range_numeric(&mut partial, 1, 4);
    assert_eq!(partial, vec![9, 1, 3, 5, 0], "only the range is sorted");
}

#[test]
fn test_pancake_sort_flips_sort_the_array() {
    let input = vec![3, 1, 4, 2, 5];
    let flips = pancake_sort(input.clone());
    for &f in &flips {
        assert!(1 <= f && f as usize <= input.len());
    }
    let mut work = input.clone();
    for &f in &flips {
        work[0..f as usize].reverse();
    }
    assert_eq!(work, vec![1, 2, 3, 4, 5]);
    // an already ordered permutation needs no flips
    assert_eq!(pancake_sort(vec![1, 2, 3]), Vec::<i32>::new());
}

#[test]
fn test_counting_sort_backs_off_above_guard() {
    // a key above the tally guard makes the counting strategy leave the
    // store untouched (after a repaint), exactly as the guard demands
    let big = [100001usize, 50000, 200000];
    let (out, ops) = run_sort(SortingAlgorithm::CountingSort, mk_bars(&big));
    assert_eq!(keys(&out), big.to_vec());
    assert!(matches!(ops.last(), Some(Operation::Done)));
}

#[test]
fn test_bogo_sort_small_input() {
    // three keys leave six arrangements, so the round budget all but
    // guarantees the shuffle lands on the sorted one
    let (out, ops) = run_sort(SortingAlgorithm::BogoSort, mk_bars(&[2, 1, 3]));
    assert_eq!(keys(&out), vec![1, 2, 3]);
    assert!(matches!(ops.last(), Some(Operation::Done)));
    let mut want = vec![1, 2, 3];
    want.sort();
    let mut got = keys(&out);
    got.sort();
    assert_eq!(want, got);
}

#[test]
fn test_introsort_exact() {
    let big: Vec<i32> = (0..200).map(|i| ((i * 73) % 199) - 60).collect();
    let out = sorthos::introsort::introsort(big.clone());
    assert!(nondecreasing_i32(&out));
    assert!(same_elements(&big, &out));
    assert_eq!(sorthos::introsort::introsort(vec![2, -7, 2]), vec![-7, 2, 2]);
    assert_eq!(sorthos::introsort::introsort(vec![]), Vec::<i32>::new());
}

#[test]
fn test_max_speed_sort_stream() {
    let mut bars = mk_bars(&[7, 1, 5, 1]);
    let mut ops: Vec<Operation> = Vec::new();
    sorthos::speed::max_speed_sort(&mut bars, &mut ops);
    assert_eq!(keys(&bars), vec![1, 1, 5, 7]);
    assert!(matches!(ops.last(), Some(Operation::Done)));
    let mut replica = mk_bars(&[7, 1, 5, 1]);
    apply_operations(&mut replica, &ops, Tag::gray());
    assert_eq!(keys(&replica), vec![1, 1, 5, 7]);
}

#[test]
fn test_bounded_insertion_extends_a_range() {
    let mut bars = mk_bars(&[9, 8, 7, 3, 2, 1]);
    let mut ops: Vec<Operation> = Vec::new();
    sorthos::sort_utils::insertion_sort_range_visual(&mut bars, 1, 5, &mut ops);
    assert_eq!(keys(&bars), vec![9, 2, 3, 7, 8, 1], "only the range is sorted");
    assert!(ops.iter().any(|op| matches!(op, Operation::Swap(_, _))));
}

#[test]
fn test_sorting_already_sorted_is_identity() {
    // the stable strategies return an already-sorted store unchanged,
    // element for element
    let input = [1usize, 2, 2, 3, 9];
    for alg in [
        SortingAlgorithm::Bubble,
        SortingAlgorithm::Insertion,
        SortingAlgorithm::MergeSort,
        SortingAlgorithm::TimSort,
    ] {
        let mut bars: Vec<SortBar> = input
            .iter()
            .enumerate()
            .map(|(i, &k)| {
                let mut b = SortBar::new(k);
                b.color = Tag::from_rgb(i as u8, 1, 1);
                b
            })
            .collect();
        let tagged = bars.clone();
        let (out, _ops) = run_sort(alg, std::mem::take(&mut bars));
        assert_eq!(out, tagged, "{} changed a sorted store", alg.display_name());
    }
}
