use vstd::prelude::*;
pub use crate::events::Operation;
use crate::bogo::bogo_sort;
use crate::bubble_sort::bubble_sort;
use crate::cocktail_sort_visual::cocktail_sort_visual;
use crate::counting_sort_visual::counting_sort_visual;
use crate::gnome_sort_visual::gnome_sort_visual;
use crate::heap_sort_visual::heap_sort_visual;
use crate::events::{apply_ops_keys, emitted, lemma_apply_ops_push, no_done, op_wf, ops_wf};
use crate::insertion_sort::insertion_sort;
use crate::merge_sort_visual::merge_sort_visual;
use crate::models::{key_seq, same_key_classes, sorted_keys, SortBar};
use crate::seq_facts::lemma_key_multiset_from_multiset;
use crate::quicksort_visual::quick_sort_visual;
use crate::radix_sort_visual::radix_sort_visual;
use crate::selection_sort::selection_sort;
use crate::shell_sort_visual::shell_sort_visual;
use crate::timsort::tim_sort;

verus! {

/// The catalogue of sorting strategies a consumer can ask for.
#[derive(Debug, Clone, Copy, PartialEq, Eq, Structural, Default)]
pub enum SortingAlgorithm {
    #[default]
    Bubble,
    Selection,
    Insertion,
    QuickVisual,
    MergeSort,
    HeapSort,
    CountingSort,
    RadixSort,
    ShellSort,
    CocktailSort,
    GnomeSort,
    TimSort,
    BogoSort,
}

impl SortingAlgorithm {
    /// Every member of the catalogue, in display order.
    pub fn all() -> (r: Vec<SortingAlgorithm>)
        ensures
            r@ == seq![
                SortingAlgorithm::Bubble,
                SortingAlgorithm::Selection,
                SortingAlgorithm::Insertion,
                SortingAlgorithm::QuickVisual,
                SortingAlgorithm::MergeSort,
                SortingAlgorithm::HeapSort,
                SortingAlgorithm::CountingSort,
                SortingAlgorithm::RadixSort,
                SortingAlgorithm::ShellSort,
                SortingAlgorithm::CocktailSort,
                SortingAlgorithm::GnomeSort,
                SortingAlgorithm::TimSort,
                SortingAlgorithm::BogoSort,
            ],
    {
        let r = vec![
            SortingAlgorithm::Bubble,
            SortingAlgorithm::Selection,
            SortingAlgorithm::Insertion,
            SortingAlgorithm::QuickVisual,
            SortingAlgorithm::MergeSort,
            SortingAlgorithm::HeapSort,
            SortingAlgorithm::CountingSort,
            SortingAlgorithm::RadixSort,
            SortingAlgorithm::ShellSort,
            SortingAlgorithm::CocktailSort,
            SortingAlgorithm::GnomeSort,
            SortingAlgorithm::TimSort,
            SortingAlgorithm::BogoSort,
        ];
        proof {
            assert(r@ =~= seq![
                SortingAlgorithm::Bubble,
                SortingAlgorithm::Selection,
                SortingAlgorithm::Insertion,
                SortingAlgorithm::QuickVisual,
                SortingAlgorithm::MergeSort,
                SortingAlgorithm::HeapSort,
                SortingAlgorithm::CountingSort,
                SortingAlgorithm::RadixSort,
                SortingAlgorithm::ShellSort,
                SortingAlgorithm::CocktailSort,
                SortingAlgorithm::GnomeSort,
                SortingAlgorithm::TimSort,
                SortingAlgorithm::BogoSort,
            ]);
        }
        r
    }

    /// A human-readable label for the strategy.
    pub fn display_name(&self) -> (r: String)
        ensures
            r@.len() > 0,
    {
        match self {
            SortingAlgorithm::Bubble => {
                proof {
                    reveal_strlit("Bubble Sort");
                }
                "Bubble Sort".to_string()
            },
            SortingAlgorithm::Selection => {
                proof {
                    reveal_strlit("Selection Sort");
                }
                "Selection Sort".to_string()
            },
            SortingAlgorithm::Insertion => {
                proof {
                    reveal_strlit("Insertion Sort");
                }
                "Insertion Sort".to_string()
            },
            SortingAlgorithm::QuickVisual => {
                proof {
                    reveal_strlit("Quick Sort");
                }
                "Quick Sort".to_string()
            },
            SortingAlgorithm::MergeSort => {
                proof {
                    reveal_strlit("Merge Sort");
                }
                "Merge Sort".to_string()
            },
            SortingAlgorithm::HeapSort => {
                proof {
                    reveal_strlit("Heap Sort");
                }
                "Heap Sort".to_string()
            },
            SortingAlgorithm::CountingSort => {
                proof {
                    reveal_strlit("Counting Sort");
                }
                "Counting Sort".to_string()
            },
            SortingAlgorithm::RadixSort => {
                proof {
                    reveal_strlit("Radix Sort");
                }
                "Radix Sort".to_string()
            },
            SortingAlgorithm::ShellSort => {
                proof {
                    reveal_strlit("Shell Sort");
                }
                "Shell Sort".to_string()
            },
            SortingAlgorithm::CocktailSort => {
                proof {
                    reveal_strlit("Cocktail Sort");
                }
                "Cocktail Sort".to_string()
            },
            SortingAlgorithm::GnomeSort => {
                proof {
                    reveal_strlit("Gnome Sort");
                }
                "Gnome Sort".to_string()
            },
            SortingAlgorithm::TimSort => {
                proof {
                    reveal_strlit("Tim Sort");
                }
                "Tim Sort".to_string()
            },
            SortingAlgorithm::BogoSort => {
                proof {
                    reveal_strlit("Bogo Sort");
                }
                "Bogo Sort".to_string()
            },
        }
    }

    /// Whether the strategy promises not to reorder equal keys.
    pub open spec fn is_stable(self) -> bool {
        self is Bubble || self is Insertion || self is MergeSort || self is TimSort
            || self is CocktailSort || self is GnomeSort
    }

}

/// Non-decreasing order for plain key sequences.
pub open spec fn sorted_usize(s: Seq<usize>) -> bool {
    forall|i: int, j: int| 0 <= i < j < s.len() ==> s[i] <= s[j]
}

/// Law: a consumer that drains a sort's whole event stream and applies
/// it faithfully ends with the same keys as the worker's store, so the
/// key sequence it sees is non-decreasing — for every algorithm whose
/// run ended in a sorted store, and every input.
pub proof fn lemma_faithful_consumer(initial: Seq<SortBar>, out: Seq<SortBar>, ops: Seq<Operation>)
    requires
        apply_ops_keys(key_seq(initial), ops) == key_seq(out),
        sorted_keys(out),
    ensures
        sorted_usize(apply_ops_keys(key_seq(initial), ops)),
{
    assert forall|i: int, j: int|
        0 <= i < j < key_seq(out).len() implies key_seq(out)[i] <= key_seq(out)[j] by {
        assert(key_seq(out)[i] == out[i].value);
        assert(key_seq(out)[j] == out[j].value);
    }
}

/// Whether the pending-run discipline of the adaptive hybrid sort holds
/// of a run stack: each run longer than the next, and longer than the
/// next two together.
pub fn merge_discipline_holds(runs: &Vec<(usize, usize)>) -> (r: bool)
    requires
        forall|t: int| 0 <= t < runs@.len() ==> (#[trigger] runs@[t]).0 <= runs@[t].1,
    ensures
        r == crate::timsort::merge_invariant(runs@),
{
    let m = runs.len();
    let mut t: usize = 0;
    while t < m
        invariant
            t <= m,
            m == runs@.len(),
            forall|u: int| 0 <= u < runs@.len() ==> (#[trigger] runs@[u]).0 <= runs@[u].1,
            forall|u: int| 0 <= u < t && u + 1 < m ==> #[trigger] crate::timsort::pair_ok(runs@, u),
            forall|u: int|
                0 <= u < t && u + 2 < m ==> #[trigger] crate::timsort::triple_ok(runs@, u),
        decreases m - t,
    {
        if t + 1 < m {
            let lt = (runs[t].1 - runs[t].0) as u128;
            let lu = (runs[t + 1].1 - runs[t + 1].0) as u128;
            if lt <= lu {
                proof {
                    assert(!crate::timsort::pair_ok(runs@, t as int));
                }
                return false;
            }
            proof {
                assert(crate::timsort::pair_ok(runs@, t as int));
            }
            if t + 2 < m {
                let lv = (runs[t + 2].1 - runs[t + 2].0) as u128;
                if lt <= lu + lv {
                    proof {
                        assert(!crate::timsort::triple_ok(runs@, t as int));
                    }
                    return false;
                }
                proof {
                    assert(crate::timsort::triple_ok(runs@, t as int));
                }
            }
        }
        t = t + 1;
    }
    true
}

/// The round budget handed to the shuffle-until-sorted strategy: its
/// cooperative stop signal.
pub const BOGO_ROUND_LIMIT: usize = 1000000;

/// The dispatcher core: runs the chosen algorithm over its own store
/// and returns the final store together with the full event stream,
/// which ends in exactly one `Done`.  A store of at most one element is
/// already sorted, so no algorithm is invoked and the stream is exactly
/// `[Done]`.  Every strategy conserves the keys; all but the counting
/// strategy conserve whole elements; the stable strategies preserve
/// every key class.  Sortedness is owed by every strategy except the
/// randomized one, and except the tally-based strategies on keys beyond
/// their safety bounds.
pub fn run_sort(algorithm: SortingAlgorithm, bars: Vec<SortBar>) -> (r: (
    Vec<SortBar>,
    Vec<Operation>,
))
    ensures
        r.0@.len() == bars@.len(),
        key_seq(r.0@).to_multiset() == key_seq(bars@).to_multiset(),
        !(algorithm is CountingSort) ==> r.0@.to_multiset() == bars@.to_multiset(),
        r.1@.len() > 0,
        r.1@.last() == Operation::Done,
        no_done(r.1@.drop_last()),
        ops_wf(r.1@, bars@.len() as nat),
        apply_ops_keys(key_seq(bars@), r.1@) == key_seq(r.0@),
        !(algorithm is BogoSort) && !(algorithm is CountingSort) && !(algorithm is RadixSort)
            ==> sorted_keys(r.0@),
        algorithm is CountingSort && (forall|i: int|
            0 <= i < bars@.len() ==> (#[trigger] bars@[i]).value
                <= crate::counting_sort_visual::MAX_SAFE_SIZE) ==> sorted_keys(r.0@),
        algorithm is RadixSort && (forall|i: int|
            0 <= i < bars@.len() ==> (#[trigger] bars@[i]).value
                <= crate::radix_sort_visual::MAX_SAFE_VALUE) ==> sorted_keys(r.0@),
        algorithm.is_stable() ==> same_key_classes(r.0@, bars@),
        bars@.len() <= 1 ==> r.1@ == seq![Operation::Done],
{
    let mut work = bars;
    let ghost init = work@;
    let mut ops: Vec<Operation> = Vec::new();
    if work.len() <= 1 {
        ops.push(Operation::Done);
        proof {
            assert(ops@ =~= seq![Operation::Done]);
            assert(no_done(ops@.drop_last())) by {
                assert(ops@.drop_last() =~= Seq::<Operation>::empty());
            }
            assert(apply_ops_keys(key_seq(init), ops@) == key_seq(init)) by {
                assert(ops@.drop_last() =~= Seq::<Operation>::empty());
                assert(apply_ops_keys(key_seq(init), ops@.drop_last()) == key_seq(init));
                assert(ops@.last() == Operation::Done);
            }
        }
        return (work, ops);
    }
    match algorithm {
        SortingAlgorithm::Bubble => {
            bubble_sort(&mut work, &mut ops);
        },
        SortingAlgorithm::Selection => {
            selection_sort(&mut work, &mut ops);
        },
        SortingAlgorithm::Insertion => {
            insertion_sort(&mut work, &mut ops);
        },
        SortingAlgorithm::QuickVisual => {
            quick_sort_visual(&mut work, &mut ops);
        },
        SortingAlgorithm::MergeSort => {
            merge_sort_visual(&mut work, &mut ops);
        },
        SortingAlgorithm::TimSort => {
            tim_sort(&mut work, &mut ops);
        },
        SortingAlgorithm::BogoSort => {
            let _ = bogo_sort(&mut work, &mut ops, BOGO_ROUND_LIMIT);
        },
        SortingAlgorithm::HeapSort => {
            heap_sort_visual(&mut work, &mut ops);
        },
        SortingAlgorithm::CountingSort => {
            counting_sort_visual(&mut work, &mut ops);
        },
        SortingAlgorithm::RadixSort => {
            radix_sort_visual(&mut work, &mut ops);
        },
        SortingAlgorithm::ShellSort => {
            shell_sort_visual(&mut work, &mut ops);
        },
        SortingAlgorithm::CocktailSort => {
            cocktail_sort_visual(&mut work, &mut ops);
        },
        SortingAlgorithm::GnomeSort => {
            gnome_sort_visual(&mut work, &mut ops);
        },
    }
    proof {
        if !(algorithm is CountingSort) {
            lemma_key_multiset_from_multiset(work@, init);
        }
    }
    let ghost body_ops = ops@;
    ops.push(Operation::Done);
    proof {
        assert(emitted(Seq::<Operation>::empty(), body_ops) =~= body_ops);
        lemma_apply_ops_push(key_seq(init), body_ops, Operation::Done);
        assert(ops@.drop_last() =~= body_ops);
        assert(ops@.last() == Operation::Done);
        assert(ops_wf(ops@, init.len() as nat)) by {
            assert forall|t: int| 0 <= t < ops@.len() implies op_wf(#[trigger] ops@[t], init.len() as nat) by {
                if t < ops@.len() - 1 {
                    assert(ops@[t] == body_ops[t]);
                }
            }
        }
    }
    (work, ops)
}

} // verus!
