//! A sorting core built around an instrumented execution model: every
//! algorithm works on an ordered store of key/tag pairs and records each
//! observable step - comparisons, exchanges, replacements, tag changes -
//! as an event, so a consumer can replay the sort at its own pace.  The
//! dispatcher guarantees a single terminal `Done` event; the adaptive
//! hybrid sort adds natural-run detection, bounded insertion extension,
//! and an invariant-driven stack of pending merges.

// the store, tags, and the key-level specifications
pub mod models;
// the event protocol, its application semantics, and the consumer loop
pub mod events;
// sequence-level lemmas shared by the sorting proofs
pub mod seq_facts;
// insertion-sort primitives, numeric and instrumented
pub mod sort_utils;
// the adaptive hybrid sort: minimum runs, stable merge, pending-run stack
pub mod timsort;
// the algorithm catalogue
pub mod bogo;
pub mod bubble_sort;
pub mod burstsort;
pub mod cocktail_sort_visual;
pub mod counting_sort_visual;
pub mod gnome_sort_visual;
pub mod heap_sort_visual;
pub mod insertion_sort;
pub mod introsort;
pub mod merge_sort_visual;
pub mod pancakesort;
pub mod quadsort;
pub mod quicksort;
pub mod quicksort_visual;
pub mod radix_sort_visual;
pub mod selection_sort;
pub mod shell_sort_visual;
pub mod spaghettisort;
pub mod speed;
// the dispatcher and the catalogue selector
pub mod sorting;
// the consumer-side look, as far as the core cares
pub mod theme;
