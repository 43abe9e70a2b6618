//! What it means for a window of fragment indices to be complete.
//!
//! A window is looked at when a terminal fragment arrives. It runs from the
//! smallest index present that does not exceed the terminal index up to the
//! terminal index itself. Indices above the terminal index belong to a later
//! window and are never counted.

use vstd::prelude::*;
use crate::fragment::Fragment;
use crate::fragment::FragmentView;

verus! {

/// Whether some index present does not exceed `terminal`.
pub open spec fn has_window(present: Set<u32>, terminal: u32) -> bool {
    exists|j: u32| present.contains(j) && j <= terminal
}

/// Whether `start` is the smallest index present that does not exceed
/// `terminal`.
pub open spec fn is_window_start(present: Set<u32>, terminal: u32, start: u32) -> bool {
    &&& present.contains(start)
    &&& start <= terminal
    &&& forall|j: u32| present.contains(j) && j <= terminal ==> start <= j
}

/// Whether `missing` lists, in ascending order and each once, exactly the
/// indices from `lo` to `hi` that are not present.
pub open spec fn lists_missing(present: Set<u32>, lo: u32, hi: u32, missing: Seq<u32>) -> bool {
    &&& forall|a: int, b: int| 0 <= a < b < missing.len() ==> missing[a] < missing[b]
    &&& forall|j: u32| missing.contains(j) <==> (lo <= j <= hi && !present.contains(j))
}

/// Whether `list` holds, in ascending order and each once, exactly the indices
/// that are present.
pub open spec fn lists_present(present: Set<u32>, list: Seq<u32>) -> bool {
    &&& forall|a: int, b: int| 0 <= a < b < list.len() ==> list[a] < list[b]
    &&& forall|j: u32| list.contains(j) <==> present.contains(j)
}

/// The smallest index present that does not exceed `terminal`, where there is
/// one.
pub open spec fn window_start(present: Set<u32>, terminal: u32) -> u32 {
    choose|start: u32| is_window_start(present, terminal, start)
}

/// Whether every index from `lo` to `hi` is present.
pub open spec fn gap_free(present: Set<u32>, lo: u32, hi: u32) -> bool {
    forall|j: u32| lo <= j <= hi ==> present.contains(j)
}

/// Whether `list` holds the fragments of the indices `lo`, `lo + 1`, .. `hi`
/// of `fragments`, in that order.
pub open spec fn lists_window(
    fragments: Map<u32, FragmentView>,
    lo: u32,
    hi: u32,
    list: Seq<FragmentView>,
) -> bool {
    &&& lo <= hi
    &&& list.len() == hi - lo + 1
    &&& forall|k: int|
        0 <= k < list.len() ==> fragments.contains_key((lo + k) as u32) && #[trigger] list[k]
            == fragments[(lo + k) as u32]
}

/// The window that a terminal index closes: its bounds and its gaps.
#[derive(Debug)]
pub struct CompletionWindow {
    /// The smallest index present that does not exceed the terminal index.
    pub min_index: u32,
    /// The terminal index.
    pub max_index: u32,
    /// The indices between the two that are absent, ascending.
    pub missing: Vec<u32>,
}

/// What a window was found to be.
#[derive(Debug)]
pub enum Completion {
    /// No index is missing: the fragments of the window, by ascending index.
    Complete(Vec<Fragment>),
    /// The indices that are missing, ascending. The slot has to wait for a
    /// later terminal fragment.
    Incomplete(Vec<u32>),
}

/// The views of a list of fragments.
pub open spec fn views(list: Seq<Fragment>) -> Seq<FragmentView> {
    Seq::new(list.len(), |k: int| list[k]@)
}

/// A window has one start only.
pub proof fn lemma_window_start_is_unique(present: Set<u32>, terminal: u32, start: u32)
    requires
        is_window_start(present, terminal, start),
    ensures
        has_window(present, terminal),
        window_start(present, terminal) == start,
{
    let other = window_start(present, terminal);
    assert(is_window_start(present, terminal, other));
}

/// A list that is sorted without repetition is fixed by the set of its items:
/// the gaps of a window can be listed in one way only.
pub proof fn lemma_missing_is_unique(
    present: Set<u32>,
    lo: u32,
    hi: u32,
    a: Seq<u32>,
    b: Seq<u32>,
)
    requires
        lists_missing(present, lo, hi, a),
        lists_missing(present, lo, hi, b),
    ensures
        a == b,
    decreases a.len(),
{
    if a.len() == 0 {
        if b.len() > 0 {
            assert(b.contains(b[0]));
            assert(a.contains(b[0]));
        }
        assert(a =~= b);
    } else {
        let top = a.last();
        assert(a.contains(top));
        assert(b.contains(top));
        let at = choose|k: int| 0 <= k < b.len() && b[k] == top;
        if at < b.len() - 1 {
            let above = b.last();
            assert(b.contains(above));
            assert(a.contains(above));
            let k = choose|k: int| 0 <= k < a.len() && a[k] == above;
            assert(a[k] <= top);
        }
        let shorter = Set::new(|j: u32| present.contains(j) || j == top);
        let a1 = a.drop_last();
        let b1 = b.drop_last();
        assert forall|j: u32| a1.contains(j) <==> (lo <= j <= hi && !shorter.contains(j)) by {
            if a1.contains(j) {
                let k = choose|k: int| 0 <= k < a1.len() && a1[k] == j;
                assert(a[k] == j);
                assert(a.contains(j));
            }
            if lo <= j <= hi && !shorter.contains(j) {
                assert(a.contains(j));
                let k = choose|k: int| 0 <= k < a.len() && a[k] == j;
                assert(a1[k] == j);
            }
        }
        assert forall|j: u32| b1.contains(j) <==> (lo <= j <= hi && !shorter.contains(j)) by {
            if b1.contains(j) {
                let k = choose|k: int| 0 <= k < b1.len() && b1[k] == j;
                assert(b[k] == j);
                assert(b.contains(j));
            }
            if lo <= j <= hi && !shorter.contains(j) {
                assert(b.contains(j));
                let k = choose|k: int| 0 <= k < b.len() && b[k] == j;
                assert(b1[k] == j);
            }
        }
        lemma_missing_is_unique(shorter, lo, hi, a1, b1);
        assert(a =~= a1.push(top));
        assert(b =~= b1.push(top));
    }
}

} // verus!
