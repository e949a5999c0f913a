//! Layout helpers of the layer panel.
use vstd::prelude::*;

verus! {

/// Position of the first occurrence of `v` in `s`, if any.
pub open spec fn first_index(s: Seq<usize>, v: usize) -> Option<int> {
    if exists|i: int| 0 <= i < s.len() && s[i] == v {
        Some(choose|i: int| 0 <= i < s.len() && s[i] == v && forall|j: int| 0 <= j < i ==> s[j] != v)
    } else {
        None
    }
}

/// The row of layer `index` in the shown list, counted from the top from
/// zero; a layer that is not shown gives `scroll`.
pub open spec fn spec_row_of_index(shown: Seq<usize>, index: usize, scroll: usize) -> int {
    match first_index(shown, index) {
        Some(i) => i,
        None => scroll as int,
    }
}

/// Row number of a layer in the shown list (rows counted from the top,
/// from zero).
pub fn row_of_index(shown: &[usize], index: usize, scroll: usize) -> (r: usize)
    ensures
        r == spec_row_of_index(shown@, index, scroll),
{
    let mut i: usize = 0;
    while i < shown.len()
        invariant
            i <= shown@.len(),
            forall|j: int| 0 <= j < i ==> shown@[j] != index,
        decreases shown.len() - i,
    {
        if shown[i] == index {
            proof {
                let k = choose|k: int| 0 <= k < shown@.len() && shown@[k] == index && forall|j: int| 0 <= j < k ==> shown@[j] != index;
                assert(shown@[i as int] == index);
                if k < i {
                    assert(shown@[k] != index);
                }
                if k > i {
                    assert(shown@[i as int] != index);
                }
                assert(k == i);
            }
            return i;
        }
        i = i + 1;
    }
    scroll
}

} // verus!
