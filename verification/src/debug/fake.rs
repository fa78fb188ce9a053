//! Building synthetic ordered-set layouts in a victim process: the balanced
//! placement of values into a flat node arena, used to exercise the shell
//! against a set the harness built itself.

use vstd::prelude::*;

verus! {

use vstd::slice::{slice_index_get, slice_subrange};

/// Where `place` puts each value: nodes appended to the arena bottom-up,
/// the middle value above its balanced left and right halves.
pub open spec fn spec_place<T>(
    heap: Seq<(Option<usize>, Option<usize>, T)>,
    vals: Seq<T>,
) -> (Seq<(Option<usize>, Option<usize>, T)>, Option<usize>)
    decreases vals.len(),
{
    if vals.len() == 0 {
        (heap, None)
    } else {
        let mid = vals.len() as int / 2;
        let (h1, l) = spec_place(heap, vals.take(mid));
        let (h2, r) = spec_place(h1, vals.skip(mid + 1));
        (h2.push((l, r, vals[mid])), Some(h2.len() as usize))
    }
}

/// Place values into the node arena as a balanced tree: the middle value
/// becomes the subtree root, pushed after its children, and its arena index
/// is returned; an empty slice places nothing.
pub fn place<T: Copy>(heap: &mut Vec<(Option<usize>, Option<usize>, T)>, vals: &[T]) -> (r: Option<
    usize,
>)
    ensures
        ({
            let (h, idx) = spec_place(old(heap)@, vals@);
            final(heap)@ == h && r == idx
        }),
    decreases vals@.len(),
{
    if vals.len() == 0 {
        return None;
    }
    let mid = vals.len() / 2;
    let left = slice_subrange(vals, 0, mid);
    let right = slice_subrange(vals, mid + 1, vals.len());
    let us = *slice_index_get(vals, mid);
    proof {
        assert(left@ =~= vals@.take(mid as int));
        assert(right@ =~= vals@.skip(mid + 1));
    }
    let l = place(heap, left);
    let r = place(heap, right);
    let idx = heap.len();
    heap.push((l, r, us));
    Some(idx)
}

} // verus!
