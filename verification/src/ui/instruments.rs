//! Patch selection in the instruments tab.

use vstd::prelude::*;

verus! {

/// The patch index after correcting it to lie within `len` patches.
pub open spec fn fixed_patch_index(index: Option<usize>, len: usize) -> Option<usize> {
    if len == 0 {
        None
    } else {
        match index {
            Some(i) => Some(if i < len { i } else { (len - 1) as usize }),
            None => None,
        }
    }
}

/// Correct the patch index if it's out of bounds.
pub fn fix_patch_index(index: &mut Option<usize>, len: usize)
    ensures
        *final(index) == fixed_patch_index(*old(index), len),
{
    if len == 0 {
        *index = None;
    } else if let Some(i) = index {
        *i = if *i < len - 1 { *i } else { len - 1 };
    }
}

/// The patch index after moving it by `offset` within `n` patches: a
/// selection moves and stops at the last patch, or is cleared when it would
/// move before the first; without a selection, a positive offset selects the
/// patch it counts to.
pub open spec fn shifted_patch_index(offset: isize, index: Option<usize>, n: usize) -> Option<usize> {
    match index {
        Some(i) => {
            let j = i + offset;
            if 0 <= j <= usize::MAX {
                Some(if j < n { j as usize } else { (n - 1) as usize })
            } else {
                None
            }
        },
        None => {
            if offset > 0 && n > 0 {
                Some(if offset - 1 < n { (offset - 1) as usize } else { (n - 1) as usize })
            } else {
                None
            }
        },
    }
}

/// The shift is defined: a selection that moves to an existing position
/// needs at least one patch to stop at.
pub open spec fn shift_patch_index_ok(offset: isize, index: Option<usize>, n: usize) -> bool {
    match index {
        Some(i) => (0 <= i + offset <= usize::MAX) ==> n > 0,
        None => true,
    }
}

/// Shift the patch index while keeping it in bounds.
pub fn shift_patch_index(offset: isize, patch_index: &mut Option<usize>, n: usize)
    requires
        shift_patch_index_ok(offset, *old(patch_index), n),
    ensures
        *final(patch_index) == shifted_patch_index(offset, *old(patch_index), n),
{
    if let Some(index) = patch_index {
        if let Some(i) = index.checked_add_signed(offset) {
            *index = if i < n - 1 { i } else { n - 1 };
        } else {
            *patch_index = None;
        }
    } else if offset > 0 && n > 0 {
        let k = offset as usize - 1;
        *patch_index = Some(if k < n - 1 { k } else { n - 1 });
    }
}

} // verus!
