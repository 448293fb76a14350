//! Patch selection in the instruments tab.

use vstd::prelude::*;

verus! {

use crate::ui::instruments::{fixed_patch_index, shifted_patch_index, shift_patch_index_ok};

/// Correct the patch index if it's out of bounds.
pub fn fix_patch_index(index: &mut Option<usize>, len: usize)
    ensures
        *final(index) == fixed_patch_index(*old(index), len),
{
    if len == 0 {
        *index = None;
    } else if let Some(i) = index {
        if *i >= len {
            *i = len - 1;
        }
    }
}

/// Shift the patch index while keeping it in bounds.
pub fn shift_patch_index(offset: isize, patch_index: &mut Option<usize>, n: usize)
    requires
        shift_patch_index_ok(offset, *old(patch_index), n),
    ensures
        *final(patch_index) == shifted_patch_index(offset, *old(patch_index), n),
{
    if let Some(index) = patch_index {
        if let Some(i) = index.checked_add_signed(offset) {
            *index = if i < n - 1 { i } else { n - 1 };
        } else {
            *patch_index = None;
        }
    } else if offset > 0 && n > 0 {
        let k = offset as usize - 1;
        *patch_index = Some(if k < n - 1 { k } else { n - 1 });
    }
}

} // verus!
