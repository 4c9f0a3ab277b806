//! Arithmetic on tape cells and on the tape cursor.
//!
//! Cell values wrap modulo 256. The cursor moves on a circle of `size`
//! positions, so every move is taken modulo `size`.

use vstd::prelude::*;
use vstd::arithmetic::div_mod::{
    lemma_add_mod_noop, lemma_mod_add_multiples_vanish, lemma_small_mod, lemma_sub_mod_noop,
};

verus! {

/// The value a cell holds after `amount` is added to it.
pub open spec fn wrapped_sum(cell: u8, amount: int) -> u8 {
    ((cell as int + amount) % 256) as u8
}

/// The value a cell holds after `amount` is subtracted from it.
pub open spec fn wrapped_difference(cell: u8, amount: int) -> u8 {
    ((cell as int - amount) % 256) as u8
}

/// The position reached from `current` by `step` moves to the right on a
/// tape of `size` cells.
pub open spec fn cell_to_the_right(current: int, step: int, size: int) -> int {
    (current + step) % size
}

/// The position reached from `current` by `step` moves to the left on a
/// tape of `size` cells.
pub open spec fn cell_to_the_left(current: int, step: int, size: int) -> int {
    (current - step) % size
}

/// The position reached from `current` by moving one cell to the right,
/// `times` times in a row.
pub open spec fn single_steps_right(current: int, times: nat, size: int) -> int
    decreases times,
{
    if times == 0 {
        current
    } else {
        cell_to_the_right(single_steps_right(current, (times - 1) as nat, size), 1, size)
    }
}

/// Adds `value` to the cell, wrapping modulo 256.
pub fn bfi_u8_add(var: &mut u8, value: u32)
    ensures
        *final(var) == wrapped_sum(*old(var), value as int),
{
    let sum: u64 = *var as u64 + value as u64;
    *var = (sum % 256) as u8;
}

/// Subtracts `value` from the cell, wrapping modulo 256.
pub fn bfi_u8_sub(var: &mut u8, value: u32)
    ensures
        *final(var) == wrapped_difference(*old(var), value as int),
{
    let cell: u32 = *var as u32;
    let amount: u32 = value % 256;
    if cell >= amount {
        *var = (cell - amount) as u8;
    } else {
        *var = (256 - (amount - cell)) as u8;
    }
}

/// Moves the cursor `step` cells to the right on a circular tape of
/// `max_cells` cells.
pub fn bfi_next_cell(current_cell: u32, step: u32, max_cells: u32) -> (next: u32)
    requires
        max_cells > 0,
    ensures
        next == cell_to_the_right(current_cell as int, step as int, max_cells as int),
        next < max_cells,
{
    let total: u64 = current_cell as u64 + step as u64;
    (total % (max_cells as u64)) as u32
}

/// Moves the cursor `step` cells to the left on a circular tape of
/// `max_cells` cells.
pub fn bfi_prev_cell(current_cell: u32, step: u32, max_cells: u32) -> (previous: u32)
    requires
        max_cells > 0,
    ensures
        previous == cell_to_the_left(current_cell as int, step as int, max_cells as int),
        previous < max_cells,
{
    let from: u32 = current_cell % max_cells;
    let back: u32 = step % max_cells;
    proof {
        lemma_sub_mod_noop(current_cell as int, step as int, max_cells as int);
        if from >= back {
            lemma_small_mod((from - back) as nat, max_cells as nat);
        } else {
            lemma_mod_add_multiples_vanish(from - back, max_cells as int);
            lemma_small_mod((max_cells + from - back) as nat, max_cells as nat);
        }
    }
    if from >= back {
        from - back
    } else {
        max_cells - (back - from)
    }
}

/// A cell that is raised 256 times by one is back at its value, a zero
/// cell that is lowered by one holds 255, and lowering undoes raising.
pub proof fn lemma_cell_wraps_around(cell: u8, amount: int)
    ensures
        wrapped_sum(cell, 256) == cell,
        wrapped_difference(0, 1) == 255,
        wrapped_difference(wrapped_sum(cell, amount), amount) == cell,
{
}

/// Moving right by the whole length of the tape from its first cell comes
/// back to the first cell, in one move or cell by cell, and one move to the
/// left from the first cell reaches the last one.
pub proof fn lemma_cursor_wraps_around(size: int)
    requires
        size > 0,
    ensures
        cell_to_the_right(0, size, size) == 0,
        single_steps_right(0, size as nat, size) == 0,
        cell_to_the_left(0, 1, size) == size - 1,
{
    lemma_mod_add_multiples_vanish(0, size);
    lemma_small_mod(0, size as nat);
    lemma_mod_add_multiples_vanish(-1, size);
    lemma_small_mod((size - 1) as nat, size as nat);
    lemma_single_steps_add_up(0, size as nat, size);
}

/// Single moves to the right add up: `times` of them from `current` reach
/// the cell that one move of `times` cells reaches.
pub proof fn lemma_single_steps_add_up(current: int, times: nat, size: int)
    requires
        size > 0,
        0 <= current < size,
    ensures
        single_steps_right(current, times, size) == cell_to_the_right(
            current,
            times as int,
            size,
        ),
    decreases times,
{
    if times == 0 {
        lemma_small_mod(current as nat, size as nat);
    } else {
        lemma_single_steps_add_up(current, (times - 1) as nat, size);
        lemma_add_mod_noop(current + times - 1, 1, size);
        lemma_small_mod(((current + times - 1) % size) as nat, size as nat);
        if size == 1 {
        } else {
            lemma_small_mod(1, size as nat);
        }
    }
}

/// Moving left undoes moving right by the same number of cells.
pub proof fn lemma_left_undoes_right(current: int, step: int, size: int)
    requires
        size > 0,
        0 <= current < size,
    ensures
        cell_to_the_left(cell_to_the_right(current, step, size), step, size) == current,
{
    lemma_sub_mod_noop(current + step, step, size);
    lemma_small_mod(((current + step) % size) as nat, size as nat);
    lemma_sub_mod_noop((current + step) % size, step, size);
    lemma_small_mod(current as nat, size as nat);
}

} // verus!
