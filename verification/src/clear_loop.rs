//! The loop that clears a cell, `[-]`: what it compiles to and what it does.

use vstd::prelude::*;
use crate::compiler::{lemma_closing_is_unique, lemma_opening_is_unique};
use crate::instruction::{
    Instruction, Opcode, COMMAND_LOOP_END, COMMAND_LOOP_START, COMMAND_SUB,
};
use crate::machine::{feed_at, halted, run_from, step_state, Feed, Snapshot, Trace};
use crate::syntax::{
    bracket_depth, closing_index, compile_result, encloses, folded, folded_prefix, linked,
    nesting, opening_index, run_length_at, CompileError,
};

verus! {

/// The source `[-]`.
pub open spec fn clear_loop_source() -> Seq<u8> {
    seq![COMMAND_LOOP_START, COMMAND_SUB, COMMAND_LOOP_END]
}

/// The program of `[-]`.
pub open spec fn clear_loop() -> Seq<Instruction> {
    seq![
        Instruction { opcode: Opcode::LoopStart, operand: 2 },
        Instruction { opcode: Opcode::Sub, operand: 1 },
        Instruction { opcode: Opcode::LoopEnd, operand: 0 },
    ]
}

/// `[-]` compiles to three instructions, the first and the last of which
/// name each other.
pub proof fn lemma_clear_loop_compiles()
    ensures
        compile_result(clear_loop_source()) == Ok::<Seq<Instruction>, CompileError>(clear_loop()),
{
    let source = clear_loop_source();
    let bare = seq![
        Instruction { opcode: Opcode::LoopStart, operand: 0 },
        Instruction { opcode: Opcode::Sub, operand: 1 },
        Instruction { opcode: Opcode::LoopEnd, operand: 0 },
    ];
    reveal_with_fuel(folded_prefix, 4);
    reveal_with_fuel(run_length_at, 2);
    reveal_with_fuel(bracket_depth, 4);
    reveal_with_fuel(nesting, 4);
    assert(folded(source) =~= bare);
    assert(nesting(bare, 1) == 1 && nesting(bare, 2) == 1 && nesting(bare, 3) == 0);
    assert(encloses(bare, 0, 2));
    lemma_closing_is_unique(bare, 0, 2, closing_index(bare, 0));
    lemma_opening_is_unique(bare, 0, opening_index(bare, 2), 2);
    assert(linked(bare) =~= clear_loop());
}

/// Inside the loop, on a cell that is not zero: two steps lower the cell by
/// one and test it, until it is zero and the loop is left.
proof fn lemma_clear_loop_counts_down(
    state: Snapshot,
    input: Seq<u8>,
    consumed: int,
    fuel: nat,
)
    requires
        state.pc == 1,
        0 <= state.cursor < state.tape.len(),
        state.tape[state.cursor] > 0,
        fuel >= 2 * state.tape[state.cursor],
    ensures
        run_from(clear_loop(), state, input, consumed, fuel).state == (Snapshot {
            tape: state.tape.update(state.cursor, 0),
            cursor: state.cursor,
            pc: 3,
        }),
        run_from(clear_loop(), state, input, consumed, fuel).consumed == consumed,
        run_from(clear_loop(), state, input, consumed, fuel).output == Seq::<u8>::empty(),
        run_from(clear_loop(), state, input, consumed, fuel).fault is None,
    decreases state.tape[state.cursor],
{
    let program = clear_loop();
    let feed = feed_at(input, consumed);
    let lowered = step_state(program, state, feed);
    let tested = step_state(program, lowered, feed);
    let after_one = run_from(program, lowered, input, consumed, (fuel - 1) as nat);
    let after_two = run_from(program, tested, input, consumed, (fuel - 2) as nat);
    assert(after_one.state == after_two.state && after_one.output == after_two.output);
    if state.tape[state.cursor] == 1 {
        assert(halted(program, tested));
    } else {
        lemma_clear_loop_counts_down(tested, input, consumed, (fuel - 2) as nat);
        assert(tested.tape.update(state.cursor, 0) =~= state.tape.update(state.cursor, 0));
    }
}

/// Run on a cell that holds zero, `[-]` skips its body: its first step ends
/// the program and changes no cell.
pub proof fn lemma_clear_loop_skips_zero(state: Snapshot, feed: Feed)
    requires
        state.pc == 0,
        0 <= state.cursor < state.tape.len(),
        state.tape[state.cursor] == 0,
    ensures
        step_state(clear_loop(), state, feed) == (Snapshot {
            tape: state.tape,
            cursor: state.cursor,
            pc: 3,
        }),
{
}

/// Whatever the current cell holds, `[-]` ends, after one step and two more
/// for each unit of the cell's value, and leaves the cell at zero. It moves
/// no cursor, changes no other cell, reads nothing and writes nothing.
pub proof fn lemma_clear_loop_clears(state: Snapshot, input: Seq<u8>, consumed: int, fuel: nat)
    requires
        state.pc == 0,
        0 <= state.cursor < state.tape.len(),
        fuel >= 1 + 2 * state.tape[state.cursor],
    ensures
        run_from(clear_loop(), state, input, consumed, fuel) == (Trace {
            state: Snapshot {
                tape: state.tape.update(state.cursor, 0),
                cursor: state.cursor,
                pc: 3,
            },
            consumed,
            output: Seq::empty(),
            fault: None,
        }),
{
    let program = clear_loop();
    let entered = step_state(program, state, feed_at(input, consumed));
    let after_one = run_from(program, entered, input, consumed, (fuel - 1) as nat);
    assert(run_from(program, state, input, consumed, fuel).output == after_one.output);
    if state.tape[state.cursor] == 0 {
        assert(halted(program, entered));
        assert(state.tape =~= state.tape.update(state.cursor, 0));
    } else {
        lemma_clear_loop_counts_down(entered, input, consumed, (fuel - 1) as nat);
    }
}

} // verus!
