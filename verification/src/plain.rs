//! The program without folding: every instruction that counts a run is
//! replaced by single instructions, as many as the run is long.

use vstd::prelude::*;
use vstd::arithmetic::div_mod::lemma_mod_bound;
use crate::compiler::{lemma_closing_is_unique, lemma_opening_is_unique};
use crate::instruction::Instruction;
use crate::machine::{
    feed_at, halted, reads_byte, run_from, step_output, step_state, Snapshot,
};
use crate::pairing::lemma_linked_names_partners;
use crate::syntax::{balanced, closing_index, encloses, linked, nesting, opening_index};
use crate::unfolding::lemma_singles_run;

verus! {

/// The number of single instructions that stand for the instruction: its
/// operand where that counts a run, and one otherwise.
pub open spec fn width(instruction: Instruction) -> nat {
    if instruction.opcode.counts_run() {
        instruction.operand as nat
    } else {
        1
    }
}

/// The instruction for one command of the run, with no loop target.
pub open spec fn single(instruction: Instruction) -> Instruction {
    Instruction {
        opcode: instruction.opcode,
        operand: if instruction.opcode.counts_run() {
            1
        } else {
            0
        },
    }
}

/// The first `upto` instructions of the code, each replaced by its single
/// instructions.
pub open spec fn unfolded_prefix(code: Seq<Instruction>, upto: int) -> Seq<Instruction>
    decreases upto,
{
    if upto <= 0 {
        Seq::empty()
    } else {
        unfolded_prefix(code, upto - 1) + Seq::new(
            width(code[upto - 1]),
            |t: int| single(code[upto - 1]),
        )
    }
}

/// The code with each instruction replaced by its single instructions, and
/// no loop linked.
pub open spec fn unfolded(code: Seq<Instruction>) -> Seq<Instruction> {
    unfolded_prefix(code, code.len() as int)
}

/// Where the single instructions of instruction `index` begin in the
/// unfolded code.
pub open spec fn start(code: Seq<Instruction>, index: int) -> int {
    unfolded_prefix(code, index).len() as int
}

/// The single instructions of later instructions begin later.
pub proof fn lemma_start_is_monotone(code: Seq<Instruction>, low: int, high: int)
    requires
        0 <= low <= high,
    ensures
        0 <= start(code, low) <= start(code, high),
        high > low && !code[low].opcode.counts_run() ==> start(code, low) < start(code, high),
    decreases high - low,
{
    if low < high {
        lemma_start_is_monotone(code, low, high - 1);
    }
}

/// Each single instruction of instruction `index` is found at its place in
/// the unfolded code.
pub proof fn lemma_unfolded_at(code: Seq<Instruction>, index: int, offset: int, upto: int)
    requires
        0 <= index < upto,
        0 <= offset < width(code[index]),
    ensures
        start(code, index) + offset < unfolded_prefix(code, upto).len(),
        unfolded_prefix(code, upto)[start(code, index) + offset] == single(code[index]),
    decreases upto,
{
    if index < upto - 1 {
        lemma_unfolded_at(code, index, offset, upto - 1);
    }
}

/// The unfolded code nests before and behind the single instructions of an
/// instruction as the code nests before and behind the instruction.
pub proof fn lemma_unfolded_nesting(code: Seq<Instruction>, index: int, offset: int)
    requires
        0 <= index < code.len(),
        0 <= offset <= width(code[index]),
    ensures
        nesting(unfolded(code), start(code, index) + offset) == if offset == 0 {
            nesting(code, index)
        } else {
            nesting(code, index + 1)
        },
    decreases index, offset,
{
    if offset == 0 {
        if index > 0 {
            lemma_unfolded_nesting(code, index - 1, width(code[index - 1]) as int);
        }
    } else {
        lemma_unfolded_nesting(code, index, offset - 1);
        lemma_unfolded_at(code, index, offset - 1, code.len() as int);
    }
}

/// Where the code nests deeper than `floor` from behind `low` up to `high`,
/// so does the unfolded code between the places of the two.
pub proof fn lemma_unfolded_nests_above(code: Seq<Instruction>, low: int, high: int, floor: int)
    requires
        0 <= low <= high <= code.len(),
        forall|m: int| low < m <= high ==> #[trigger] nesting(code, m) > floor,
    ensures
        forall|k: int|
            start(code, low) < k <= start(code, high) ==> #[trigger] nesting(unfolded(code), k)
                > floor,
    decreases high - low,
{
    if low < high {
        lemma_unfolded_nests_above(code, low, high - 1, floor);
        assert forall|k: int| start(code, low) < k <= start(code, high) implies #[trigger] nesting(
            unfolded(code),
            k,
        ) > floor by {
            if k > start(code, high - 1) {
                lemma_unfolded_nesting(code, high - 1, k - start(code, high - 1));
                assert(nesting(code, high) > floor);
            }
        }
    }
}

/// The two ends of a loop of the code are the two ends of a loop of the
/// unfolded code.
pub proof fn lemma_unfolded_encloses(code: Seq<Instruction>, open: int, close: int)
    requires
        encloses(code, open, close),
    ensures
        encloses(unfolded(code), start(code, open), start(code, close)),
{
    let count = code.len() as int;
    lemma_start_is_monotone(code, open, close);
    lemma_unfolded_at(code, open, 0, count);
    lemma_unfolded_at(code, close, 0, count);
    lemma_unfolded_nesting(code, open, 0);
    lemma_unfolded_nesting(code, close, 1);
    lemma_unfolded_nests_above(code, open, close, nesting(code, open));
}

/// If the nesting of the code is never negative and ends at zero, the same
/// holds of the unfolded code.
pub proof fn lemma_unfolded_is_balanced(code: Seq<Instruction>)
    requires
        nesting(code, code.len() as int) == 0,
        forall|m: int| 0 <= m <= code.len() ==> #[trigger] nesting(code, m) >= 0,
    ensures
        nesting(unfolded(code), unfolded(code).len() as int) == 0,
        forall|k: int| 0 <= k <= unfolded(code).len() ==> #[trigger] nesting(unfolded(code), k) >= 0,
{
    let count = code.len() as int;
    lemma_unfolded_nests_above(code, 0, count, -1);
    if count > 0 {
        lemma_unfolded_nesting(code, count - 1, width(code[count - 1]) as int);
        lemma_unfolded_nesting(code, count - 1, 0);
    }
}

/// In the linked unfolded code, the single instruction of a loop
/// instruction names the place of the partner that the loop instruction
/// names in the linked code.
pub proof fn lemma_unfolded_targets(code: Seq<Instruction>, index: int)
    requires
        unfolded(code).len() <= usize::MAX,
        0 <= index < code.len(),
        code[index].opcode.is_loop(),
        nesting(code, code.len() as int) == 0,
        forall|m: int| 0 <= m <= code.len() ==> #[trigger] nesting(code, m) >= 0,
        code[index].opcode is LoopStart ==> encloses(code, index, linked(code)[index].operand as int),
        code[index].opcode is LoopEnd ==> encloses(code, linked(code)[index].operand as int, index),
    ensures
        start(code, index) < unfolded(code).len(),
        linked(unfolded(code))[start(code, index)].opcode == code[index].opcode,
        linked(unfolded(code))[start(code, index)].operand == start(
            code,
            linked(code)[index].operand as int,
        ),
{
    let plain = unfolded(code);
    let partner = linked(code)[index].operand as int;
    lemma_unfolded_at(code, index, 0, code.len() as int);
    if code[index].opcode is LoopStart {
        lemma_unfolded_encloses(code, index, partner);
        lemma_closing_is_unique(
            plain,
            start(code, index),
            start(code, partner),
            closing_index(plain, start(code, index)),
        );
    } else {
        lemma_unfolded_encloses(code, partner, index);
        lemma_opening_is_unique(
            plain,
            start(code, partner),
            opening_index(plain, start(code, index)),
            start(code, index),
        );
    }
}

/// The state of the unfolded program that stands for a state of the
/// program: the same tape and cursor, at the place of the next instruction.
pub open spec fn moved(code: Seq<Instruction>, state: Snapshot) -> Snapshot {
    Snapshot { tape: state.tape, cursor: state.cursor, pc: start(code, state.pc) }
}

/// A run of `first + second` instructions is a run of `first` instructions
/// and then a run of `second` instructions from where the first run came
/// to, if the first run met no error.
pub proof fn lemma_run_splits(
    program: Seq<Instruction>,
    state: Snapshot,
    input: Seq<u8>,
    consumed: int,
    first: nat,
    second: nat,
)
    requires
        run_from(program, state, input, consumed, first).fault is None,
    ensures
        ({
            let head = run_from(program, state, input, consumed, first);
            let tail = run_from(program, head.state, input, head.consumed, second);
            let whole = run_from(program, state, input, consumed, first + second);
            &&& whole.state == tail.state
            &&& whole.consumed == tail.consumed
            &&& whole.output == head.output + tail.output
            &&& whole.fault == tail.fault
        }),
    decreases first,
{
    let head = run_from(program, state, input, consumed, first);
    let tail = run_from(program, head.state, input, head.consumed, second);
    let whole = run_from(program, state, input, consumed, first + second);
    if first == 0 || halted(program, state) {
        assert(whole.output =~= head.output + tail.output);
    } else {
        let feed = feed_at(input, consumed);
        let stepped = step_state(program, state, feed);
        let read = if reads_byte(program, state, input, consumed) {
            consumed + 1
        } else {
            consumed
        };
        lemma_run_splits(program, stepped, input, read, (first - 1) as nat, second);
        let rest_whole = run_from(program, stepped, input, read, (first - 1 + second) as nat);
        assert(whole.output == step_output(program, state) + rest_whole.output);
        assert(whole.output =~= head.output + tail.output);
    }
}

/// One step of the program at an instruction that counts a run is as many
/// steps of the unfolded program as the run is long.
proof fn lemma_unfolded_step_of_run(
    code: Seq<Instruction>,
    state: Snapshot,
    input: Seq<u8>,
    consumed: int,
)
    requires
        unfolded(code).len() <= usize::MAX,
        0 <= state.pc < code.len(),
        code[state.pc].opcode.counts_run(),
        0 <= state.cursor < state.tape.len(),
    ensures
        ({
            let feed = feed_at(input, consumed);
            let stepped = step_state(linked(code), state, feed);
            let plain = run_from(
                linked(unfolded(code)),
                moved(code, state),
                input,
                consumed,
                width(code[state.pc]),
            );
            &&& plain.state == moved(code, stepped)
            &&& plain.output == step_output(linked(code), state)
            &&& plain.consumed == consumed
            &&& plain.fault is None
            &&& !reads_byte(linked(code), state, input, consumed)
            &&& stepped.pc == state.pc + 1
            &&& stepped.tape.len() == state.tape.len()
            &&& 0 <= stepped.cursor < stepped.tape.len()
        }),
{
    let index = state.pc;
    let count = code.len() as int;
    let opcode = code[index].opcode;
    let times = width(code[index]);
    let bare = unfolded(code);
    let program = linked(bare);
    let base = start(code, index);
    let feed = feed_at(input, consumed);
    let size = state.tape.len() as int;
    lemma_start_is_monotone(code, index, index + 1);
    lemma_start_is_monotone(code, index + 1, count);
    assert(start(code, index + 1) == base + times);
    assert forall|k: int| base <= k < base + times implies #[trigger] program[k] == (Instruction {
        opcode,
        operand: 1,
    }) by {
        lemma_unfolded_at(code, index, k - base, count);
    }
    lemma_singles_run(program, base, opcode, times, 0, moved(code, state), input, consumed);
    let stepped = step_state(linked(code), state, feed);
    let plain = run_from(program, moved(code, state), input, consumed, times);
    assert(linked(code)[index] == (Instruction { opcode, operand: times as usize }));
    lemma_mod_bound(state.cursor + code[index].operand, size);
    lemma_mod_bound(state.cursor - code[index].operand, size);
    assert(plain.state.tape =~= stepped.tape);
    assert(plain.state == moved(code, stepped));
}

/// One step of the program at an instruction that counts no run is one
/// step of the unfolded program.
proof fn lemma_unfolded_step_of_other(
    code: Seq<Instruction>,
    state: Snapshot,
    input: Seq<u8>,
    consumed: int,
)
    requires
        code.len() <= usize::MAX,
        unfolded(code).len() <= usize::MAX,
        balanced(code),
        0 <= state.pc < code.len(),
        !code[state.pc].opcode.counts_run(),
        0 <= state.cursor < state.tape.len(),
    ensures
        ({
            let feed = feed_at(input, consumed);
            let stepped = step_state(linked(code), state, feed);
            let plain = linked(unfolded(code));
            &&& !halted(plain, moved(code, state))
            &&& step_state(plain, moved(code, state), feed) == moved(code, stepped)
            &&& step_output(plain, moved(code, state)) == step_output(linked(code), state)
            &&& reads_byte(plain, moved(code, state), input, consumed) == reads_byte(
                linked(code),
                state,
                input,
                consumed,
            )
            &&& 0 <= stepped.pc <= code.len()
            &&& stepped.tape.len() == state.tape.len()
            &&& 0 <= stepped.cursor < stepped.tape.len()
        }),
{
    let index = state.pc;
    let count = code.len() as int;
    let bare = unfolded(code);
    let program = linked(bare);
    let feed = feed_at(input, consumed);
    let stepped = step_state(linked(code), state, feed);
    let plain = step_state(program, moved(code, state), feed);
    lemma_unfolded_at(code, index, 0, count);
    assert(start(code, index + 1) == start(code, index) + 1);
    if code[index].opcode.is_loop() {
        let partner = linked(code)[index].operand as int;
        lemma_linked_names_partners(code);
        lemma_unfolded_targets(code, index);
        lemma_unfolded_at(code, partner, 0, count);
        assert(start(code, partner + 1) == start(code, partner) + 1);
    }
    assert(plain.tape =~= stepped.tape);
    assert(plain == moved(code, stepped));
}

/// Folding keeps what a program does: however far the program has run, the
/// unfolded program, in which every run is single instructions, comes
/// after some number of steps to the same tape and the same cursor, at the
/// place of the same instruction, with the same bytes read and written.
pub proof fn lemma_unfolded_run(
    code: Seq<Instruction>,
    state: Snapshot,
    input: Seq<u8>,
    consumed: int,
    fuel: nat,
) -> (steps: nat)
    requires
        code.len() <= usize::MAX,
        unfolded(code).len() <= usize::MAX,
        balanced(code),
        0 <= state.pc <= code.len(),
        0 <= state.cursor < state.tape.len(),
    ensures
        ({
            let folded = run_from(linked(code), state, input, consumed, fuel);
            let plain = run_from(
                linked(unfolded(code)),
                moved(code, state),
                input,
                consumed,
                steps,
            );
            &&& plain.state == moved(code, folded.state)
            &&& plain.output == folded.output
            &&& plain.consumed == folded.consumed
            &&& plain.fault is None
            &&& folded.fault is None
            &&& 0 <= folded.state.pc <= code.len()
        }),
    decreases fuel,
{
    let program = linked(code);
    let plain = linked(unfolded(code));
    let feed = feed_at(input, consumed);
    if fuel == 0 || halted(program, state) {
        0
    } else {
        let index = state.pc;
        let stepped = step_state(program, state, feed);
        let read = if reads_byte(program, state, input, consumed) {
            consumed + 1
        } else {
            consumed
        };
        let folded = run_from(program, state, input, consumed, fuel);
        let rest = run_from(program, stepped, input, read, (fuel - 1) as nat);
        assert(folded.output == step_output(program, state) + rest.output);
        if code[index].opcode.counts_run() {
            let times = width(code[index]);
            lemma_unfolded_step_of_run(code, state, input, consumed);
            let later = lemma_unfolded_run(code, stepped, input, read, (fuel - 1) as nat);
            lemma_run_splits(plain, moved(code, state), input, consumed, times, later);
            times + later
        } else {
            lemma_unfolded_step_of_other(code, state, input, consumed);
            let later = lemma_unfolded_run(code, stepped, input, read, (fuel - 1) as nat);
            let whole = run_from(plain, moved(code, state), input, consumed, 1 + later);
            let tail = run_from(plain, moved(code, stepped), input, read, later);
            assert(whole.output == step_output(plain, moved(code, state)) + tail.output);
            1 + later
        }
    }
}

} // verus!
