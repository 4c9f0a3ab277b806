//! A folded instruction does what the commands of its run do one by one.

use vstd::prelude::*;
use vstd::arithmetic::div_mod::{
    lemma_add_mod_noop, lemma_add_mod_noop_right, lemma_mod_bound, lemma_small_mod,
    lemma_sub_mod_noop, lemma_sub_mod_noop_right,
};
use crate::instruction::{Instruction, Opcode};
use crate::machine::{feed_at, halted, run_from, step_output, step_state, Feed, Snapshot};

verus! {

/// The program that repeats one instruction with operand one, `times`
/// times: what a run of `times` equal commands is without folding.
pub open spec fn singles(opcode: Opcode, times: nat) -> Seq<Instruction> {
    Seq::new(times, |i: int| Instruction { opcode, operand: 1 })
}

/// The program of the one instruction that a run of `times` equal commands
/// is folded into.
pub open spec fn folded_run(opcode: Opcode, times: nat) -> Seq<Instruction> {
    seq![Instruction { opcode, operand: times as usize }]
}

/// The state with the next instruction set to the first one.
pub open spec fn at_start(state: Snapshot) -> Snapshot {
    Snapshot { tape: state.tape, cursor: state.cursor, pc: 0 }
}

/// An instruction with operand zero changes no cell, moves no cursor and
/// writes nothing.
proof fn lemma_run_of_none(opcode: Opcode, state: Snapshot, feed: Feed)
    requires
        opcode.counts_run(),
        0 <= state.cursor < state.tape.len(),
    ensures
        step_state(folded_run(opcode, 0), at_start(state), feed).tape == state.tape,
        step_state(folded_run(opcode, 0), at_start(state), feed).cursor == state.cursor,
        step_output(folded_run(opcode, 0), at_start(state)) == Seq::<u8>::empty(),
{
    let size = state.tape.len() as int;
    let at_once = step_state(folded_run(opcode, 0), at_start(state), feed);
    lemma_small_mod(state.cursor as nat, size as nat);
    assert(at_once.tape =~= state.tape);
    assert(step_output(folded_run(opcode, 0), at_start(state)) =~= Seq::<u8>::empty());
}

/// One single instruction and then an instruction with one less than
/// `count` do what the instruction with `count` does.
proof fn lemma_run_of_one_more(opcode: Opcode, count: nat, state: Snapshot, feed: Feed)
    requires
        opcode.counts_run(),
        1 <= count <= usize::MAX,
        0 <= state.cursor < state.tape.len(),
    ensures
        ({
            let first = step_state(folded_run(opcode, 1), at_start(state), feed);
            let fewer = (count - 1) as nat;
            let rest = step_state(folded_run(opcode, fewer), at_start(first), feed);
            let at_once = step_state(folded_run(opcode, count), at_start(state), feed);
            &&& first.tape.len() == state.tape.len()
            &&& 0 <= first.cursor < first.tape.len()
            &&& rest.tape == at_once.tape
            &&& rest.cursor == at_once.cursor
            &&& step_output(folded_run(opcode, 1), at_start(state)) + step_output(
                folded_run(opcode, fewer),
                at_start(first),
            ) == step_output(folded_run(opcode, count), at_start(state))
        }),
{
    let size = state.tape.len() as int;
    let fewer = (count - 1) as nat;
    let first = step_state(folded_run(opcode, 1), at_start(state), feed);
    let rest = step_state(folded_run(opcode, fewer), at_start(first), feed);
    let at_once = step_state(folded_run(opcode, count), at_start(state), feed);
    match opcode {
        Opcode::Add => {
            assert(rest.tape =~= at_once.tape);
        },
        Opcode::Sub => {
            assert(rest.tape =~= at_once.tape);
        },
        Opcode::MoveRight => {
            lemma_mod_bound(state.cursor + 1, size);
            lemma_add_mod_noop(state.cursor + 1, fewer as int, size);
            lemma_add_mod_noop_right((state.cursor + 1) % size, fewer as int, size);
        },
        Opcode::MoveLeft => {
            lemma_mod_bound(state.cursor - 1, size);
            lemma_sub_mod_noop(state.cursor - 1, fewer as int, size);
            lemma_sub_mod_noop_right((state.cursor - 1) % size, fewer as int, size);
        },
        _ => {
            assert(step_output(folded_run(opcode, 1), at_start(state)) + step_output(
                folded_run(opcode, fewer),
                at_start(first),
            ) =~= step_output(folded_run(opcode, count), at_start(state)));
        },
    }
}

/// Where a program holds `times` single instructions in a row, from `base`
/// on, running them from behind the first `done` of them does what one
/// instruction with the rest of the count does.
pub proof fn lemma_singles_run(
    program: Seq<Instruction>,
    base: int,
    opcode: Opcode,
    times: nat,
    done: nat,
    state: Snapshot,
    input: Seq<u8>,
    consumed: int,
)
    requires
        opcode.counts_run(),
        done <= times <= usize::MAX,
        0 <= base,
        base + times <= program.len(),
        forall|k: int|
            base <= k < base + times ==> #[trigger] program[k] == (Instruction {
                opcode,
                operand: 1,
            }),
        state.pc == base + done,
        0 <= state.cursor < state.tape.len(),
    ensures
        ({
            let left = (times - done) as nat;
            let feed = feed_at(input, consumed);
            let single = run_from(program, state, input, consumed, left);
            let at_once = step_state(folded_run(opcode, left), at_start(state), feed);
            &&& single.state.tape == at_once.tape
            &&& single.state.cursor == at_once.cursor
            &&& single.state.pc == base + times
            &&& single.output == step_output(folded_run(opcode, left), at_start(state))
            &&& single.consumed == consumed
            &&& single.fault is None
        }),
    decreases times - done,
{
    let left = (times - done) as nat;
    let feed = feed_at(input, consumed);
    if done < times {
        assert(program[state.pc] == (Instruction { opcode, operand: 1 }));
        let stepped = step_state(program, state, feed);
        let first = step_state(folded_run(opcode, 1), at_start(state), feed);
        lemma_run_of_one_more(opcode, left, state, feed);
        assert(stepped.tape == first.tape && stepped.cursor == first.cursor);
        assert(stepped.pc == base + done + 1);
        assert(at_start(stepped) == at_start(first));
        assert(step_output(program, state) == step_output(folded_run(opcode, 1), at_start(state)));
        lemma_singles_run(program, base, opcode, times, done + 1, stepped, input, consumed);
    } else {
        lemma_run_of_none(opcode, state, feed);
    }
}

/// The instruction that a run of `times` equal commands is folded into
/// does in one step what `times` instructions with operand one do in
/// `times` steps: both leave the same tape and the same cursor and write
/// the same bytes, and both have ended. This holds of the five commands
/// whose instruction counts its run, on every tape with a cell.
pub proof fn lemma_folded_instruction_runs_as_its_commands(
    opcode: Opcode,
    times: nat,
    state: Snapshot,
    input: Seq<u8>,
    consumed: int,
)
    requires
        opcode.counts_run(),
        1 <= times <= usize::MAX,
        state.pc == 0,
        0 <= state.cursor < state.tape.len(),
    ensures
        ({
            let at_once = run_from(folded_run(opcode, times), state, input, consumed, 1);
            let single = run_from(singles(opcode, times), state, input, consumed, times);
            &&& at_once.state.tape == single.state.tape
            &&& at_once.state.cursor == single.state.cursor
            &&& at_once.output == single.output
            &&& at_once.consumed == single.consumed
            &&& at_once.fault == single.fault
            &&& halted(folded_run(opcode, times), at_once.state)
            &&& halted(singles(opcode, times), single.state)
        }),
{
    lemma_singles_run(singles(opcode, times), 0, opcode, times, 0, state, input, consumed);
    let feed = feed_at(input, consumed);
    let program = folded_run(opcode, times);
    let stepped = step_state(program, state, feed);
    let rest = run_from(program, stepped, input, consumed, 0);
    assert(stepped.pc == 1);
    assert(run_from(program, state, input, consumed, 1).output =~= step_output(program, state)
        + rest.output);
    assert(step_output(program, state) + rest.output =~= step_output(program, state));
}

} // verus!
