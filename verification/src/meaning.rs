//! Folding keeps the meaning of a source: the compiled program does what
//! the source does command by command.

use vstd::prelude::*;
use crate::compiler::lemma_run_length_is_bounded;
use crate::instruction::{Instruction, Opcode, COMMAND_INPUT};
use crate::machine::{halted, run_from, Snapshot};
use crate::pairing::{lemma_compiled_is_balanced, lemma_folded_is_no_longer};
use crate::plain::{
    lemma_start_is_monotone, lemma_unfolded_run, single, start, unfolded, unfolded_prefix, width,
};
use crate::syntax::{
    compile_result, folded, folded_prefix, linked, run_ends_at, run_instructions, run_length_at,
};

verus! {

/// The instructions of the first `upto` bytes of the source without
/// folding: one for each command, with no loop linked.
pub open spec fn spelled_prefix(source: Seq<u8>, upto: int) -> Seq<Instruction>
    decreases upto,
{
    if upto <= 0 {
        Seq::empty()
    } else {
        spelled_prefix(source, upto - 1) + run_instructions(source[upto - 1], 1)
    }
}

/// The program of the source without folding: one instruction for each
/// command, with the loops linked. A machine that runs it executes the
/// source command by command.
pub open spec fn spelled(source: Seq<u8>) -> Seq<Instruction> {
    linked(spelled_prefix(source, source.len() as int))
}

/// Whether no input command follows an input command at once. Folding
/// makes one read of such a run, so it does not keep its meaning.
pub open spec fn reads_one_by_one(source: Seq<u8>) -> bool {
    forall|i: int|
        0 <= i && i + 1 < source.len() ==> !(#[trigger] source[i] == COMMAND_INPUT && source[i + 1]
            == COMMAND_INPUT)
}

/// The single instructions of the run that is not ended before `upto`.
pub open spec fn pending(source: Seq<u8>, upto: int) -> Seq<Instruction> {
    if upto <= 0 || run_ends_at(source, upto - 1) {
        Seq::empty()
    } else {
        match Opcode::of_command(source[upto - 1]) {
            None => Seq::empty(),
            Some(opcode) => Seq::new(
                run_length_at(source, upto - 1),
                |t: int| Instruction { opcode, operand: 1 },
            ),
        }
    }
}

/// The unfolded code of a beginning of the code is the unfolded code of
/// the same beginning of longer code.
proof fn lemma_unfolded_of_prefix(a: Seq<Instruction>, b: Seq<Instruction>, upto: int)
    requires
        upto <= a.len(),
        upto <= b.len(),
        forall|i: int| 0 <= i < upto ==> a[i] == b[i],
    ensures
        unfolded_prefix(a, upto) == unfolded_prefix(b, upto),
    decreases upto,
{
    if upto > 0 {
        lemma_unfolded_of_prefix(a, b, upto - 1);
    }
}

/// Unfolding code with one more instruction appends the single
/// instructions of that instruction.
proof fn lemma_unfolded_push(code: Seq<Instruction>, instruction: Instruction)
    ensures
        unfolded(code.push(instruction)) == unfolded(code) + Seq::new(
            width(instruction),
            |t: int| single(instruction),
        ),
{
    lemma_unfolded_of_prefix(code.push(instruction), code, code.len() as int);
}

/// Spelling a beginning of the source gives the unfolded instructions of
/// the runs that have ended, and then the single instructions of the run
/// that has not.
proof fn lemma_spelled_is_unfolded(source: Seq<u8>, upto: int)
    requires
        0 <= upto <= source.len() <= usize::MAX,
        reads_one_by_one(source),
    ensures
        spelled_prefix(source, upto) == unfolded(folded_prefix(source, upto)) + pending(
            source,
            upto,
        ),
    decreases upto,
{
    if upto > 0 {
        let at = upto - 1;
        let command = source[at];
        let length = run_length_at(source, at);
        let earlier = folded_prefix(source, at);
        lemma_spelled_is_unfolded(source, at);
        lemma_run_length_is_bounded(source, at);
        if at > 0 {
            lemma_run_length_is_bounded(source, at - 1);
            assert(!(source[at - 1] == COMMAND_INPUT && source[at] == COMMAND_INPUT));
        }
        match Opcode::of_command(command) {
            None => {
                assert(folded_prefix(source, upto) =~= earlier);
                assert(spelled_prefix(source, upto) =~= unfolded(earlier) + pending(
                    source,
                    upto,
                ));
            },
            Some(opcode) => {
                let instruction = run_instructions(command, length)[0];
                if run_ends_at(source, at) {
                    assert(folded_prefix(source, upto) =~= earlier.push(instruction));
                    lemma_unfolded_push(earlier, instruction);
                    assert(pending(source, at) + run_instructions(command, 1) =~= Seq::new(
                        width(instruction),
                        |t: int| single(instruction),
                    ));
                    assert(spelled_prefix(source, upto) =~= unfolded(
                        folded_prefix(source, upto),
                    ) + pending(source, upto));
                } else {
                    assert(pending(source, at) + run_instructions(command, 1) =~= pending(
                        source,
                        upto,
                    ));
                    assert(spelled_prefix(source, upto) =~= unfolded(
                        folded_prefix(source, upto),
                    ) + pending(source, upto));
                }
            },
        }
    } else {
        assert(spelled_prefix(source, upto) =~= unfolded(folded_prefix(source, upto)) + pending(
            source,
            upto,
        ));
    }
}

/// Spelling gives one instruction for each byte at most.
proof fn lemma_spelled_is_no_longer(source: Seq<u8>, upto: int)
    requires
        0 <= upto,
    ensures
        spelled_prefix(source, upto).len() <= upto,
    decreases upto,
{
    if upto > 0 {
        lemma_spelled_is_no_longer(source, upto - 1);
    }
}

/// Folding keeps the meaning of a source in which no input command follows
/// another at once. However far the compiled program has run from its
/// start, on a tape with a cell, the program that executes the source
/// command by command comes after some number of steps to the same tape
/// and the same cursor, with the same bytes read and written; and where the
/// compiled program has ended, so has the other.
pub proof fn lemma_folding_keeps_meaning(
    source: Seq<u8>,
    state: Snapshot,
    input: Seq<u8>,
    fuel: nat,
) -> (steps: nat)
    requires
        source.len() <= usize::MAX,
        compile_result(source) is Ok,
        reads_one_by_one(source),
        state.pc == 0,
        0 <= state.cursor < state.tape.len(),
    ensures
        ({
            let program = compile_result(source).unwrap();
            let folded = run_from(program, state, input, 0, fuel);
            let plain = run_from(spelled(source), state, input, 0, steps);
            &&& plain.state.tape == folded.state.tape
            &&& plain.state.cursor == folded.state.cursor
            &&& plain.output == folded.output
            &&& plain.consumed == folded.consumed
            &&& plain.fault is None
            &&& folded.fault is None
            &&& halted(program, folded.state) ==> halted(spelled(source), plain.state)
        }),
{
    let count = source.len() as int;
    let code = folded(source);
    lemma_compiled_is_balanced(source);
    lemma_spelled_is_unfolded(source, count);
    lemma_spelled_is_no_longer(source, count);
    assert(spelled_prefix(source, count) =~= unfolded(code));
    lemma_folded_is_no_longer(source, count);
    let steps = lemma_unfolded_run(code, state, input, 0, fuel);
    let folded = run_from(linked(code), state, input, 0, fuel);
    lemma_start_is_monotone(code, folded.state.pc, code.len() as int);
    assert(start(code, 0) == 0);
    steps
}

} // verus!
