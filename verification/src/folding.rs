//! What folding does to the simplest sources: one command repeated, and
//! text without commands.

use vstd::prelude::*;
use crate::instruction::{Instruction, Opcode, COMMAND_INPUT};
use crate::machine::{run_from, Snapshot, Trace};
use crate::syntax::{
    bracket_depth, compile_result, folded, folded_prefix, is_bracket, linked, run_length_at,
    unmatched_close_at, CompileError,
};

verus! {

/// The source that is `command`, `times` times.
pub open spec fn repeated(command: u8, times: nat) -> Seq<u8> {
    Seq::new(times, |i: int| command)
}

/// In a source without brackets the depth of the brackets is zero
/// everywhere.
proof fn lemma_depth_without_brackets(source: Seq<u8>, upto: int)
    requires
        upto <= source.len(),
        forall|i: int| 0 <= i < source.len() ==> !is_bracket(#[trigger] source[i]),
    ensures
        bracket_depth(source, upto) == 0,
    decreases upto,
{
    if upto > 0 {
        lemma_depth_without_brackets(source, upto - 1);
    }
}

/// A source without brackets folds to instructions without loops.
proof fn lemma_folded_without_brackets(source: Seq<u8>, upto: int)
    requires
        upto <= source.len(),
        forall|i: int| 0 <= i < source.len() ==> !is_bracket(#[trigger] source[i]),
    ensures
        forall|j: int|
            0 <= j < folded_prefix(source, upto).len() ==> !(#[trigger] folded_prefix(
                source,
                upto,
            )[j]).opcode.is_loop(),
    decreases upto,
{
    if upto > 0 {
        lemma_folded_without_brackets(source, upto - 1);
    }
}

/// A source without brackets always compiles, to the instructions that it
/// folds to.
pub proof fn lemma_without_brackets_compiles(source: Seq<u8>)
    requires
        forall|i: int| 0 <= i < source.len() ==> !is_bracket(#[trigger] source[i]),
    ensures
        compile_result(source) == Ok::<Seq<Instruction>, CompileError>(folded(source)),
{
    let count = source.len() as int;
    assert forall|at: int| !unmatched_close_at(source, at) by {
        if 0 <= at < count {
            lemma_depth_without_brackets(source, at + 1);
        }
    }
    lemma_depth_without_brackets(source, count);
    lemma_folded_without_brackets(source, count);
    assert(linked(folded(source)) =~= folded(source));
}

/// In a source that repeats one command, the run that ends at `at` began
/// with the source.
proof fn lemma_run_grows(command: u8, times: nat, at: int)
    requires
        0 <= at < times,
        !is_bracket(command),
    ensures
        run_length_at(repeated(command, times), at) == at + 1,
    decreases at,
{
    if at > 0 {
        lemma_run_grows(command, times, at - 1);
    }
}

/// In a source that repeats one command, no run ends before the last byte.
proof fn lemma_run_is_pending(command: u8, times: nat, upto: int)
    requires
        upto < times,
        !is_bracket(command),
    ensures
        folded_prefix(repeated(command, times), upto) == Seq::<Instruction>::empty(),
    decreases upto,
{
    if upto > 0 {
        lemma_run_is_pending(command, times, upto - 1);
    }
}

/// A command that is no bracket, repeated `times` times and nothing else,
/// compiles to one instruction. Its operand is `times`, but for the input
/// command, whose operand is zero: the length of a run of input commands is
/// lost.
pub proof fn lemma_repeated_command_folds(command: u8, times: nat)
    requires
        1 <= times <= usize::MAX,
        Opcode::of_command(command) is Some,
        !is_bracket(command),
    ensures
        compile_result(repeated(command, times)) == Ok::<Seq<Instruction>, CompileError>(
            seq![
                Instruction {
                    opcode: Opcode::of_command(command).unwrap(),
                    operand: if command == COMMAND_INPUT {
                        0
                    } else {
                        times as usize
                    },
                },
            ],
        ),
{
    let source = repeated(command, times);
    lemma_without_brackets_compiles(source);
    lemma_run_is_pending(command, times, times - 1);
    lemma_run_grows(command, times, times - 1);
}

/// Comments fold to no instruction.
proof fn lemma_comments_fold_to_nothing(source: Seq<u8>, upto: int)
    requires
        upto <= source.len(),
        forall|i: int| 0 <= i < source.len() ==> Opcode::of_command(#[trigger] source[i]) is None,
    ensures
        folded_prefix(source, upto) == Seq::<Instruction>::empty(),
    decreases upto,
{
    if upto > 0 {
        lemma_comments_fold_to_nothing(source, upto - 1);
    }
}

/// A source that holds no command compiles to the empty program, and the
/// empty program does nothing, whatever the tape, one without cells
/// included: it has ended before its first step, with nothing read, nothing
/// written and no error.
pub proof fn lemma_comments_do_nothing(
    source: Seq<u8>,
    state: Snapshot,
    input: Seq<u8>,
    fuel: nat,
)
    requires
        forall|i: int| 0 <= i < source.len() ==> Opcode::of_command(#[trigger] source[i]) is None,
        state.pc >= 0,
    ensures
        compile_result(source) == Ok::<Seq<Instruction>, CompileError>(Seq::empty()),
        run_from(Seq::empty(), state, input, 0, fuel) == (Trace {
            state,
            consumed: 0,
            output: Seq::empty(),
            fault: None,
        }),
{
    lemma_without_brackets_compiles(source);
    lemma_comments_fold_to_nothing(source, source.len() as int);
}

} // verus!
