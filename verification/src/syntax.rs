//! What a source text means: the instructions it folds to, how its loops
//! nest, and the program or the error that compiling it gives.

use vstd::prelude::*;
use crate::instruction::{Instruction, Opcode, COMMAND_LOOP_END, COMMAND_LOOP_START};

verus! {

/// Why a source text has no program.
#[derive(Clone, Copy, Debug, PartialEq, Eq)]
pub enum CompileError {
    /// A `]` closes no loop. `position` is the number of bytes of the source
    /// up to and including that `]`.
    UnmatchedClose { position: usize },
    /// A `[` is never closed. `position` is the index that the instruction of
    /// the first such `[` has among the instructions of the source.
    UnmatchedOpen { position: usize },
}

/// Whether the byte opens or closes a loop. Such a byte is never folded
/// with its neighbours.
pub open spec fn is_bracket(command: u8) -> bool {
    command == COMMAND_LOOP_START || command == COMMAND_LOOP_END
}

/// By how much the byte changes the depth of loop nesting.
pub open spec fn bracket_weight(command: u8) -> int {
    if command == COMMAND_LOOP_START {
        1
    } else if command == COMMAND_LOOP_END {
        -1
    } else {
        0
    }
}

/// Whether the run of equal bytes that holds position `at` ends there: the
/// next byte differs, or there is none, or the byte is a bracket.
pub open spec fn run_ends_at(source: Seq<u8>, at: int) -> bool {
    at + 1 >= source.len() || source[at + 1] != source[at] || is_bracket(source[at])
}

/// The number of bytes of the run that holds position `at`, counted from the
/// start of the run up to and including `at`.
pub open spec fn run_length_at(source: Seq<u8>, at: int) -> nat
    decreases at,
{
    if at > 0 && source[at - 1] == source[at] && !is_bracket(source[at]) {
        1 + run_length_at(source, at - 1)
    } else {
        1
    }
}

/// The instructions that a run of `length` bytes equal to `command` gives:
/// none for a comment, and otherwise one, whose loop target is not set yet.
pub open spec fn run_instructions(command: u8, length: nat) -> Seq<Instruction> {
    match Opcode::of_command(command) {
        None => Seq::empty(),
        Some(opcode) => seq![
            Instruction {
                opcode,
                operand: if opcode.counts_run() {
                    length as usize
                } else {
                    0
                },
            },
        ],
    }
}

/// The instructions of the runs that end before position `upto`, in the
/// order of the source.
pub open spec fn folded_prefix(source: Seq<u8>, upto: int) -> Seq<Instruction>
    decreases upto,
{
    if upto <= 0 {
        Seq::empty()
    } else if run_ends_at(source, upto - 1) {
        folded_prefix(source, upto - 1) + run_instructions(
            source[upto - 1],
            run_length_at(source, upto - 1),
        )
    } else {
        folded_prefix(source, upto - 1)
    }
}

/// The instructions of a source text before its loops are linked: one for
/// each run of a command, none for comments.
pub open spec fn folded(source: Seq<u8>) -> Seq<Instruction> {
    folded_prefix(source, source.len() as int)
}

/// The number of `[` less the number of `]` among the first `upto` bytes.
pub open spec fn bracket_depth(source: Seq<u8>, upto: int) -> int
    decreases upto,
{
    if upto <= 0 {
        0
    } else {
        bracket_depth(source, upto - 1) + bracket_weight(source[upto - 1])
    }
}

/// Whether the byte at `at` is the first `]` of the source that closes no
/// loop.
pub open spec fn unmatched_close_at(source: Seq<u8>, at: int) -> bool {
    &&& 0 <= at < source.len()
    &&& bracket_depth(source, at + 1) < 0
    &&& forall|k: int| 0 <= k <= at ==> #[trigger] bracket_depth(source, k) >= 0
}

/// The depth of loop nesting after the first `upto` instructions.
pub open spec fn nesting(code: Seq<Instruction>, upto: int) -> int
    decreases upto,
{
    if upto <= 0 {
        0
    } else {
        nesting(code, upto - 1) + code[upto - 1].opcode.depth_change()
    }
}

/// Whether the loops of the code match: the nesting is never negative, and
/// it ends at zero.
pub open spec fn balanced(code: Seq<Instruction>) -> bool {
    &&& nesting(code, code.len() as int) == 0
    &&& forall|m: int| 0 <= m <= code.len() ==> #[trigger] nesting(code, m) >= 0
}

/// Whether the `LoopStart` at `open` and the `LoopEnd` at `close` are the
/// two ends of one loop: the nesting is as deep after `close` as it was
/// before `open`, and deeper everywhere between.
pub open spec fn encloses(code: Seq<Instruction>, open: int, close: int) -> bool {
    &&& 0 <= open < close < code.len()
    &&& code[open].opcode is LoopStart
    &&& code[close].opcode is LoopEnd
    &&& nesting(code, close + 1) == nesting(code, open)
    &&& forall|k: int| open < k <= close ==> #[trigger] nesting(code, k) > nesting(code, open)
}

/// Whether the loop that the `LoopStart` at `open` begins is still open at
/// the end of the code.
pub open spec fn never_closed(code: Seq<Instruction>, open: int) -> bool {
    &&& 0 <= open < code.len()
    &&& code[open].opcode is LoopStart
    &&& forall|k: int| open < k <= code.len() ==> #[trigger] nesting(code, k) > nesting(code, open)
}

/// Whether `open` is the first `LoopStart` that is never closed.
pub open spec fn first_never_closed(code: Seq<Instruction>, open: int) -> bool {
    &&& never_closed(code, open)
    &&& forall|earlier: int| 0 <= earlier < open ==> !never_closed(code, earlier)
}

/// Whether every loop instruction names its partner: the operand of each
/// `LoopStart` is the index of the `LoopEnd` that closes it, and the operand
/// of each `LoopEnd` is the index of the `LoopStart` that it closes.
pub open spec fn well_linked(code: Seq<Instruction>) -> bool {
    &&& forall|i: int|
        0 <= i < code.len() && (#[trigger] code[i]).opcode is LoopStart ==> encloses(
            code,
            i,
            code[i].operand as int,
        )
    &&& forall|i: int|
        0 <= i < code.len() && (#[trigger] code[i]).opcode is LoopEnd ==> encloses(
            code,
            code[i].operand as int,
            i,
        )
}

/// The instruction with its loop target taken away.
pub open spec fn without_target(instruction: Instruction) -> Instruction {
    if instruction.opcode.is_loop() {
        Instruction { opcode: instruction.opcode, operand: 0 }
    } else {
        instruction
    }
}

/// The code with every loop target taken away.
pub open spec fn unlinked(code: Seq<Instruction>) -> Seq<Instruction> {
    Seq::new(code.len(), |i: int| without_target(code[i]))
}

/// The index of the `LoopEnd` that closes the loop opened at `open`.
pub open spec fn closing_index(code: Seq<Instruction>, open: int) -> int {
    choose|close: int| encloses(code, open, close)
}

/// The index of the `LoopStart` of the loop that `close` closes.
pub open spec fn opening_index(code: Seq<Instruction>, close: int) -> int {
    choose|open: int| encloses(code, open, close)
}

/// The code with the operand of every loop instruction set to the index of
/// its partner.
pub open spec fn linked(code: Seq<Instruction>) -> Seq<Instruction> {
    Seq::new(
        code.len(),
        |i: int|
            match code[i].opcode {
                Opcode::LoopStart => Instruction {
                    opcode: Opcode::LoopStart,
                    operand: closing_index(code, i) as usize,
                },
                Opcode::LoopEnd => Instruction {
                    opcode: Opcode::LoopEnd,
                    operand: opening_index(code, i) as usize,
                },
                _ => code[i],
            },
    )
}

/// What compiling a source text gives.
///
/// A `]` that closes no loop is an error, reported for the first such `]`.
/// Otherwise a `[` that is never closed is an error, reported for the first
/// such `[`. Otherwise the program is the folded source with its loops
/// linked.
pub open spec fn compile_result(source: Seq<u8>) -> Result<Seq<Instruction>, CompileError> {
    if exists|at: int| unmatched_close_at(source, at) {
        Err(
            CompileError::UnmatchedClose {
                position: ((choose|at: int| unmatched_close_at(source, at)) + 1) as usize,
            },
        )
    } else if bracket_depth(source, source.len() as int) > 0 {
        Err(
            CompileError::UnmatchedOpen {
                position: (choose|open: int| first_never_closed(folded(source), open)) as usize,
            },
        )
    } else {
        Ok(linked(folded(source)))
    }
}

} // verus!
