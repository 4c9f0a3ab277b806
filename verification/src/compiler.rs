//! The compiler: one pass over the source that folds runs of equal commands
//! and links the two ends of every loop.

use vstd::prelude::*;
use crate::instruction::{Instruction, Opcode, COMMAND_LOOP_END, COMMAND_LOOP_START};
use crate::syntax::{
    bracket_depth, bracket_weight, closing_index, compile_result, encloses, first_never_closed,
    folded, folded_prefix, linked, nesting, never_closed, opening_index, run_instructions,
    run_length_at, unlinked, unmatched_close_at, well_linked, CompileError,
};

verus! {

/// What holds of the instructions emitted so far and of the stack of loops
/// that are still open: the stack lists the open loops from the outermost
/// to the innermost, and every other loop instruction names its partner.
spec fn linking(code: Seq<Instruction>, pending: Seq<usize>) -> bool {
    &&& forall|k: int| 0 <= k <= code.len() ==> #[trigger] nesting(code, k) >= 0
    &&& nesting(code, code.len() as int) == pending.len()
    &&& forall|d: int|
        0 <= d < pending.len() ==> never_closed(code, #[trigger] pending[d] as int) && nesting(
            code,
            pending[d] as int,
        ) == d
    &&& forall|i: int|
        0 <= i < code.len() && (#[trigger] code[i]).opcode is LoopStart ==> encloses(
            code,
            i,
            code[i].operand as int,
        ) || never_closed(code, i)
    &&& forall|i: int|
        0 <= i < code.len() && (#[trigger] code[i]).opcode is LoopEnd ==> encloses(
            code,
            code[i].operand as int,
            i,
        )
}

/// The depth of nesting after `upto` instructions depends on the opcodes of
/// those instructions only.
pub proof fn lemma_nesting_of_prefix(a: Seq<Instruction>, b: Seq<Instruction>, upto: int)
    requires
        0 <= upto <= a.len(),
        upto <= b.len(),
        forall|i: int| 0 <= i < upto ==> a[i].opcode == b[i].opcode,
    ensures
        nesting(a, upto) == nesting(b, upto),
    decreases upto,
{
    if upto > 0 {
        lemma_nesting_of_prefix(a, b, upto - 1);
    }
}

/// Code that agrees with a longer code on the opcodes nests as the longer
/// code does, as far as it goes.
pub proof fn lemma_nesting_agrees(a: Seq<Instruction>, b: Seq<Instruction>)
    requires
        a.len() <= b.len(),
        forall|i: int| 0 <= i < a.len() ==> a[i].opcode == b[i].opcode,
    ensures
        forall|k: int|
            #![trigger nesting(a, k)]
            #![trigger nesting(b, k)]
            0 <= k <= a.len() ==> nesting(a, k) == nesting(b, k),
{
    assert forall|k: int|
        #![trigger nesting(a, k)]
        #![trigger nesting(b, k)]
        0 <= k <= a.len() implies nesting(a, k) == nesting(b, k) by {
        lemma_nesting_of_prefix(a, b, k);
    }
}

/// A `LoopStart` is closed by one `LoopEnd` at most.
pub proof fn lemma_closing_is_unique(code: Seq<Instruction>, open: int, first: int, second: int)
    requires
        encloses(code, open, first),
        encloses(code, open, second),
    ensures
        first == second,
{
}

/// A `LoopEnd` closes one `LoopStart` at most.
pub proof fn lemma_opening_is_unique(code: Seq<Instruction>, first: int, second: int, close: int)
    requires
        encloses(code, first, close),
        encloses(code, second, close),
    ensures
        first == second,
{
}

/// Linking the loops of a program again, after its loop targets were taken
/// away, gives the program back, if each of its loop instructions named its
/// partner.
pub proof fn lemma_linked_restores(program: Seq<Instruction>)
    requires
        well_linked(program),
    ensures
        linked(unlinked(program)) == program,
{
    let bare = unlinked(program);
    lemma_nesting_agrees(program, bare);
    lemma_nesting_agrees(bare, program);
    assert forall|i: int| 0 <= i < program.len() implies linked(bare)[i] == program[i] by {
        if program[i].opcode is LoopStart {
            let close = program[i].operand as int;
            lemma_closing_is_unique(bare, i, close, closing_index(bare, i));
        } else if program[i].opcode is LoopEnd {
            let open = program[i].operand as int;
            lemma_opening_is_unique(bare, open, opening_index(bare, i), i);
        }
    }
}

/// Appending an instruction that is no end of a loop keeps the linking.
proof fn lemma_emit_plain(code: Seq<Instruction>, pending: Seq<usize>, instruction: Instruction)
    requires
        linking(code, pending),
        !instruction.opcode.is_loop(),
    ensures
        linking(code.push(instruction), pending),
{
    lemma_nesting_agrees(code, code.push(instruction));
}

/// Appending a `LoopStart` and pushing its index keeps the linking: the new
/// loop is the innermost open one.
proof fn lemma_emit_loop_start(code: Seq<Instruction>, pending: Seq<usize>)
    requires
        linking(code, pending),
        code.len() <= usize::MAX,
    ensures
        linking(
            code.push(Instruction { opcode: Opcode::LoopStart, operand: 0 }),
            pending.push(code.len() as usize),
        ),
{
    lemma_nesting_agrees(code, code.push(Instruction { opcode: Opcode::LoopStart, operand: 0 }));
}

/// Appending a `LoopEnd` for the innermost open loop, and naming each of the
/// two in the other, keeps the linking: the loop is closed, and the loops
/// around it stay open.
proof fn lemma_emit_loop_end(code: Seq<Instruction>, pending: Seq<usize>)
    requires
        linking(code, pending),
        pending.len() > 0,
        code.len() <= usize::MAX,
    ensures
        pending.last() < code.len(),
        linking(
            code.push(Instruction { opcode: Opcode::LoopEnd, operand: pending.last() }).update(
                pending.last() as int,
                Instruction { opcode: Opcode::LoopStart, operand: code.len() as usize },
            ),
            pending.drop_last(),
        ),
{
    let after = code.push(Instruction { opcode: Opcode::LoopEnd, operand: pending.last() }).update(
        pending.last() as int,
        Instruction { opcode: Opcode::LoopStart, operand: code.len() as usize },
    );
    lemma_nesting_agrees(code, after);
}

/// Appends the instruction of one run, if it has one, and links the loop
/// that a `]` closes. Returns `false`, and emits nothing, when the run is a
/// `]` and no loop is open.
fn emit_run(
    program: &mut Vec<Instruction>,
    loop_stack: &mut Vec<usize>,
    command: u8,
    length: usize,
) -> (emitted: bool)
    requires
        linking(old(program)@, old(loop_stack)@),
    ensures
        emitted == !(command == COMMAND_LOOP_END && old(loop_stack)@.len() == 0),
        emitted ==> {
            &&& linking(final(program)@, final(loop_stack)@)
            &&& unlinked(final(program)@) == unlinked(old(program)@) + run_instructions(
                command,
                length as nat,
            )
            &&& final(loop_stack)@.len() == old(loop_stack)@.len() + bracket_weight(command)
        },
{
    let ghost code = program@;
    let ghost pending = loop_stack@;
    match Opcode::from_command(command) {
        None => {
            true
        },
        Some(Opcode::LoopStart) => {
            let start = program.len();
            proof {
                lemma_emit_loop_start(code, pending);
            }
            loop_stack.push(start);
            program.push(Instruction { opcode: Opcode::LoopStart, operand: 0 });
            true
        },
        Some(Opcode::LoopEnd) => {
            match loop_stack.pop() {
                None => false,
                Some(start) => {
                    let end = program.len();
                    proof {
                        lemma_emit_loop_end(code, pending);
                    }
                    program.push(Instruction { opcode: Opcode::LoopEnd, operand: start });
                    program.set(start, Instruction { opcode: Opcode::LoopStart, operand: end });
                    assert(unlinked(program@) =~= unlinked(code) + run_instructions(
                        command,
                        length as nat,
                    ));
                    true
                },
            }
        },
        Some(opcode) => {
            let operand: usize = match opcode {
                Opcode::Input => 0,
                _ => length,
            };
            let instruction = Instruction { opcode, operand };
            proof {
                lemma_emit_plain(code, pending, instruction);
            }
            program.push(instruction);
            true
        },
    }
}


/// The length of the run that ends at `at` depends on the bytes up to `at`
/// only.
proof fn lemma_run_length_of_prefix(a: Seq<u8>, b: Seq<u8>, at: int)
    requires
        0 <= at < a.len(),
        at < b.len(),
        forall|i: int| 0 <= i <= at ==> a[i] == b[i],
    ensures
        run_length_at(a, at) == run_length_at(b, at),
    decreases at,
{
    if at > 0 {
        lemma_run_length_of_prefix(a, b, at - 1);
    }
}

/// A run that ends at `at` has `at + 1` bytes at most.
pub proof fn lemma_run_length_is_bounded(source: Seq<u8>, at: int)
    requires
        0 <= at,
    ensures
        1 <= run_length_at(source, at) <= at + 1,
    decreases at,
{
    if at > 0 {
        lemma_run_length_is_bounded(source, at - 1);
    }
}

/// The instructions of the runs that end before `upto` depend on the bytes
/// up to and including `upto` only.
proof fn lemma_folded_prefix_of_prefix(a: Seq<u8>, b: Seq<u8>, upto: int)
    requires
        upto < a.len(),
        upto < b.len(),
        forall|i: int| 0 <= i <= upto ==> a[i] == b[i],
    ensures
        folded_prefix(a, upto) == folded_prefix(b, upto),
    decreases upto,
{
    if upto > 0 {
        lemma_folded_prefix_of_prefix(a, b, upto - 1);
        lemma_run_length_of_prefix(a, b, upto - 1);
    }
}

/// The depth of the brackets among the first `upto` bytes depends on those
/// bytes only.
proof fn lemma_bracket_depth_of_prefix(a: Seq<u8>, b: Seq<u8>, upto: int)
    requires
        upto <= a.len(),
        upto <= b.len(),
        forall|i: int| 0 <= i < upto ==> a[i] == b[i],
    ensures
        bracket_depth(a, upto) == bracket_depth(b, upto),
    decreases upto,
{
    if upto > 0 {
        lemma_bracket_depth_of_prefix(a, b, upto - 1);
    }
}

/// A source has one first unmatched `]` at most.
proof fn lemma_unmatched_close_is_unique(source: Seq<u8>, first: int, second: int)
    requires
        unmatched_close_at(source, first),
        unmatched_close_at(source, second),
    ensures
        first == second,
{
}

/// The first unmatched `]` of the beginning of a source is the first
/// unmatched `]` of the whole source.
proof fn lemma_unmatched_close_persists(beginning: Seq<u8>, source: Seq<u8>, at: int)
    requires
        beginning.len() <= source.len(),
        forall|i: int| 0 <= i < beginning.len() ==> beginning[i] == source[i],
        unmatched_close_at(beginning, at),
    ensures
        unmatched_close_at(source, at),
{
    lemma_bracket_depth_of_prefix(beginning, source, at + 1);
    assert forall|k: int| 0 <= k <= at implies #[trigger] bracket_depth(source, k) >= 0 by {
        lemma_bracket_depth_of_prefix(beginning, source, k);
    }
}

/// The state of the compiler between two bytes of the source.
///
/// The scanner lags one run behind the bytes it has taken: the run that the
/// last byte belongs to is counted but not emitted, since the next byte may
/// extend it.
pub struct Scanner {
    previous: Option<u8>,
    run_length: usize,
    position: usize,
    program: Vec<Instruction>,
    loop_stack: Vec<usize>,
    consumed: Ghost<Seq<u8>>,
}

impl Scanner {
    #[verifier::type_invariant]
    closed spec fn scanning(self) -> bool {
        let text = self.consumed@;
        let count = text.len() as int;
        &&& self.position == count
        &&& match self.previous {
            None => count == 0 && self.run_length == 1,
            Some(last) => count > 0 && last == text[count - 1] && self.run_length == run_length_at(
                text,
                count - 1,
            ),
        }
        &&& unlinked(self.program@) == folded_prefix(text, count - 1)
        &&& linking(self.program@, self.loop_stack@)
        &&& self.loop_stack@.len() == bracket_depth(text, count - 1)
        &&& forall|k: int| 0 <= k < count ==> #[trigger] bracket_depth(text, k) >= 0
    }

    /// The bytes that the scanner has taken so far.
    pub closed spec fn consumed(self) -> Seq<u8> {
        self.consumed@
    }

    /// A scanner that has taken nothing yet.
    pub fn new() -> (scanner: Scanner)
        ensures
            scanner.consumed() == Seq::<u8>::empty(),
    {
        let program: Vec<Instruction> = Vec::new();
        let loop_stack: Vec<usize> = Vec::new();
        assert(unlinked(program@) =~= folded_prefix(Seq::<u8>::empty(), -1));
        Scanner {
            previous: None,
            run_length: 1,
            position: 0,
            program,
            loop_stack,
            consumed: Ghost(Seq::empty()),
        }
    }

    /// Takes the next byte of the source.
    ///
    /// The run before the byte is emitted if the byte does not extend it. The
    /// scan fails when that run is a `]` that closes no loop; the error
    /// holds the number of bytes taken before this one.
    pub fn feed(self, byte: u8) -> (result: Result<Scanner, CompileError>)
        requires
            self.consumed().len() < usize::MAX,
        ensures
            match result {
                Ok(next) => {
                    &&& next.consumed() == self.consumed().push(byte)
                    &&& !unmatched_close_at(next.consumed(), self.consumed().len() - 1)
                },
                Err(error) => {
                    &&& unmatched_close_at(self.consumed().push(byte), self.consumed().len() - 1)
                    &&& error == (CompileError::UnmatchedClose {
                        position: self.consumed().len() as usize,
                    })
                },
            },
    {
        proof {
            use_type_invariant(&self);
        }
        let ghost before = self.consumed@;
        let ghost after = before.push(byte);
        let ghost count = before.len() as int;
        let Scanner { previous, run_length, position, program, loop_stack, consumed: _ } = self;
        let mut program = program;
        let mut loop_stack = loop_stack;
        match previous {
            None => {
                Ok(
                    Scanner {
                        previous: Some(byte),
                        run_length: 1,
                        position: 1,
                        program,
                        loop_stack,
                        consumed: Ghost(after),
                    },
                )
            },
            Some(last) => {
                proof {
                    lemma_run_length_of_prefix(before, after, count - 1);
                    lemma_run_length_is_bounded(before, count - 1);
                    lemma_folded_prefix_of_prefix(before, after, count - 1);
                    lemma_bracket_depth_of_prefix(before, after, count - 1);
                    assert forall|k: int| 0 <= k < count implies #[trigger] bracket_depth(
                        after,
                        k,
                    ) >= 0 by {
                        lemma_bracket_depth_of_prefix(before, after, k);
                    }
                }
                if last == byte && byte != COMMAND_LOOP_START && byte != COMMAND_LOOP_END {
                    Ok(
                        Scanner {
                            previous: Some(byte),
                            run_length: run_length + 1,
                            position: position + 1,
                            program,
                            loop_stack,
                            consumed: Ghost(after),
                        },
                    )
                } else {
                    let emitted = emit_run(&mut program, &mut loop_stack, last, run_length);
                    if !emitted {
                        return Err(CompileError::UnmatchedClose { position });
                    }
                    Ok(
                        Scanner {
                            previous: Some(byte),
                            run_length: 1,
                            position: position + 1,
                            program,
                            loop_stack,
                            consumed: Ghost(after),
                        },
                    )
                }
            },
        }
    }

    /// Ends the scan: emits the run that was still counted, and gives the
    /// program, or the error if a loop is left open or a last `]` closes
    /// none.
    pub fn finish(self) -> (result: Result<Vec<Instruction>, CompileError>)
        ensures
            match result {
                Ok(program) => {
                    &&& compile_result(self.consumed()) == Ok::<Seq<Instruction>, CompileError>(
                        program@,
                    )
                    &&& well_linked(program@)
                },
                Err(error) => compile_result(self.consumed()) == Err::<
                    Seq<Instruction>,
                    CompileError,
                >(error),
            },
    {
        proof {
            use_type_invariant(&self);
        }
        let ghost text = self.consumed@;
        let ghost count = text.len() as int;
        let Scanner { previous, run_length, position, program, loop_stack, consumed: _ } = self;
        let mut program = program;
        let mut loop_stack = loop_stack;
        match previous {
            None => {
                assert(linked(folded(text)) =~= program@);
                Ok(program)
            },
            Some(last) => {
                let emitted = emit_run(&mut program, &mut loop_stack, last, run_length);
                if !emitted {
                    proof {
                        lemma_unmatched_close_is_unique(
                            text,
                            count - 1,
                            choose|at: int| unmatched_close_at(text, at),
                        );
                    }
                    return Err(CompileError::UnmatchedClose { position });
                }
                let ghost bare = unlinked(program@);
                proof {
                    lemma_nesting_agrees(program@, bare);
                    lemma_nesting_agrees(bare, program@);
                }
                if loop_stack.len() > 0 {
                    let oldest = loop_stack[0];
                    assert(first_never_closed(bare, oldest as int));
                    return Err(CompileError::UnmatchedOpen { position: oldest });
                }
                proof {
                    lemma_linked_restores(program@);
                }
                Ok(program)
            },
        }
    }
}

/// Compiles a source text.
///
/// Runs of equal commands are folded into one instruction each, bytes that
/// are no command are skipped, and each loop instruction gets the index of
/// its partner. A source whose brackets do not match has no program.
pub fn compile(source: &[u8]) -> (result: Result<Vec<Instruction>, CompileError>)
    ensures
        match result {
            Ok(program) => {
                &&& compile_result(source@) == Ok::<Seq<Instruction>, CompileError>(program@)
                &&& well_linked(program@)
            },
            Err(error) => compile_result(source@) == Err::<Seq<Instruction>, CompileError>(error),
        },
{
    let mut scanner = Scanner::new();
    let mut index: usize = 0;
    while index < source.len()
        invariant
            index <= source.len(),
            scanner.consumed() == source@.take(index as int),
        decreases source.len() - index,
    {
        let ghost before = scanner.consumed();
        match scanner.feed(source[index]) {
            Ok(next) => {
                scanner = next;
            },
            Err(error) => {
                proof {
                    let beginning = before.push(source@[index as int]);
                    lemma_unmatched_close_persists(beginning, source@, index - 1);
                    lemma_unmatched_close_is_unique(
                        source@,
                        index - 1,
                        choose|at: int| unmatched_close_at(source@, at),
                    );
                }
                return Err(error);
            },
        }
        index += 1;
    }
    assert(source@.take(index as int) =~= source@);
    scanner.finish()
}

} // verus!
