//! The virtual machine: a program, a circular tape of byte cells with a
//! cursor, and the index of the next instruction.
//!
//! The machine itself reads and writes nothing. Each step says what is to be
//! written, or that a byte is wanted, and the caller answers. `Machine::run`
//! does so from a buffer of input bytes into a buffer of output bytes.

use vstd::prelude::*;
use vstd::arithmetic::div_mod::{lemma_add_mod_noop_right, lemma_sub_mod_noop_right};
use vstd::pervasive::unreached;
use crate::cell::{
    bfi_next_cell, bfi_prev_cell, bfi_u8_add, bfi_u8_sub, cell_to_the_left, cell_to_the_right,
    wrapped_difference, wrapped_sum,
};
use crate::instruction::{Instruction, Opcode};

verus! {

/// Why a machine cannot go on.
#[derive(Clone, Copy, Debug, PartialEq, Eq)]
pub enum RuntimeError {
    /// The next instruction reads or writes the current cell, and the tape
    /// has no cell.
    TapeBounds,
    /// Reading the input failed for a reason other than its end.
    InputFailed,
}

/// What the caller hands to a step of the machine.
#[derive(Clone, Copy, Debug, PartialEq, Eq)]
pub enum Feed {
    /// Nothing was read.
    Nothing,
    /// The next byte of the input. A zero byte is a byte like any other.
    Byte(u8),
    /// The input has ended. The machine leaves the current cell as it is.
    EndOfInput,
    /// Reading the input failed.
    Failure,
}

/// What a step of the machine asks of the caller.
#[derive(Clone, Copy, Debug, PartialEq, Eq)]
pub enum Effect {
    /// Nothing: an instruction was executed.
    Continue,
    /// Write `byte` to the output, `count` times.
    Output { byte: u8, count: usize },
    /// The next instruction reads a byte and none was handed over: write out
    /// what is buffered, read, and step again with what was read.
    AwaitInput,
    /// The program has ended. Nothing was executed.
    Halted,
}

/// The state of a machine: the cells of the tape, the position of the
/// cursor, and the index of the next instruction.
pub struct Snapshot {
    pub tape: Seq<u8>,
    pub cursor: int,
    pub pc: int,
}

/// Where execution goes on after a jump to `target` in a program of
/// `length` instructions: behind the target, or to the end of the program
/// if the target is no instruction of it.
pub open spec fn landing(target: int, length: int) -> int {
    if target < length {
        target + 1
    } else {
        length
    }
}

/// Whether the program has ended in the given state.
pub open spec fn halted(program: Seq<Instruction>, state: Snapshot) -> bool {
    state.pc >= program.len()
}

/// Whether the next step fails for want of a cell: the program has not
/// ended, its next instruction reads or writes the current cell, and the
/// tape has no cell.
pub open spec fn lacks_cell(program: Seq<Instruction>, state: Snapshot) -> bool {
    &&& !halted(program, state)
    &&& state.tape.len() == 0
    &&& program[state.pc].opcode.touches_cell()
}

/// The state after one step from `before`, where `feed` is what the caller
/// handed over. A halted machine stays as it is, and so does a machine that
/// lacks a cell or that wants a byte and gets none. On a tape without cells
/// a move leaves the cursor where it is.
pub open spec fn step_state(program: Seq<Instruction>, before: Snapshot, feed: Feed) -> Snapshot {
    if halted(program, before) || lacks_cell(program, before) {
        before
    } else {
        let instruction = program[before.pc];
        let operand = instruction.operand as int;
        let cell = before.tape[before.cursor];
        let size = before.tape.len() as int;
        let next = before.pc + 1;
        let target = landing(operand, program.len() as int);
        match instruction.opcode {
            Opcode::Add => Snapshot {
                tape: before.tape.update(before.cursor, wrapped_sum(cell, operand)),
                cursor: before.cursor,
                pc: next,
            },
            Opcode::Sub => Snapshot {
                tape: before.tape.update(before.cursor, wrapped_difference(cell, operand)),
                cursor: before.cursor,
                pc: next,
            },
            Opcode::MoveRight => Snapshot {
                tape: before.tape,
                cursor: if size > 0 {
                    cell_to_the_right(before.cursor, operand, size)
                } else {
                    before.cursor
                },
                pc: next,
            },
            Opcode::MoveLeft => Snapshot {
                tape: before.tape,
                cursor: if size > 0 {
                    cell_to_the_left(before.cursor, operand, size)
                } else {
                    before.cursor
                },
                pc: next,
            },
            Opcode::LoopStart => Snapshot {
                tape: before.tape,
                cursor: before.cursor,
                pc: if cell == 0 {
                    target
                } else {
                    next
                },
            },
            Opcode::LoopEnd => Snapshot {
                tape: before.tape,
                cursor: before.cursor,
                pc: if cell != 0 {
                    target
                } else {
                    next
                },
            },
            Opcode::Output => Snapshot { tape: before.tape, cursor: before.cursor, pc: next },
            Opcode::Input => match feed {
                Feed::Byte(byte) => Snapshot {
                    tape: before.tape.update(before.cursor, byte),
                    cursor: before.cursor,
                    pc: next,
                },
                Feed::EndOfInput => Snapshot {
                    tape: before.tape,
                    cursor: before.cursor,
                    pc: next,
                },
                Feed::Nothing => before,
                Feed::Failure => before,
            },
        }
    }
}

/// What one step from `before` asks of the caller, or the error it ends in.
pub open spec fn step_effect(program: Seq<Instruction>, before: Snapshot, feed: Feed) -> Result<
    Effect,
    RuntimeError,
> {
    if halted(program, before) {
        Ok(Effect::Halted)
    } else if lacks_cell(program, before) {
        Err(RuntimeError::TapeBounds)
    } else {
        let instruction = program[before.pc];
        match instruction.opcode {
            Opcode::Output => Ok(
                Effect::Output { byte: before.tape[before.cursor], count: instruction.operand },
            ),
            Opcode::Input => match feed {
                Feed::Nothing => Ok(Effect::AwaitInput),
                Feed::Failure => Err(RuntimeError::InputFailed),
                _ => Ok(Effect::Continue),
            },
            _ => Ok(Effect::Continue),
        }
    }
}

/// The bytes that one step from `before` writes.
pub open spec fn step_output(program: Seq<Instruction>, before: Snapshot) -> Seq<u8> {
    if !halted(program, before) && !lacks_cell(program, before)
        && program[before.pc].opcode is Output {
        Seq::new(program[before.pc].operand as nat, |i: int| before.tape[before.cursor])
    } else {
        Seq::empty()
    }
}

/// What the caller hands to a step when the input is a buffer of which
/// `consumed` bytes were read already.
pub open spec fn feed_at(input: Seq<u8>, consumed: int) -> Feed {
    if 0 <= consumed < input.len() {
        Feed::Byte(input[consumed])
    } else {
        Feed::EndOfInput
    }
}

/// Whether the next step reads a byte of the input buffer.
pub open spec fn reads_byte(
    program: Seq<Instruction>,
    state: Snapshot,
    input: Seq<u8>,
    consumed: int,
) -> bool {
    &&& !halted(program, state)
    &&& !lacks_cell(program, state)
    &&& program[state.pc].opcode is Input
    &&& consumed < input.len()
}

/// Where a run has come to: the state of the machine, the number of input
/// bytes read, the bytes written, and the error that stopped the run, if
/// one did.
pub struct Trace {
    pub state: Snapshot,
    pub consumed: int,
    pub output: Seq<u8>,
    pub fault: Option<RuntimeError>,
}

/// The run of `program` from `state` that takes its input from a buffer and
/// stops when the program ends, after `fuel` instructions, or at the first
/// instruction that lacks a cell.
pub open spec fn run_from(
    program: Seq<Instruction>,
    state: Snapshot,
    input: Seq<u8>,
    consumed: int,
    fuel: nat,
) -> Trace
    decreases fuel,
{
    if fuel == 0 || halted(program, state) {
        Trace { state, consumed, output: Seq::empty(), fault: None }
    } else if lacks_cell(program, state) {
        Trace { state, consumed, output: Seq::empty(), fault: Some(RuntimeError::TapeBounds) }
    } else {
        let rest = run_from(
            program,
            step_state(program, state, feed_at(input, consumed)),
            input,
            if reads_byte(program, state, input, consumed) {
                consumed + 1
            } else {
                consumed
            },
            (fuel - 1) as nat,
        );
        Trace {
            state: rest.state,
            consumed: rest.consumed,
            output: step_output(program, state) + rest.output,
            fault: rest.fault,
        }
    }
}

/// How a run from a buffer of input ended.
#[derive(Debug, PartialEq, Eq)]
pub struct Report {
    /// The bytes that the program wrote.
    pub output: Vec<u8>,
    /// The number of input bytes that the program read.
    pub consumed: usize,
    /// Whether the program ended. If not, the run stopped for want of fuel.
    pub finished: bool,
}

/// A machine: a program and the state it is in.
pub struct Machine {
    program: Vec<Instruction>,
    tape: Vec<u8>,
    cursor: u32,
    pc: usize,
}

impl View for Machine {
    type V = Snapshot;

    closed spec fn view(&self) -> Snapshot {
        Snapshot { tape: self.tape@, cursor: self.cursor as int, pc: self.pc as int }
    }
}

impl Machine {
    /// Whether the machine is sound: the cursor is on a cell of the tape, or
    /// at zero if the tape has no cell, and the next instruction is one of
    /// the program or the program has ended.
    pub closed spec fn wf(self) -> bool {
        &&& self.tape@.len() <= u32::MAX
        &&& self.cursor < self.tape@.len() || (self.tape@.len() == 0 && self.cursor == 0)
        &&& self.pc <= self.program@.len()
    }

    /// The program of the machine.
    pub closed spec fn code(self) -> Seq<Instruction> {
        self.program@
    }

    /// A machine at the start of `program`, with a tape of `tape_size` cells
    /// that all hold zero and the cursor on the first of them. The tape may
    /// have no cell: then the machine runs as long as its program needs
    /// none.
    pub fn new(program: Vec<Instruction>, tape_size: u32) -> (machine: Machine)
        ensures
            machine.wf(),
            machine.code() == program@,
            machine@ == (Snapshot {
                tape: Seq::new(tape_size as nat, |i: int| 0u8),
                cursor: 0,
                pc: 0,
            }),
    {
        let tape: Vec<u8> = vec![0u8; tape_size as usize];
        assert(tape@ =~= Seq::new(tape_size as nat, |i: int| 0u8));
        Machine { program, tape, cursor: 0, pc: 0 }
    }

    /// The cells of the tape.
    pub fn tape(&self) -> (cells: &Vec<u8>)
        requires
            self.wf(),
        ensures
            cells@ == self@.tape,
            cells@.len() <= u32::MAX,
    {
        &self.tape
    }

    /// The position of the cursor.
    pub fn cursor(&self) -> (cursor: u32)
        requires
            self.wf(),
        ensures
            cursor == self@.cursor,
            self@.tape.len() > 0 ==> self@.cursor < self@.tape.len(),
            self@.tape.len() == 0 ==> self@.cursor == 0,
    {
        self.cursor
    }

    /// The index of the next instruction.
    pub fn pc(&self) -> (pc: usize)
        requires
            self.wf(),
        ensures
            pc == self@.pc,
            0 <= self@.pc <= self.code().len(),
    {
        self.pc
    }

    /// Whether the program has ended.
    pub fn is_halted(&self) -> (done: bool)
        ensures
            done == halted(self.code(), self@),
    {
        self.pc >= self.program.len()
    }

    /// Executes the next instruction.
    ///
    /// `feed` is looked at only when the instruction reads a byte. With
    /// `Feed::Nothing` the machine then stays where it is and asks for input;
    /// with `Feed::Failure` it stays where it is and the step fails. At the
    /// end of the input the current cell keeps its value.
    ///
    /// On a tape without cells a move goes on with the cursor where it is,
    /// and every other instruction fails and leaves the machine as it is.
    pub fn step(&mut self, feed: Feed) -> (result: Result<Effect, RuntimeError>)
        requires
            old(self).wf(),
        ensures
            final(self).wf(),
            final(self).code() == old(self).code(),
            final(self)@ == step_state(old(self).code(), old(self)@, feed),
            final(self)@.tape.len() == old(self)@.tape.len(),
            result == step_effect(old(self).code(), old(self)@, feed),
    {
        if self.pc >= self.program.len() {
            Ok(Effect::Halted)
        } else if self.tape.len() == 0 {
            self.step_without_cell(self.pc + 1)
        } else {
            self.step_on_cell(self.pc + 1, feed)
        }
    }

    /// The step of a machine whose tape has no cell. `next` is the index
    /// behind the instruction.
    fn step_without_cell(&mut self, next: usize) -> (result: Result<Effect, RuntimeError>)
        requires
            old(self).wf(),
            !halted(old(self).code(), old(self)@),
            old(self)@.tape.len() == 0,
            next == old(self)@.pc + 1,
        ensures
            final(self).wf(),
            final(self).code() == old(self).code(),
            final(self)@.tape == old(self)@.tape,
            forall|feed: Feed|
                final(self)@ == #[trigger] step_state(old(self).code(), old(self)@, feed),
            forall|feed: Feed|
                result == #[trigger] step_effect(old(self).code(), old(self)@, feed),
    {
        match self.program[self.pc].opcode {
            Opcode::MoveRight => {
                self.pc = next;
                Ok(Effect::Continue)
            },
            Opcode::MoveLeft => {
                self.pc = next;
                Ok(Effect::Continue)
            },
            _ => Err(RuntimeError::TapeBounds),
        }
    }

    /// The step of a machine whose cursor is on a cell. `next` is the index
    /// behind the instruction.
    fn step_on_cell(&mut self, next: usize, feed: Feed) -> (result: Result<Effect, RuntimeError>)
        requires
            old(self).wf(),
            !halted(old(self).code(), old(self)@),
            old(self)@.tape.len() > 0,
            next == old(self)@.pc + 1,
        ensures
            final(self).wf(),
            final(self).code() == old(self).code(),
            final(self)@ == step_state(old(self).code(), old(self)@, feed),
            final(self)@.tape.len() == old(self)@.tape.len(),
            result == step_effect(old(self).code(), old(self)@, feed),
    {
        let instruction = self.program[self.pc];
        let operand: usize = instruction.operand;
        let size: u32 = self.tape.len() as u32;
        let at: usize = self.cursor as usize;
        let cell: u8 = self.tape[at];
        let target: usize = if operand < self.program.len() {
            operand + 1
        } else {
            self.program.len()
        };
        match instruction.opcode {
            Opcode::Add => {
                let mut value: u8 = cell;
                bfi_u8_add(&mut value, (operand % 256) as u32);
                assert(value == wrapped_sum(cell, operand as int));
                self.tape.set(at, value);
                self.pc = next;
                Ok(Effect::Continue)
            },
            Opcode::Sub => {
                let mut value: u8 = cell;
                bfi_u8_sub(&mut value, (operand % 256) as u32);
                assert(value == wrapped_difference(cell, operand as int));
                self.tape.set(at, value);
                self.pc = next;
                Ok(Effect::Continue)
            },
            Opcode::MoveRight => {
                let step: u32 = (operand % (size as usize)) as u32;
                proof {
                    lemma_add_mod_noop_right(at as int, operand as int, size as int);
                }
                self.cursor = bfi_next_cell(self.cursor, step, size);
                self.pc = next;
                Ok(Effect::Continue)
            },
            Opcode::MoveLeft => {
                let step: u32 = (operand % (size as usize)) as u32;
                proof {
                    lemma_sub_mod_noop_right(at as int, operand as int, size as int);
                }
                self.cursor = bfi_prev_cell(self.cursor, step, size);
                self.pc = next;
                Ok(Effect::Continue)
            },
            Opcode::LoopStart => {
                if cell == 0 {
                    self.pc = target;
                } else {
                    self.pc = next;
                }
                Ok(Effect::Continue)
            },
            Opcode::LoopEnd => {
                if cell != 0 {
                    self.pc = target;
                } else {
                    self.pc = next;
                }
                Ok(Effect::Continue)
            },
            Opcode::Output => {
                self.pc = next;
                Ok(Effect::Output { byte: cell, count: operand })
            },
            Opcode::Input => match feed {
                Feed::Byte(byte) => {
                    self.tape.set(at, byte);
                    self.pc = next;
                    Ok(Effect::Continue)
                },
                Feed::EndOfInput => {
                    self.pc = next;
                    Ok(Effect::Continue)
                },
                Feed::Nothing => Ok(Effect::AwaitInput),
                Feed::Failure => Err(RuntimeError::InputFailed),
            },
        }
    }

    /// Runs the program on a buffer of input until it ends, or until `fuel`
    /// instructions were executed: a program may loop for ever. The run
    /// fails at the first instruction that needs a cell on a tape that has
    /// none; nothing was read or written before it. On a tape with a cell a
    /// run never fails.
    pub fn run(&mut self, input: &[u8], fuel: usize) -> (result: Result<Report, RuntimeError>)
        requires
            old(self).wf(),
        ensures
            final(self).wf(),
            final(self).code() == old(self).code(),
            final(self)@ == run_from(old(self).code(), old(self)@, input@, 0, fuel as nat).state,
            old(self)@.tape.len() > 0 ==> result is Ok,
            match result {
                Ok(report) => {
                    let run = run_from(old(self).code(), old(self)@, input@, 0, fuel as nat);
                    &&& run.fault is None
                    &&& report.output@ == run.output
                    &&& report.consumed == run.consumed
                    &&& report.finished == halted(old(self).code(), run.state)
                },
                Err(error) => {
                    let run = run_from(old(self).code(), old(self)@, input@, 0, fuel as nat);
                    &&& run.fault == Some(error)
                    &&& error == RuntimeError::TapeBounds
                    &&& run.output.len() == 0
                    &&& run.consumed == 0
                },
            },
    {
        let ghost code = self.code();
        let ghost whole = run_from(code, self@, input@, 0, fuel as nat);
        let mut output: Vec<u8> = Vec::new();
        let mut consumed: usize = 0;
        let mut left: usize = fuel;
        while left > 0 && !self.is_halted()
            invariant
                self.wf(),
                self.code() == code,
                code == old(self).code(),
                whole == run_from(old(self).code(), old(self)@, input@, 0, fuel as nat),
                self@.tape.len() == old(self)@.tape.len(),
                consumed <= input.len(),
                self@.tape.len() == 0 ==> consumed == 0 && output@.len() == 0,
                whole.state == run_from(code, self@, input@, consumed as int, left as nat).state,
                whole.consumed == run_from(
                    code,
                    self@,
                    input@,
                    consumed as int,
                    left as nat,
                ).consumed,
                whole.output == output@ + run_from(
                    code,
                    self@,
                    input@,
                    consumed as int,
                    left as nat,
                ).output,
                whole.fault == run_from(code, self@, input@, consumed as int, left as nat).fault,
            decreases left,
        {
            let ghost before = self@;
            let ghost written = output@;
            let ghost rest = run_from(code, before, input@, consumed as int, left as nat);
            let effect = match self.step(Feed::Nothing) {
                Err(error) => {
                    return Err(error);
                },
                Ok(Effect::AwaitInput) => {
                    let answer = if consumed < input.len() {
                        consumed = consumed + 1;
                        self.step(Feed::Byte(input[consumed - 1]))
                    } else {
                        self.step(Feed::EndOfInput)
                    };
                    match answer {
                        Ok(effect) => effect,
                        Err(_) => unreached(),
                    }
                },
                Ok(effect) => effect,
            };
            if let Effect::Output { byte, count } = effect {
                let mut copies: usize = 0;
                while copies < count
                    invariant
                        copies <= count,
                        output@ == written + Seq::new(copies as nat, |i: int| byte),
                    decreases count - copies,
                {
                    output.push(byte);
                    copies = copies + 1;
                }
            }
            left = left - 1;
            assert(output@ + run_from(code, self@, input@, consumed as int, left as nat).output
                == written + rest.output);
        }
        let finished = self.is_halted();
        Ok(Report { output, consumed, finished })
    }
}

/// Runs `program` on a tape of `tape_size` zero cells, with its input taken
/// from a buffer, until it ends or `fuel` instructions were executed.
///
/// The empty program ends at once on every tape, also on one without cells.
/// On a tape without cells a program runs as far as it only moves the
/// cursor, and fails at the first instruction that needs a cell.
pub fn execute(program: Vec<Instruction>, tape_size: u32, input: &[u8], fuel: usize) -> (result:
    Result<Report, RuntimeError>)
    ensures
        tape_size > 0 ==> result is Ok,
        program@.len() == 0 ==> (result matches Ok(report) && report.output@.len() == 0
            && report.consumed == 0 && report.finished),
        match result {
            Ok(report) => {
                let run = run_from(
                    program@,
                    Snapshot { tape: Seq::new(tape_size as nat, |i: int| 0u8), cursor: 0, pc: 0 },
                    input@,
                    0,
                    fuel as nat,
                );
                &&& run.fault is None
                &&& report.output@ == run.output
                &&& report.consumed == run.consumed
                &&& report.finished == halted(program@, run.state)
            },
            Err(error) => {
                let run = run_from(
                    program@,
                    Snapshot { tape: Seq::new(tape_size as nat, |i: int| 0u8), cursor: 0, pc: 0 },
                    input@,
                    0,
                    fuel as nat,
                );
                &&& tape_size == 0
                &&& error == RuntimeError::TapeBounds
                &&& run.fault == Some(error)
            },
        },
{
    let mut machine = Machine::new(program, tape_size);
    machine.run(input, fuel)
}

} // verus!
