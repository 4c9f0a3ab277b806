//! The instruction set that source text is compiled to.

use vstd::prelude::*;

verus! {

/// The command that adds one to the current cell: `+`.
pub const COMMAND_ADD: u8 = 43;

/// The command that reads one byte into the current cell: `,`.
pub const COMMAND_INPUT: u8 = 44;

/// The command that subtracts one from the current cell: `-`.
pub const COMMAND_SUB: u8 = 45;

/// The command that writes the current cell: `.`.
pub const COMMAND_OUTPUT: u8 = 46;

/// The command that moves the cursor one cell to the left: `<`.
pub const COMMAND_MOVE_LEFT: u8 = 60;

/// The command that moves the cursor one cell to the right: `>`.
pub const COMMAND_MOVE_RIGHT: u8 = 62;

/// The command that opens a loop: `[`.
pub const COMMAND_LOOP_START: u8 = 91;

/// The command that closes a loop: `]`.
pub const COMMAND_LOOP_END: u8 = 93;

/// What an instruction does.
#[derive(Clone, Copy, Debug, PartialEq, Eq)]
pub enum Opcode {
    /// Add the operand to the current cell, modulo 256.
    Add,
    /// Subtract the operand from the current cell, modulo 256.
    Sub,
    /// Move the cursor right by the operand, around the tape.
    MoveRight,
    /// Move the cursor left by the operand, around the tape.
    MoveLeft,
    /// Skip to the matching `LoopEnd` when the current cell is zero.
    LoopStart,
    /// Go back to the matching `LoopStart` when the current cell is not zero.
    LoopEnd,
    /// Write the current cell as many times as the operand says.
    Output,
    /// Read one byte into the current cell.
    Input,
}

/// One instruction of a compiled program.
///
/// The operand of `Add`, `Sub`, `MoveRight`, `MoveLeft` and `Output` is the
/// number of equal commands that were folded into the instruction. The
/// operand of `LoopStart` is the index of the matching `LoopEnd`, and the
/// other way round. The operand of `Input` is always zero: a run of input
/// commands reads a single byte, and the length of the run is not kept.
#[derive(Clone, Copy, Debug, PartialEq, Eq)]
pub struct Instruction {
    pub opcode: Opcode,
    pub operand: usize,
}

impl Opcode {
    /// Whether the opcode is one of the two ends of a loop.
    pub open spec fn is_loop(self) -> bool {
        self is LoopStart || self is LoopEnd
    }

    /// Whether the operand of the opcode is the length of a run of commands.
    pub open spec fn counts_run(self) -> bool {
        !self.is_loop() && !(self is Input)
    }

    /// Whether the opcode reads or writes the current cell. The two moves do
    /// not.
    pub open spec fn touches_cell(self) -> bool {
        !(self is MoveRight) && !(self is MoveLeft)
    }

    /// By how much the opcode changes the depth of loop nesting.
    pub open spec fn depth_change(self) -> int {
        match self {
            Opcode::LoopStart => 1,
            Opcode::LoopEnd => -1,
            _ => 0,
        }
    }

    /// The opcode that a byte of source text stands for, if it is a command.
    pub open spec fn of_command(command: u8) -> Option<Opcode> {
        if command == COMMAND_ADD {
            Some(Opcode::Add)
        } else if command == COMMAND_SUB {
            Some(Opcode::Sub)
        } else if command == COMMAND_MOVE_RIGHT {
            Some(Opcode::MoveRight)
        } else if command == COMMAND_MOVE_LEFT {
            Some(Opcode::MoveLeft)
        } else if command == COMMAND_LOOP_START {
            Some(Opcode::LoopStart)
        } else if command == COMMAND_LOOP_END {
            Some(Opcode::LoopEnd)
        } else if command == COMMAND_OUTPUT {
            Some(Opcode::Output)
        } else if command == COMMAND_INPUT {
            Some(Opcode::Input)
        } else {
            None
        }
    }

    /// Decodes one byte of source text. Every byte that is not one of the
    /// eight commands is a comment.
    pub fn from_command(command: u8) -> (opcode: Option<Opcode>)
        ensures
            opcode == Opcode::of_command(command),
    {
        if command == COMMAND_ADD {
            Some(Opcode::Add)
        } else if command == COMMAND_SUB {
            Some(Opcode::Sub)
        } else if command == COMMAND_MOVE_RIGHT {
            Some(Opcode::MoveRight)
        } else if command == COMMAND_MOVE_LEFT {
            Some(Opcode::MoveLeft)
        } else if command == COMMAND_LOOP_START {
            Some(Opcode::LoopStart)
        } else if command == COMMAND_LOOP_END {
            Some(Opcode::LoopEnd)
        } else if command == COMMAND_OUTPUT {
            Some(Opcode::Output)
        } else if command == COMMAND_INPUT {
            Some(Opcode::Input)
        } else {
            None
        }
    }
}

} // verus!
