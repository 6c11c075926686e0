//! The opcode table: which opcodes there are and what follows each.

use crate::error::Error;
use vstd::prelude::*;

verus! {

/// Ends the event and hands control back to whatever started it.
pub const OP_RETURN: u8 = 0x01;

/// Ends the event and everything that waits for it.
pub const OP_END: u8 = 0x02;

/// Jumps to another place in the script.
pub const OP_GOTO: u8 = 0x03;

/// Jumps to one of two places, depending on a condition.
pub const OP_BRANCH: u8 = 0x04;

/// Assigns a value to a variable or a flag.
pub const OP_SET: u8 = 0x10;

/// Waits for as many frames as an expression says.
pub const OP_WAIT: u8 = 0x11;

/// Runs another subroutine and comes back.
pub const OP_CALL: u8 = 0x12;

/// Shows the message stored in a data block.
pub const OP_MSG: u8 = 0x13;

/// What an opcode stands for.
#[derive(Debug, Clone, Copy, PartialEq, Eq, Hash, Structural)]
pub enum Opcode {
    Return,
    End,
    Goto,
    Branch,
    Assign,
    Wait,
    Call,
    Msg,
}

/// What a command refers to besides its expressions.
#[derive(Debug, Clone, Copy, PartialEq, Eq, Hash, Structural)]
pub enum Reference {
    /// Nothing.
    Nothing,
    /// One code block.
    Code,
    /// One data block.
    Data,
}

/// What follows an opcode in the stream, in this order: the assignment
/// targets, the expressions, the referenced offset and the jump targets.
/// Every offset is four little-endian bytes.
#[derive(Debug, Clone, Copy, PartialEq, Eq, Hash, Structural)]
pub struct Shape {
    /// How many assignment targets follow the opcode.
    pub targets: u8,
    /// How many expressions follow the assignment targets.
    pub exprs: u8,
    /// Whether the offset of a code or data block follows the expressions.
    pub reference: Reference,
    /// How many jump targets follow at the end.
    pub jumps: u8,
    /// Whether the command ends its block.
    pub terminal: bool,
}

/// The opcode that a byte stands for, if any.
pub open spec fn spec_lookup(code: u8) -> Option<Opcode> {
    if code == OP_RETURN {
        Some(Opcode::Return)
    } else if code == OP_END {
        Some(Opcode::End)
    } else if code == OP_GOTO {
        Some(Opcode::Goto)
    } else if code == OP_BRANCH {
        Some(Opcode::Branch)
    } else if code == OP_SET {
        Some(Opcode::Assign)
    } else if code == OP_WAIT {
        Some(Opcode::Wait)
    } else if code == OP_CALL {
        Some(Opcode::Call)
    } else if code == OP_MSG {
        Some(Opcode::Msg)
    } else {
        None
    }
}

/// The byte that an opcode is stored as.
pub open spec fn spec_code(op: Opcode) -> u8 {
    match op {
        Opcode::Return => OP_RETURN,
        Opcode::End => OP_END,
        Opcode::Goto => OP_GOTO,
        Opcode::Branch => OP_BRANCH,
        Opcode::Assign => OP_SET,
        Opcode::Wait => OP_WAIT,
        Opcode::Call => OP_CALL,
        Opcode::Msg => OP_MSG,
    }
}

/// What follows an opcode in the stream.
pub open spec fn spec_shape(op: Opcode) -> Shape {
    match op {
        Opcode::Return | Opcode::End => Shape {
            targets: 0,
            exprs: 0,
            reference: Reference::Nothing,
            jumps: 0,
            terminal: true,
        },
        Opcode::Goto => Shape {
            targets: 0,
            exprs: 0,
            reference: Reference::Nothing,
            jumps: 1,
            terminal: true,
        },
        Opcode::Branch => Shape {
            targets: 0,
            exprs: 1,
            reference: Reference::Nothing,
            jumps: 2,
            terminal: true,
        },
        Opcode::Assign => Shape {
            targets: 1,
            exprs: 1,
            reference: Reference::Nothing,
            jumps: 0,
            terminal: false,
        },
        Opcode::Wait => Shape {
            targets: 0,
            exprs: 1,
            reference: Reference::Nothing,
            jumps: 0,
            terminal: false,
        },
        Opcode::Call => Shape {
            targets: 0,
            exprs: 0,
            reference: Reference::Code,
            jumps: 0,
            terminal: false,
        },
        Opcode::Msg => Shape {
            targets: 0,
            exprs: 0,
            reference: Reference::Data,
            jumps: 0,
            terminal: false,
        },
    }
}

/// Looks an opcode up in the table. A byte that the table does not hold is
/// an unknown opcode; nothing else can fail.
pub fn lookup(code: u8) -> (r: Result<Opcode, Error>)
    ensures
        match r {
            Ok(op) => spec_lookup(code) == Some(op) && spec_code(op) == code,
            Err(e) => e == Error::UnknownOpcode && spec_lookup(code).is_none(),
        },
{
    if code == OP_RETURN {
        Ok(Opcode::Return)
    } else if code == OP_END {
        Ok(Opcode::End)
    } else if code == OP_GOTO {
        Ok(Opcode::Goto)
    } else if code == OP_BRANCH {
        Ok(Opcode::Branch)
    } else if code == OP_SET {
        Ok(Opcode::Assign)
    } else if code == OP_WAIT {
        Ok(Opcode::Wait)
    } else if code == OP_CALL {
        Ok(Opcode::Call)
    } else if code == OP_MSG {
        Ok(Opcode::Msg)
    } else {
        Err(Error::UnknownOpcode)
    }
}

impl Opcode {
    /// The byte that the opcode is stored as.
    pub fn code(self) -> (code: u8)
        ensures
            code == spec_code(self),
            spec_lookup(code) == Some(self),
    {
        match self {
            Opcode::Return => OP_RETURN,
            Opcode::End => OP_END,
            Opcode::Goto => OP_GOTO,
            Opcode::Branch => OP_BRANCH,
            Opcode::Assign => OP_SET,
            Opcode::Wait => OP_WAIT,
            Opcode::Call => OP_CALL,
            Opcode::Msg => OP_MSG,
        }
    }

    /// What follows the opcode in the stream.
    pub fn shape(self) -> (shape: Shape)
        ensures
            shape == spec_shape(self),
    {
        match self {
            Opcode::Return | Opcode::End => Shape {
                targets: 0,
                exprs: 0,
                reference: Reference::Nothing,
                jumps: 0,
                terminal: true,
            },
            Opcode::Goto => Shape {
                targets: 0,
                exprs: 0,
                reference: Reference::Nothing,
                jumps: 1,
                terminal: true,
            },
            Opcode::Branch => Shape {
                targets: 0,
                exprs: 1,
                reference: Reference::Nothing,
                jumps: 2,
                terminal: true,
            },
            Opcode::Assign => Shape {
                targets: 1,
                exprs: 1,
                reference: Reference::Nothing,
                jumps: 0,
                terminal: false,
            },
            Opcode::Wait => Shape {
                targets: 0,
                exprs: 1,
                reference: Reference::Nothing,
                jumps: 0,
                terminal: false,
            },
            Opcode::Call => Shape {
                targets: 0,
                exprs: 0,
                reference: Reference::Code,
                jumps: 0,
                terminal: false,
            },
            Opcode::Msg => Shape {
                targets: 0,
                exprs: 0,
                reference: Reference::Data,
                jumps: 0,
                terminal: false,
            },
        }
    }
}

} // verus!
