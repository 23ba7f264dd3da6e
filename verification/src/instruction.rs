//! The instruction set of the stack language.

use vstd::prelude::*;

verus! {

/// One decoded operation.  Payload-bearing variants carry either a signed
/// integer literal or a label identifier (an opaque text key).
#[derive(PartialEq, Clone, Debug)]
pub enum Instruction {
    // stack
    Push(i32),
    Duplicate,
    CopyNth(i32),
    Swap,
    Discard,
    Slide(i32),
    // arithmetic
    Add,
    Sub,
    Mul,
    Div,
    Mod,
    // memory
    Store,
    Retrieve,
    // flow control
    SetLabel(String),
    CallSubroutine(String),
    Jump(String),
    JZero(String),
    JNeg(String),
    EndOfSubroutine,
    EndOfProgram,
    // I/O
    PrintChar,
    PrintInt,
    ReadChar,
    ReadInt,
}

/// Clones one instruction; the copy equals the original value.
pub fn clone_instruction(i: &Instruction) -> (r: Instruction)
    ensures
        r == *i,
{
    match i {
        Instruction::Push(v) => Instruction::Push(*v),
        Instruction::Duplicate => Instruction::Duplicate,
        Instruction::CopyNth(v) => Instruction::CopyNth(*v),
        Instruction::Swap => Instruction::Swap,
        Instruction::Discard => Instruction::Discard,
        Instruction::Slide(v) => Instruction::Slide(*v),
        Instruction::Add => Instruction::Add,
        Instruction::Sub => Instruction::Sub,
        Instruction::Mul => Instruction::Mul,
        Instruction::Div => Instruction::Div,
        Instruction::Mod => Instruction::Mod,
        Instruction::Store => Instruction::Store,
        Instruction::Retrieve => Instruction::Retrieve,
        Instruction::SetLabel(l) => Instruction::SetLabel(l.clone()),
        Instruction::CallSubroutine(l) => Instruction::CallSubroutine(l.clone()),
        Instruction::Jump(l) => Instruction::Jump(l.clone()),
        Instruction::JZero(l) => Instruction::JZero(l.clone()),
        Instruction::JNeg(l) => Instruction::JNeg(l.clone()),
        Instruction::EndOfSubroutine => Instruction::EndOfSubroutine,
        Instruction::EndOfProgram => Instruction::EndOfProgram,
        Instruction::PrintChar => Instruction::PrintChar,
        Instruction::PrintInt => Instruction::PrintInt,
        Instruction::ReadChar => Instruction::ReadChar,
        Instruction::ReadInt => Instruction::ReadInt,
    }
}

} // verus!
