use vstd::prelude::*;

verus! {

/// One instruction of the language; none carries an operand.
#[derive(Clone, Copy, Debug, PartialEq, Eq, Structural)]
pub enum Instruction {
    /// `👉`: move the cursor one cell to the right, growing the tape if needed.
    Next,
    /// `👈`: move the cursor one cell to the left.
    Previous,
    /// `👆`: add one to the current cell, wrapping 255 to 0.
    Increment,
    /// `👇`: subtract one from the current cell, wrapping 0 to 255.
    Decrease,
    /// `🤜`: when the current cell is 0, jump just past the matching `🤛`.
    LoopStart,
    /// `🤛`: when the current cell is not 0, jump just past the matching `🤜`.
    LoopEnd,
    /// `👊`: emit the current cell as one byte.
    Print,
}

/// The instruction that a character stands for, if any.
pub open spec fn symbol_of(c: char) -> Option<Instruction> {
    if c == '👉' {
        Some(Instruction::Next)
    } else if c == '👈' {
        Some(Instruction::Previous)
    } else if c == '👆' {
        Some(Instruction::Increment)
    } else if c == '👇' {
        Some(Instruction::Decrease)
    } else if c == '🤜' {
        Some(Instruction::LoopStart)
    } else if c == '🤛' {
        Some(Instruction::LoopEnd)
    } else if c == '👊' {
        Some(Instruction::Print)
    } else {
        None
    }
}

/// The characters allowed between instructions: space, tab, line feed and
/// carriage return.
pub open spec fn is_space(c: char) -> bool {
    c == ' ' || c == '\t' || c == '\n' || c == '\r'
}

/// Whether the instruction is one of the two loop markers.
pub open spec fn is_marker(i: Instruction) -> bool {
    i is LoopStart || i is LoopEnd
}

/// Recognises one character: the instruction it stands for, if any.
pub fn symbol(c: char) -> (r: Option<Instruction>)
    ensures
        r == symbol_of(c),
{
    if c == '👉' {
        Some(Instruction::Next)
    } else if c == '👈' {
        Some(Instruction::Previous)
    } else if c == '👆' {
        Some(Instruction::Increment)
    } else if c == '👇' {
        Some(Instruction::Decrease)
    } else if c == '🤜' {
        Some(Instruction::LoopStart)
    } else if c == '🤛' {
        Some(Instruction::LoopEnd)
    } else if c == '👊' {
        Some(Instruction::Print)
    } else {
        None
    }
}

} // verus!
