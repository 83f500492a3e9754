//! The instruction vocabulary shared by every stage of the pipeline.

use vstd::prelude::*;

verus! {

/// One instruction of the source language.
#[derive(Clone, Copy, PartialEq, Eq, Structural, Debug)]
pub enum Command {
    Plus,
    Minus,
    LeftLoop,
    RightLoop,
    Left,
    Right,
    Output,
    Input,
}

/// One instruction of the optimised program: the source instructions plus
/// the fused `SetZero`, which clears the current cell.
#[derive(Clone, Copy, PartialEq, Eq, Structural, Debug, Hash)]
pub enum CompiledCommand {
    Plus,
    Minus,
    LeftLoop,
    RightLoop,
    Left,
    Right,
    Output,
    Input,
    SetZero,
}

/// A source instruction with its count.
///
/// For a loop bracket `amount` is the index of the matching bracket; for any
/// other instruction it is the length of the run that was merged.
#[derive(Clone, Copy, PartialEq, Eq, Structural, Debug)]
pub struct CollapsedCommands {
    pub command: Command,
    pub amount: usize,
}

/// An instruction of the optimised program with its count.
#[derive(Clone, Copy, PartialEq, Eq, Structural, Debug)]
pub struct CompiledCollapsedCommand {
    pub command: CompiledCommand,
    pub amount: usize,
}

impl Command {
    /// Whether the command is one of the two loop brackets.
    pub open spec fn is_loop(self) -> bool {
        self == Command::LeftLoop || self == Command::RightLoop
    }
}

} // verus!
