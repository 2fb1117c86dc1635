//! The instruction set produced by the lexer, and its mathematical model.

use vstd::prelude::*;

verus! {

/// Payload of a loop instruction whose jump target has not been computed yet.
///
/// It is a marker, not an index: no consumer may jump to it.
pub const UNRESOLVED: usize = 0;

/// One instruction of the compact stream.
///
/// The first six kinds stand for a run of identical commands and carry the
/// length of that run, which is never zero in the output of the lexer. The two
/// jump kinds carry a target index, or [`UNRESOLVED`].
#[derive(Clone, Copy, Debug, PartialEq, Eq)]
pub enum Op {
    /// A run of `+`: add the payload to the current cell.
    Inc(usize),
    /// A run of `-`: subtract the payload from the current cell.
    Dec(usize),
    /// A run of `<`: move the pointer left by the payload.
    Left(usize),
    /// A run of `>`: move the pointer right by the payload.
    Right(usize),
    /// A run of `.`: write the current cell, payload times.
    Write(usize),
    /// A run of `,`: read into the current cell, payload times.
    Read(usize),
    /// `[`: jump to the payload if the current cell is zero.
    JumpIfZero(usize),
    /// `]`: jump to the payload if the current cell is not zero.
    JumpIfNonZero(usize),
}

/// The mathematical model of an [`Op`]: the same eight kinds, with an
/// unbounded payload.
pub enum Instruction {
    /// Models [`Op::Inc`]: the length of a run of `+`.
    Increment(nat),
    /// Models [`Op::Dec`]: the length of a run of `-`.
    Decrement(nat),
    /// Models [`Op::Left`]: the length of a run of `<`.
    MoveLeft(nat),
    /// Models [`Op::Right`]: the length of a run of `>`.
    MoveRight(nat),
    /// Models [`Op::Write`]: the length of a run of `.`.
    Output(nat),
    /// Models [`Op::Read`]: the length of a run of `,`.
    Input(nat),
    /// Models [`Op::JumpIfZero`]: the target of a `[`.
    LoopStart(nat),
    /// Models [`Op::JumpIfNonZero`]: the target of a `]`.
    LoopEnd(nat),
}

impl Instruction {
    /// The integer that the instruction carries.
    pub open spec fn payload(self) -> nat {
        match self {
            Instruction::Increment(n) => n,
            Instruction::Decrement(n) => n,
            Instruction::MoveLeft(n) => n,
            Instruction::MoveRight(n) => n,
            Instruction::Output(n) => n,
            Instruction::Input(n) => n,
            Instruction::LoopStart(n) => n,
            Instruction::LoopEnd(n) => n,
        }
    }

    /// The instruction is a loop boundary.
    pub open spec fn is_loop(self) -> bool {
        self is LoopStart || self is LoopEnd
    }

    /// The instruction is as a lexer may emit it: a loop boundary whose target
    /// is unresolved, or a run of at least one command.
    pub open spec fn fresh(self) -> bool {
        if self.is_loop() {
            self.payload() == UNRESOLVED
        } else {
            self.payload() >= 1
        }
    }
}

impl View for Op {
    type V = Instruction;

    open spec fn view(&self) -> Instruction {
        match *self {
            Op::Inc(n) => Instruction::Increment(n as nat),
            Op::Dec(n) => Instruction::Decrement(n as nat),
            Op::Left(n) => Instruction::MoveLeft(n as nat),
            Op::Right(n) => Instruction::MoveRight(n as nat),
            Op::Write(n) => Instruction::Output(n as nat),
            Op::Read(n) => Instruction::Input(n as nat),
            Op::JumpIfZero(n) => Instruction::LoopStart(n as nat),
            Op::JumpIfNonZero(n) => Instruction::LoopEnd(n as nat),
        }
    }
}

impl DeepView for Op {
    type V = Instruction;

    open spec fn deep_view(&self) -> Instruction {
        self.view()
    }
}

/// Different instructions have different models.
pub proof fn lemma_view_injective(a: Op, b: Op)
    requires
        a@ == b@,
    ensures
        a == b,
{
}

/// A stream is known as soon as its model is: two vectors with the same
/// model hold the same instructions.
pub proof fn lemma_stream_determined(u: Vec<Op>, v: Vec<Op>)
    requires
        u.deep_view() == v.deep_view(),
    ensures
        u@ == v@,
{
    assert(u@.len() == u.deep_view().len());
    assert(v@.len() == v.deep_view().len());
    assert forall|i: int| 0 <= i < u@.len() implies u@[i] == v@[i] by {
        assert(u@[i]@ == u.deep_view()[i]);
        assert(v@[i]@ == v.deep_view()[i]);
        lemma_view_injective(u@[i], v@[i]);
    }
}

} // verus!
