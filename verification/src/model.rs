//! What lexing means, stated over sequences of characters.
//!
//! The eight command symbols fall in two classes. The six counted symbols
//! `+ - < > . ,` merge with their immediate repetitions; the two brackets
//! `[ ]` never merge. Every other character is a comment: it yields nothing,
//! and it ends the run before it like any other character would.

use vstd::prelude::*;
use crate::op::{Instruction, UNRESOLVED};

verus! {

/// `c` is one of the six symbols whose repetitions are counted.
pub open spec fn is_counted(c: char) -> bool {
    c == '+' || c == '-' || c == '<' || c == '>' || c == '.' || c == ','
}

/// `c` is a loop bracket.
pub open spec fn is_bracket(c: char) -> bool {
    c == '[' || c == ']'
}

/// `c` is one of the eight command symbols.
pub open spec fn is_command(c: char) -> bool {
    is_counted(c) || is_bracket(c)
}

/// The instruction for `len` consecutive copies of the counted symbol `c`.
pub open spec fn run_of(c: char, len: nat) -> Instruction
    recommends
        is_counted(c),
{
    if c == '+' {
        Instruction::Increment(len)
    } else if c == '-' {
        Instruction::Decrement(len)
    } else if c == '<' {
        Instruction::MoveLeft(len)
    } else if c == '>' {
        Instruction::MoveRight(len)
    } else if c == '.' {
        Instruction::Output(len)
    } else {
        Instruction::Input(len)
    }
}

/// The placeholder for the bracket `c`: its jump target is unresolved.
pub open spec fn marker_of(c: char) -> Instruction
    recommends
        is_bracket(c),
{
    if c == '[' {
        Instruction::LoopStart(UNRESOLVED as nat)
    } else {
        Instruction::LoopEnd(UNRESOLVED as nat)
    }
}

/// The number of copies of `c` that `s` starts with.
pub open spec fn leading(s: Seq<char>, c: char) -> nat
    decreases s.len(),
{
    if s.len() > 0 && s[0] == c {
        1 + leading(s.drop_first(), c)
    } else {
        0
    }
}

/// `leading` counts characters of `s`, and all of them where `s` holds
/// nothing else.
pub proof fn lemma_leading_bounds(s: Seq<char>, c: char)
    ensures
        leading(s, c) <= s.len(),
        forall|i: int| 0 <= i < leading(s, c) ==> s[i] == c,
        leading(s, c) < s.len() ==> s[leading(s, c) as int] != c,
    decreases s.len(),
{
    if s.len() > 0 && s[0] == c {
        let t = s.drop_first();
        lemma_leading_bounds(t, c);
        assert forall|i: int| 0 <= i < leading(s, c) implies s[i] == c by {
            if i > 0 {
                assert(s[i] == t[i - 1]);
            }
        }
    }
}

/// The instruction stream of the source text `s`.
///
/// A counted symbol at the front is taken together with all its immediate
/// repetitions and gives one instruction with their number; a bracket gives
/// its placeholder; any other character gives nothing. What follows is lexed
/// on its own.
pub open spec fn lex_spec(s: Seq<char>) -> Seq<Instruction>
    decreases s.len(),
    via lex_spec_decreases
{
    if s.len() == 0 {
        Seq::empty()
    } else if is_counted(s[0]) {
        let n = leading(s, s[0]);
        seq![run_of(s[0], n)] + lex_spec(s.skip(n as int))
    } else if is_bracket(s[0]) {
        seq![marker_of(s[0])] + lex_spec(s.drop_first())
    } else {
        lex_spec(s.drop_first())
    }
}

#[via_fn]
proof fn lex_spec_decreases(s: Seq<char>) {
    if s.len() > 0 {
        lemma_leading_bounds(s, s[0]);
    }
}

} // verus!
