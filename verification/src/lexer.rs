//! The lexer: one forward pass over the source text.

use vstd::prelude::*;
use vstd::utf8::{encode_scalar, encode_utf8};
use crate::laws::{
    brackets, commands, has_repetition, lemma_brackets, lemma_fresh, lemma_length,
    lemma_lex_concat, lemma_maximal_run, loop_ends, loop_instructions, loop_starts, occurrences,
    placeholders, repeat,
};
use crate::model::{is_bracket, is_counted, lex_spec, marker_of, run_of};
use crate::op::{Instruction, Op, UNRESOLVED};

verus! {

/// A text has at most as many characters as its UTF-8 encoding has bytes.
proof fn lemma_chars_fit_in_bytes(s: Seq<char>)
    ensures
        s.len() <= encode_utf8(s).len(),
    decreases s.len(),
{
    if s.len() > 0 {
        assert(encode_scalar(s[0] as u32).len() >= 1);
        lemma_chars_fit_in_bytes(s.drop_first());
    }
}

/// The state of the scan after the first `i` characters of `s`.
///
/// `out` holds the instructions of everything before the pending run, and
/// the pending run is the last `count` characters read: copies of `symbol`
/// that no further copy precedes.
spec fn scanned(s: Seq<char>, i: int, out: Seq<Instruction>, symbol: char, count: nat) -> bool {
    &&& count <= i <= s.len()
    &&& out == lex_spec(s.take(i - count))
    &&& count > 0 ==> {
        &&& is_counted(symbol)
        &&& forall|j: int| i - count <= j < i ==> s[j] == symbol
        &&& i - count > 0 ==> s[i - count - 1] != symbol
    }
    &&& count == 0 && i > 0 ==> !is_counted(s[i - 1])
}

/// Emitting the pending run brings the output up to the characters read.
proof fn lemma_flush(s: Seq<char>, i: int, out: Seq<Instruction>, symbol: char, count: nat)
    requires
        scanned(s, i, out, symbol, count),
    ensures
        count > 0 ==> lex_spec(s.take(i)) == out.push(run_of(symbol, count)),
        count == 0 ==> lex_spec(s.take(i)) == out,
{
    if count > 0 {
        let a = s.take(i - count);
        let empty = Seq::<char>::empty();
        assert(s.take(i) =~= a + repeat(symbol, count) + empty);
        lemma_maximal_run(a, symbol, count, empty);
        assert(lex_spec(a) + seq![run_of(symbol, count)] + lex_spec(empty) =~= out.push(
            run_of(symbol, count),
        ));
    }
}

/// A character that is not counted adds its own instruction, if it has one,
/// to those of the text before it.
proof fn lemma_uncounted(s: Seq<char>, i: int)
    requires
        0 <= i < s.len(),
        !is_counted(s[i]),
    ensures
        is_bracket(s[i]) ==> lex_spec(s.take(i + 1)) == lex_spec(s.take(i)).push(marker_of(s[i])),
        !is_bracket(s[i]) ==> lex_spec(s.take(i + 1)) == lex_spec(s.take(i)),
{
    let before = lex_spec(s.take(i));
    let one = seq![s[i]];
    assert(s.take(i + 1) =~= s.take(i) + one);
    lemma_lex_concat(s.take(i), one);
    assert(lex_spec(one.drop_first()) =~= Seq::<Instruction>::empty());
    if is_bracket(s[i]) {
        assert(before + lex_spec(one) =~= before.push(marker_of(s[i])));
    } else {
        assert(before + lex_spec(one) =~= before);
    }
}

/// Whether `c` is one of the six counted symbols.
fn counted(c: char) -> (b: bool)
    ensures
        b == is_counted(c),
{
    c == '+' || c == '-' || c == '<' || c == '>' || c == '.' || c == ','
}

/// Appends `op` to `ops`.
fn emit(ops: &mut Vec<Op>, op: Op)
    ensures
        final(ops).deep_view() == old(ops).deep_view().push(op@),
{
    ops.push(op);
}

/// Emits the pending run of `count` copies of `symbol`, if there is one.
fn flush(ops: &mut Vec<Op>, symbol: char, count: usize)
    requires
        count > 0 ==> is_counted(symbol),
    ensures
        count > 0 ==> final(ops).deep_view() == old(ops).deep_view().push(
            run_of(symbol, count as nat),
        ),
        count == 0 ==> final(ops).deep_view() == old(ops).deep_view(),
{
    if count > 0 {
        let op = if symbol == '+' {
            Op::Inc(count)
        } else if symbol == '-' {
            Op::Dec(count)
        } else if symbol == '<' {
            Op::Left(count)
        } else if symbol == '>' {
            Op::Right(count)
        } else if symbol == '.' {
            Op::Write(count)
        } else {
            Op::Read(count)
        };
        emit(ops, op);
    }
}

/// Lexes `source` into its instruction stream.
///
/// Every maximal run of one counted symbol becomes one instruction with the
/// length of the run, every bracket becomes a jump whose target is
/// [`UNRESOLVED`], and every other character is dropped after it has ended
/// the run before it. The instructions come in source order.
///
/// The first clause fixes the result. The others spell out what a consumer
/// relies on: no run is empty and no jump is resolved, the stream is no
/// longer than the text has commands, and its jumps are the brackets of the
/// text, one for one.
pub fn lex(source: &str) -> (ops: Vec<Op>)
    ensures
        ops.deep_view() == lex_spec(source@),
        forall|i: int| 0 <= i < ops.len() ==> (#[trigger] ops[i])@.fresh(),
        ops.len() <= commands(source@).len(),
        ops.len() == commands(source@).len() <==> !has_repetition(source@),
        loop_instructions(ops.deep_view()) == placeholders(brackets(source@)),
        loop_starts(ops.deep_view()) == occurrences(source@, '['),
        loop_ends(ops.deep_view()) == occurrences(source@, ']'),
{
    // A slice is never longer than `usize::MAX`, and the text has no more
    // characters than bytes: the running count below cannot overflow.
    let bytes = source.as_bytes();
    proof {
        lemma_chars_fit_in_bytes(source@);
        assert(bytes@.len() == bytes.len());
    }
    let mut ops: Vec<Op> = Vec::new();
    let mut symbol: char = '+';
    let mut count: usize = 0;
    assert(ops.deep_view() =~= lex_spec(source@.take(0)));
    for c in it: source.chars()
        invariant
            it.seq() == source@,
            source@.len() <= usize::MAX,
            scanned(source@, it.index(), ops.deep_view(), symbol, count as nat),
    {
        let ghost i = it.index();
        if counted(c) {
            if count > 0 && symbol == c {
                count = count + 1;
            } else {
                proof {
                    lemma_flush(source@, i, ops.deep_view(), symbol, count as nat);
                }
                flush(&mut ops, symbol, count);
                symbol = c;
                count = 1;
            }
        } else {
            proof {
                lemma_flush(source@, i, ops.deep_view(), symbol, count as nat);
                lemma_uncounted(source@, i);
            }
            flush(&mut ops, symbol, count);
            count = 0;
            if c == '[' {
                emit(&mut ops, Op::JumpIfZero(UNRESOLVED));
            } else if c == ']' {
                emit(&mut ops, Op::JumpIfNonZero(UNRESOLVED));
            }
        }
    }
    proof {
        lemma_flush(source@, source@.len() as int, ops.deep_view(), symbol, count as nat);
        assert(source@.take(source@.len() as int) =~= source@);
    }
    flush(&mut ops, symbol, count);
    proof {
        lemma_fresh(source@);
        lemma_length(source@);
        lemma_brackets(source@);
        assert forall|i: int| 0 <= i < ops.len() implies (#[trigger] ops[i])@.fresh() by {
            assert(ops[i]@ == ops.deep_view()[i]);
        }
    }
    ops
}

} // verus!
