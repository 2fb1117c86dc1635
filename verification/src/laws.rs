//! Laws of the instruction stream, proved of [`lex_spec`].
//!
//! They say how the stream of a text is made of the streams of its pieces,
//! what a run and a comment contribute, how long the stream is, and where
//! the brackets of the text are found in it.

use vstd::prelude::*;
use crate::model::{
    is_bracket, is_command, is_counted, leading, lemma_leading_bounds, lex_spec, marker_of, run_of,
};
use crate::op::Instruction;

verus! {

/// `n` copies of `c`.
pub open spec fn repeat(c: char, n: nat) -> Seq<char> {
    Seq::new(n, |i: int| c)
}

/// A run continues across the seam between `a` and `b`: `a` ends with the
/// counted symbol that `b` starts with.
pub open spec fn joins(a: Seq<char>, b: Seq<char>) -> bool {
    a.len() > 0 && b.len() > 0 && is_counted(b[0]) && a.last() == b[0]
}

/// The command symbols of `s`, in source order.
pub open spec fn commands(s: Seq<char>) -> Seq<char> {
    s.filter(|c: char| is_command(c))
}

/// Some counted symbol of `s` is immediately followed by a copy of itself.
pub open spec fn has_repetition(s: Seq<char>) -> bool {
    exists|i: int| 0 <= i && i + 1 < s.len() && is_counted(#[trigger] s[i]) && s[i + 1] == s[i]
}

/// The brackets of `s`, in source order.
pub open spec fn brackets(s: Seq<char>) -> Seq<char> {
    s.filter(|c: char| is_bracket(c))
}

/// The test for being the character `c`.
pub open spec fn is_char(c: char) -> spec_fn(char) -> bool {
    |x: char| x == c
}

/// The number of times that `c` occurs in `s`.
pub open spec fn occurrences(s: Seq<char>, c: char) -> nat {
    s.filter(is_char(c)).len()
}

/// The placeholders of a sequence of brackets, one for each.
pub open spec fn placeholders(b: Seq<char>) -> Seq<Instruction> {
    b.map_values(|c: char| marker_of(c))
}

/// The loop instructions of `t`, in order.
pub open spec fn loop_instructions(t: Seq<Instruction>) -> Seq<Instruction> {
    t.filter(|x: Instruction| x.is_loop())
}

/// The number of `LoopStart` instructions in `t`.
pub open spec fn loop_starts(t: Seq<Instruction>) -> nat {
    t.filter(|x: Instruction| x is LoopStart).len()
}

/// The number of `LoopEnd` instructions in `t`.
pub open spec fn loop_ends(t: Seq<Instruction>) -> nat {
    t.filter(|x: Instruction| x is LoopEnd).len()
}

/// The copies of `c` at the front of `a + b` are those at the front of `a`,
/// and those at the front of `b` as well where `a` holds nothing else.
proof fn lemma_leading_concat(a: Seq<char>, b: Seq<char>, c: char)
    ensures
        leading(a + b, c) == if leading(a, c) < a.len() {
            leading(a, c)
        } else {
            a.len() + leading(b, c)
        },
    decreases a.len(),
{
    lemma_leading_bounds(a, c);
    if a.len() == 0 {
        assert(a + b =~= b);
    } else if a[0] == c {
        assert((a + b).drop_first() =~= a.drop_first() + b);
        lemma_leading_concat(a.drop_first(), b, c);
    }
}

/// A sequence that holds nothing but `c` starts with as many copies of `c` as
/// it is long.
proof fn lemma_leading_repeat(c: char, n: nat)
    ensures
        leading(repeat(c, n), c) == n,
    decreases n,
{
    if n > 0 {
        assert(repeat(c, n).drop_first() =~= repeat(c, (n - 1) as nat));
        lemma_leading_repeat(c, (n - 1) as nat);
    }
}

/// A text that is not empty is the run of its first character followed by
/// the rest, which starts with another character.
proof fn lemma_split_leading(s: Seq<char>)
    requires
        s.len() > 0,
    ensures
        1 <= leading(s, s[0]) <= s.len(),
        s == repeat(s[0], leading(s, s[0])) + s.skip(leading(s, s[0]) as int),
        leading(s, s[0]) < s.len() ==> s[leading(s, s[0]) as int] != s[0],
{
    lemma_leading_bounds(s, s[0]);
}

/// Lexing distributes over concatenation at every seam that no run crosses.
///
/// In particular `lex_spec(a + b)` is `lex_spec(a)` followed by `lex_spec(b)`
/// where `b` is empty, and where the last character of `a` and the first of
/// `b` are different command symbols.
pub proof fn lemma_lex_concat(a: Seq<char>, b: Seq<char>)
    requires
        !joins(a, b),
    ensures
        lex_spec(a + b) == lex_spec(a) + lex_spec(b),
    decreases a.len(),
{
    let s = a + b;
    if a.len() == 0 {
        assert(s =~= b);
    } else if is_counted(a[0]) {
        // The run at the front of `a` stops inside `a`, or at its end, where
        // `b` does not continue it.
        let c = a[0];
        let n = leading(a, c);
        let rest = a.skip(n as int);
        lemma_leading_bounds(a, c);
        lemma_leading_concat(a, b, c);
        assert(leading(s, c) == n);
        assert(s.skip(n as int) =~= rest + b);
        assert(rest.len() > 0 ==> rest.last() == a.last());
        lemma_lex_concat(rest, b);
    } else {
        let rest = a.drop_first();
        assert(s.drop_first() =~= rest + b);
        assert(rest.len() > 0 ==> rest.last() == a.last());
        lemma_lex_concat(rest, b);
    }
}

/// At a seam that a run crosses, the two halves of the run merge into one
/// instruction: the stream of the whole is one shorter than the two streams
/// together, and so differs from their concatenation.
pub proof fn lemma_lex_joined(a: Seq<char>, b: Seq<char>)
    requires
        joins(a, b),
    ensures
        lex_spec(a + b).len() + 1 == lex_spec(a).len() + lex_spec(b).len(),
        lex_spec(a + b) != lex_spec(a) + lex_spec(b),
    decreases a.len(),
{
    let s = a + b;
    if is_counted(a[0]) {
        let c = a[0];
        let n = leading(a, c);
        lemma_leading_bounds(a, c);
        lemma_leading_concat(a, b, c);
        if n == a.len() {
            // `a` is one run, which the front of `b` continues.
            let m = leading(b, c);
            lemma_leading_bounds(b, c);
            assert(s.skip((n + m) as int) =~= b.skip(m as int));
            assert(lex_spec(a.skip(n as int)).len() == 0);
        } else {
            let rest = a.skip(n as int);
            assert(s.skip(n as int) =~= rest + b);
            assert(rest.last() == a.last());
            lemma_lex_joined(rest, b);
        }
    } else {
        let rest = a.drop_first();
        assert(s.drop_first() =~= rest + b);
        assert(rest.last() == a.last());
        lemma_lex_joined(rest, b);
    }
}

/// A maximal run of a counted symbol gives exactly one instruction, which
/// carries the length of the run, between the instructions of what stands
/// before the run and of what stands after it.
///
/// The run is `n` copies of `c`; it is maximal because `a` does not end with
/// `c` and `b` does not start with it.
pub proof fn lemma_maximal_run(a: Seq<char>, c: char, n: nat, b: Seq<char>)
    requires
        is_counted(c),
        n >= 1,
        a.len() == 0 || a.last() != c,
        b.len() == 0 || b[0] != c,
    ensures
        lex_spec(a + repeat(c, n) + b) == lex_spec(a) + seq![run_of(c, n)] + lex_spec(b),
{
    let run = repeat(c, n);
    let tail = run + b;
    assert(a + run + b =~= a + tail);
    lemma_lex_concat(a, tail);
    lemma_leading_repeat(c, n);
    lemma_leading_concat(run, b, c);
    assert(leading(tail, c) == n);
    assert(tail.skip(n as int) =~= b);
    assert(lex_spec(tail) == seq![run_of(c, n)] + lex_spec(b));
    assert(lex_spec(a) + (seq![run_of(c, n)] + lex_spec(b)) =~= lex_spec(a) + seq![run_of(c, n)]
        + lex_spec(b));
}

/// A comment gives no instruction and separates what stands on its two sides:
/// the text around it is lexed as two independent pieces.
///
/// So a comment placed inside a run splits that run in two.
pub proof fn lemma_comment_separates(a: Seq<char>, x: char, b: Seq<char>)
    requires
        !is_command(x),
    ensures
        lex_spec(a + seq![x] + b) == lex_spec(a) + lex_spec(b),
{
    let tail = seq![x] + b;
    assert(a + seq![x] + b =~= a + tail);
    lemma_lex_concat(a, tail);
    assert(tail.drop_first() =~= b);
    assert(lex_spec(tail) == lex_spec(b));
}

/// Inserting a comment, or removing one, leaves the instruction stream as it
/// was exactly where the comment interrupts no run.
pub proof fn lemma_comment_is_transparent(a: Seq<char>, x: char, b: Seq<char>)
    requires
        !is_command(x),
    ensures
        lex_spec(a + seq![x] + b) == lex_spec(a + b) <==> !joins(a, b),
{
    lemma_comment_separates(a, x, b);
    if joins(a, b) {
        lemma_lex_joined(a, b);
    } else {
        lemma_lex_concat(a, b);
    }
}

/// Filtering a sequence of one element keeps it or drops it.
proof fn lemma_filter_one<A>(x: A, pred: spec_fn(A) -> bool)
    ensures
        pred(x) ==> seq![x].filter(pred) == seq![x],
        !pred(x) ==> seq![x].filter(pred) == Seq::<A>::empty(),
{
    reveal_with_fuel(Seq::filter, 2);
    assert(seq![x].drop_last() =~= Seq::<A>::empty());
}

/// Filtering looks at the first element and then at the rest.
proof fn lemma_filter_first<A>(x: A, rest: Seq<A>, pred: spec_fn(A) -> bool)
    ensures
        pred(x) ==> (seq![x] + rest).filter(pred) == seq![x] + rest.filter(pred),
        !pred(x) ==> (seq![x] + rest).filter(pred) == rest.filter(pred),
{
    Seq::filter_distributes_over_add(seq![x], rest, pred);
    lemma_filter_one(x, pred);
}

/// Filtering copies of one character keeps them all or drops them all.
proof fn lemma_filter_repeat(c: char, n: nat, pred: spec_fn(char) -> bool)
    ensures
        pred(c) ==> repeat(c, n).filter(pred) == repeat(c, n),
        !pred(c) ==> repeat(c, n).filter(pred) == Seq::<char>::empty(),
    decreases n,
{
    reveal(Seq::filter);
    if n > 0 {
        assert(repeat(c, n).drop_last() =~= repeat(c, (n - 1) as nat));
        lemma_filter_repeat(c, (n - 1) as nat, pred);
    }
}

/// Filtering drops a run at the front whose symbol it rejects.
proof fn lemma_filter_skips_run(c: char, n: nat, rest: Seq<char>, pred: spec_fn(char) -> bool)
    requires
        !pred(c),
    ensures
        (repeat(c, n) + rest).filter(pred) == rest.filter(pred),
{
    Seq::filter_distributes_over_add(repeat(c, n), rest, pred);
    lemma_filter_repeat(c, n, pred);
}

/// A repetition at or after position `n` of `s` is a repetition of what
/// follows the first `n` characters, and the other way round.
proof fn lemma_repetition_shifts(s: Seq<char>, n: int)
    requires
        0 <= n <= s.len(),
    ensures
        has_repetition(s.skip(n)) <==> exists|i: int|
            n <= i && i + 1 < s.len() && is_counted(#[trigger] s[i]) && s[i + 1] == s[i],
{
    let rest = s.skip(n);
    if has_repetition(rest) {
        let j = choose|j: int|
            0 <= j && j + 1 < rest.len() && is_counted(#[trigger] rest[j]) && rest[j + 1]
                == rest[j];
        assert(is_counted(s[n + j]) && s[n + j + 1] == s[n + j]);
    }
    if exists|i: int| n <= i && i + 1 < s.len() && is_counted(#[trigger] s[i]) && s[i + 1] == s[i] {
        let i = choose|i: int|
            n <= i && i + 1 < s.len() && is_counted(#[trigger] s[i]) && s[i + 1] == s[i];
        assert(is_counted(rest[i - n]) && rest[i - n + 1] == rest[i - n]);
    }
}

/// The stream is never longer than the number of command symbols in the
/// text, and exactly as long where no counted symbol is immediately
/// repeated.
///
/// Brackets do not merge, so a doubled bracket does not shorten the stream.
pub proof fn lemma_length(s: Seq<char>)
    ensures
        lex_spec(s).len() <= commands(s).len(),
        lex_spec(s).len() == commands(s).len() <==> !has_repetition(s),
    decreases s.len(),
{
    let command = |c: char| is_command(c);
    if s.len() == 0 {
        reveal(Seq::filter);
    } else if is_counted(s[0]) {
        let c = s[0];
        let n = leading(s, c);
        let rest = s.skip(n as int);
        lemma_split_leading(s);
        lemma_length(rest);
        Seq::filter_distributes_over_add(repeat(c, n), rest, command);
        lemma_filter_repeat(c, n, command);
        assert(commands(s).len() == n + commands(rest).len());
        // A repetition in `s` lies in the run at the front, which then has two
        // characters or more, or in the rest.
        lemma_repetition_shifts(s, n as int);
        assert(has_repetition(s) <==> n >= 2 || has_repetition(rest)) by {
            if n >= 2 {
                assert(is_counted(s[0]) && s[1] == s[0]);
            }
        }
    } else {
        let rest = s.drop_first();
        lemma_length(rest);
        assert(s =~= seq![s[0]] + rest);
        lemma_filter_first(s[0], rest, command);
        lemma_repetition_shifts(s, 1);
        assert(has_repetition(s) <==> has_repetition(rest));
    }
}

/// The loop instructions of the stream are the placeholders of the brackets
/// of the text, one for one and in the same order: `LoopStart` for `[` and
/// `LoopEnd` for `]`. In particular there are as many of each as the text
/// has brackets of that kind.
pub proof fn lemma_brackets(s: Seq<char>)
    ensures
        loop_instructions(lex_spec(s)) == placeholders(brackets(s)),
        loop_starts(lex_spec(s)) == occurrences(s, '['),
        loop_ends(lex_spec(s)) == occurrences(s, ']'),
    decreases s.len(),
{
    let any = |x: Instruction| x.is_loop();
    let start = |x: Instruction| x is LoopStart;
    let end = |x: Instruction| x is LoopEnd;
    let bracket = |c: char| is_bracket(c);
    let open = is_char('[');
    let close = is_char(']');
    if s.len() == 0 {
        reveal(Seq::filter);
    } else if is_counted(s[0]) {
        let c = s[0];
        let n = leading(s, c);
        let rest = s.skip(n as int);
        let first = run_of(c, n);
        lemma_split_leading(s);
        lemma_brackets(rest);
        lemma_filter_skips_run(c, n, rest, bracket);
        lemma_filter_skips_run(c, n, rest, open);
        lemma_filter_skips_run(c, n, rest, close);
        lemma_filter_first(first, lex_spec(rest), any);
        lemma_filter_first(first, lex_spec(rest), start);
        lemma_filter_first(first, lex_spec(rest), end);
    } else {
        let x = s[0];
        let rest = s.drop_first();
        assert(s =~= seq![x] + rest);
        lemma_brackets(rest);
        lemma_filter_first(x, rest, bracket);
        lemma_filter_first(x, rest, open);
        lemma_filter_first(x, rest, close);
        if is_bracket(x) {
            let first = marker_of(x);
            lemma_filter_first(first, lex_spec(rest), any);
            lemma_filter_first(first, lex_spec(rest), start);
            lemma_filter_first(first, lex_spec(rest), end);
            assert(placeholders(seq![x] + brackets(rest)) =~= seq![first] + placeholders(
                brackets(rest),
            ));
        }
    }
}

/// Every instruction of the stream is fresh: no run has length zero, and no
/// loop instruction has a target yet.
pub proof fn lemma_fresh(s: Seq<char>)
    ensures
        forall|i: int| 0 <= i < lex_spec(s).len() ==> (#[trigger] lex_spec(s)[i]).fresh(),
    decreases s.len(),
{
    if s.len() > 0 {
        let rest = if is_counted(s[0]) {
            s.skip(leading(s, s[0]) as int)
        } else {
            s.drop_first()
        };
        lemma_split_leading(s);
        lemma_fresh(rest);
        assert forall|i: int| 0 <= i < lex_spec(s).len() implies (#[trigger] lex_spec(
            s,
        )[i]).fresh() by {
            if is_command(s[0]) && i > 0 {
                assert(lex_spec(s)[i] == lex_spec(rest)[i - 1]);
            }
        }
    }
}

} // verus!
