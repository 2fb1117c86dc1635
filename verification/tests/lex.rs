use bf_lexer::{lex, Op, UNRESOLVED};

fn is_command(c: char) -> bool {
    matches!(c, '+' | '-' | '<' | '>' | '.' | ',' | '[' | ']')
}

fn command_count(source: &str) -> usize {
    source.chars().filter(|c| is_command(*c)).count()
}

fn is_jump(op: &Op) -> bool {
    matches!(op, Op::JumpIfZero(_) | Op::JumpIfNonZero(_))
}

fn payload(op: &Op) -> usize {
    match *op {
        Op::Inc(n)
        | Op::Dec(n)
        | Op::Left(n)
        | Op::Right(n)
        | Op::Write(n)
        | Op::Read(n)
        | Op::JumpIfZero(n)
        | Op::JumpIfNonZero(n) => n,
    }
}

#[test]
fn empty_source_gives_no_instruction() {
    assert_eq!(lex(""), vec![]);
}

#[test]
fn three_plus_give_one_increment() {
    assert_eq!(lex("+++"), vec![Op::Inc(3)]);
}

#[test]
fn two_runs_give_two_instructions() {
    assert_eq!(lex("+++---"), vec![Op::Inc(3), Op::Dec(3)]);
}

#[test]
fn simple_loop() {
    assert_eq!(
        lex("[+]"),
        vec![Op::JumpIfZero(UNRESOLVED), Op::Inc(1), Op::JumpIfNonZero(UNRESOLVED)]
    );
}

#[test]
fn letters_are_comments() {
    assert_eq!(lex("hello+++"), vec![Op::Inc(3)]);
}

#[test]
fn unbalanced_closing_bracket_is_lexed() {
    assert_eq!(
        lex("+++]+++"),
        vec![Op::Inc(3), Op::JumpIfNonZero(UNRESOLVED), Op::Inc(3)]
    );
}

#[test]
fn only_comments_give_no_instruction() {
    assert_eq!(lex("hello world"), vec![]);
    assert_eq!(lex(" \n\t#!"), vec![]);
}

#[test]
fn single_command_counts_one() {
    assert_eq!(lex("+"), vec![Op::Inc(1)]);
    assert_eq!(lex("-"), vec![Op::Dec(1)]);
    assert_eq!(lex("<"), vec![Op::Left(1)]);
    assert_eq!(lex(">"), vec![Op::Right(1)]);
    assert_eq!(lex("."), vec![Op::Write(1)]);
    assert_eq!(lex(","), vec![Op::Read(1)]);
    assert_eq!(lex("["), vec![Op::JumpIfZero(0)]);
    assert_eq!(lex("]"), vec![Op::JumpIfNonZero(0)]);
}

#[test]
fn every_counted_symbol_merges() {
    assert_eq!(lex("++++"), vec![Op::Inc(4)]);
    assert_eq!(lex("--"), vec![Op::Dec(2)]);
    assert_eq!(lex("<<<"), vec![Op::Left(3)]);
    assert_eq!(lex(">>>>>"), vec![Op::Right(5)]);
    assert_eq!(lex(".."), vec![Op::Write(2)]);
    assert_eq!(lex(",,,"), vec![Op::Read(3)]);
}

#[test]
fn comment_breaks_a_run() {
    assert_eq!(lex("++x++"), vec![Op::Inc(2), Op::Inc(2)]);
    assert_eq!(lex("+ +"), vec![Op::Inc(1), Op::Inc(1)]);
    assert_eq!(lex(">>\n>"), vec![Op::Right(2), Op::Right(1)]);
}

#[test]
fn different_commands_do_not_merge() {
    assert_eq!(lex("+-+"), vec![Op::Inc(1), Op::Dec(1), Op::Inc(1)]);
    assert_eq!(lex("<>"), vec![Op::Left(1), Op::Right(1)]);
    assert_eq!(lex(".,"), vec![Op::Write(1), Op::Read(1)]);
}

#[test]
fn bracket_next_to_a_run_stands_alone() {
    assert_eq!(lex("+++["), vec![Op::Inc(3), Op::JumpIfZero(UNRESOLVED)]);
    assert_eq!(lex("]---"), vec![Op::JumpIfNonZero(UNRESOLVED), Op::Dec(3)]);
    assert_eq!(
        lex("++[++"),
        vec![Op::Inc(2), Op::JumpIfZero(UNRESOLVED), Op::Inc(2)]
    );
}

#[test]
fn brackets_never_merge() {
    assert_eq!(lex("[["), vec![Op::JumpIfZero(0), Op::JumpIfZero(0)]);
    assert_eq!(
        lex("]]]"),
        vec![Op::JumpIfNonZero(0), Op::JumpIfNonZero(0), Op::JumpIfNonZero(0)]
    );
    assert_eq!(lex("[]"), vec![Op::JumpIfZero(0), Op::JumpIfNonZero(0)]);
}

#[test]
fn unresolved_is_zero() {
    assert_eq!(UNRESOLVED, 0);
}

#[test]
fn characters_are_scanned_not_bytes() {
    assert_eq!(lex("+é+"), vec![Op::Inc(1), Op::Inc(1)]);
    assert_eq!(lex("日本語--"), vec![Op::Dec(2)]);
    assert_eq!(lex("<<\u{1F600}<"), vec![Op::Left(2), Op::Left(1)]);
    assert_eq!(lex("＋+"), vec![Op::Inc(1)]);
}

#[test]
fn long_run_is_counted_exactly() {
    let source = "+".repeat(100_000);
    assert_eq!(lex(&source), vec![Op::Inc(100_000)]);
}

#[test]
fn hello_world_prefix() {
    assert_eq!(
        lex("++++++++[>++++[>++>+++>+++>+<<<<-]"),
        vec![
            Op::Inc(8),
            Op::JumpIfZero(0),
            Op::Right(1),
            Op::Inc(4),
            Op::JumpIfZero(0),
            Op::Right(1),
            Op::Inc(2),
            Op::Right(1),
            Op::Inc(3),
            Op::Right(1),
            Op::Inc(3),
            Op::Right(1),
            Op::Inc(1),
            Op::Left(4),
            Op::Dec(1),
            Op::JumpIfNonZero(0),
        ]
    );
}

#[test]
fn cat_program() {
    assert_eq!(
        lex(",[.,]"),
        vec![
            Op::Read(1),
            Op::JumpIfZero(0),
            Op::Write(1),
            Op::Read(1),
            Op::JumpIfNonZero(0),
        ]
    );
}

#[test]
fn output_is_never_longer_than_the_commands() {
    for source in ["", "abc", "+++", "+-+-", "++[->+<]..", "a+b+c", "[[]]", "+ + +", ",,..<<>>"] {
        assert!(lex(source).len() <= command_count(source), "{source:?}");
    }
}

#[test]
fn output_is_as_long_as_the_commands_without_repetition() {
    assert_eq!(lex("+-<>.,[]").len(), 8);
    assert_eq!(lex("+x+y+").len(), 3);
    assert_eq!(lex("[[]]").len(), 4);
    assert_eq!(command_count("[[]]"), 4);
    assert_eq!(lex("++").len(), 1);
    assert_eq!(command_count("++"), 2);
    assert_eq!(lex("+-[..]").len(), 5);
    assert_eq!(command_count("+-[..]"), 6);
}

#[test]
fn maximal_run_gives_one_instruction_in_place() {
    let before = "[-x";
    let after = "<.]";
    for n in 1..20 {
        let run = ">".repeat(n);
        let mut expected = lex(before);
        expected.push(Op::Right(n));
        expected.extend(lex(after));
        assert_eq!(lex(&format!("{before}{run}{after}")), expected);
    }
}

#[test]
fn lexing_distributes_over_clean_seams() {
    let pieces = ["", "+", "++-", "[", "]x", "x", ">>.", ",,", "+++]"];
    for a in pieces {
        for b in pieces {
            let crossing = match (a.chars().last(), b.chars().next()) {
                (Some(x), Some(y)) => x == y && !matches!(x, '[' | ']') && is_command(x),
                _ => false,
            };
            let mut joined = lex(a);
            joined.extend(lex(b));
            assert_eq!(lex(&format!("{a}{b}")) == joined, !crossing, "{a:?} {b:?}");
        }
    }
}

#[test]
fn run_across_a_seam_merges() {
    assert_eq!(lex("++"), vec![Op::Inc(2)]);
    let mut apart = lex("+");
    apart.extend(lex("+"));
    assert_eq!(apart, vec![Op::Inc(1), Op::Inc(1)]);
}

#[test]
fn brackets_keep_their_number_and_order() {
    for source in ["", "[", "]", "[]", "][", "+[->+<]", "[[x]]]+[", "a[b]c]d[e", "++[[++]]"] {
        let jumps: Vec<Op> = lex(source).into_iter().filter(is_jump).collect();
        let expected: Vec<Op> = source
            .chars()
            .filter(|c| matches!(c, '[' | ']'))
            .map(|c| if c == '[' { Op::JumpIfZero(0) } else { Op::JumpIfNonZero(0) })
            .collect();
        assert_eq!(jumps, expected, "{source:?}");
        let opens = lex(source).iter().filter(|op| matches!(op, Op::JumpIfZero(_))).count();
        let closes = lex(source).iter().filter(|op| matches!(op, Op::JumpIfNonZero(_))).count();
        assert_eq!(opens, source.chars().filter(|c| *c == '[').count());
        assert_eq!(closes, source.chars().filter(|c| *c == ']').count());
    }
}

#[test]
fn comment_at_a_clean_seam_changes_nothing() {
    assert_eq!(lex("+x-"), lex("+-"));
    assert_eq!(lex("x+-"), lex("+-"));
    assert_eq!(lex("+-x"), lex("+-"));
    assert_eq!(lex("++ [ - ] >>"), lex("++[-]>>"));
    assert_eq!(lex("[x["), lex("[["));
}

#[test]
fn comment_inside_a_run_splits_it() {
    assert_eq!(lex("+++++"), vec![Op::Inc(5)]);
    assert_eq!(lex("++ +++"), vec![Op::Inc(2), Op::Inc(3)]);
    let mut halves = lex("..");
    halves.extend(lex("."));
    assert_eq!(lex("..#."), halves);
}

#[test]
fn no_run_has_length_zero_and_no_jump_has_a_target() {
    for source in ["", "+", "x+x", "[+]", "++[->+<]..,,", "]]x[[", "+ - < > . ,"] {
        for op in lex(source) {
            if is_jump(&op) {
                assert_eq!(payload(&op), UNRESOLVED);
            } else {
                assert!(payload(&op) >= 1);
            }
        }
    }
}

#[test]
fn lexing_twice_gives_the_same_stream() {
    let source = "++[>+++<-]>.";
    assert_eq!(lex(source), lex(source));
}
