use bf_jit::brackets::resolve;
use bf_jit::brackets::Bracket::{Closer, Opener, Plain};
use bf_jit::bytecode_bf::ByteCode::{
    DataDecr, DataIncr, DataPointerDecr, DataPointerIncr, MoveInStepUntilZero, Nop, Read, Write,
    JNZ, JZ, SETZERO,
};
use bf_jit::bytecode_bf::{ByteCodeProgram, Change};
use bf_jit::error::JitError;
use bf_jit::parser::{token_opcode, Parser};

#[test]
fn bytecode_parser() {
    let code = ">>++<<.,[]--";
    assert_eq!(
        Parser::parse_to_bytecode(code.to_owned()).instructions,
        vec![
            DataPointerIncr(2),
            DataIncr(2),
            DataPointerDecr(2),
            Write,
            Read,
            JZ,
            JNZ,
            DataDecr(2)
        ]
    );
}

#[test]
fn lexer_keeps_only_tokens_in_order() {
    let program = Parser::parse("a+ b-\n[c>.<,]\t# done é".to_owned());
    assert_eq!(program.instructions, vec!['+', '-', '[', '>', '.', '<', ',', ']']);
}

#[test]
fn lexer_of_empty_text_is_empty() {
    assert!(Parser::parse(String::new()).instructions.is_empty());
    assert!(Parser::parse("no tokens here".to_owned()).instructions.is_empty());
}

#[test]
fn count_contigous_stops_at_first_other() {
    assert_eq!(Parser::count_contigous(&['+', '+', '+', '-', '+'], '+'), 3);
    assert_eq!(Parser::count_contigous(&['+', '+'], '+'), 2);
    assert_eq!(Parser::count_contigous(&['-', '+'], '+'), 0);
    assert_eq!(Parser::count_contigous(&[], '+'), 0);
}

#[test]
fn lowering_of_empty_text_is_empty() {
    assert!(Parser::parse_to_bytecode(String::new()).instructions.is_empty());
}

#[test]
fn lowering_counts_long_runs() {
    let source: String = "+".repeat(300);
    assert_eq!(
        Parser::parse_to_bytecode(source).instructions,
        vec![DataIncr(300)]
    );
}

#[test]
fn lowering_does_not_merge_brackets_or_io() {
    assert_eq!(
        Parser::parse_to_bytecode("[[..,,]]".to_owned()).instructions,
        vec![JZ, JZ, Write, Write, Read, Read, JNZ, JNZ]
    );
}

#[test]
fn lowering_is_a_contraction() {
    let without_runs = "+-+-><><[.,]";
    assert_eq!(
        Parser::parse_to_bytecode(without_runs.to_owned()).instructions.len(),
        without_runs.len()
    );
    let with_runs = "+-++-><><[.,]";
    assert!(Parser::parse_to_bytecode(with_runs.to_owned()).instructions.len() < with_runs.len());
    assert_eq!(Parser::parse_to_bytecode(with_runs.to_owned()).instructions.len(), 12);
}

#[test]
fn token_opcode_of_each_token() {
    assert_eq!(token_opcode('>', 4), DataPointerIncr(4));
    assert_eq!(token_opcode('<', 4), DataPointerDecr(4));
    assert_eq!(token_opcode('+', 4), DataIncr(4));
    assert_eq!(token_opcode('-', 4), DataDecr(4));
    assert_eq!(token_opcode('.', 4), Write);
    assert_eq!(token_opcode(',', 4), Read);
    assert_eq!(token_opcode('[', 4), JZ);
    assert_eq!(token_opcode(']', 4), JNZ);
    assert_eq!(token_opcode('x', 4), Nop);
}

#[test]
fn optimizer_rewrites_the_four_patterns() {
    let mut prog = Parser::parse_to_bytecode("[+][---][>>>][<<]".to_owned());
    prog.opt_pass_1();
    assert_eq!(
        prog.instructions,
        vec![
            SETZERO,
            SETZERO,
            MoveInStepUntilZero(Change::Incr(3)),
            MoveInStepUntilZero(Change::Decr(2))
        ]
    );
}

#[test]
fn optimizer_leaves_other_loops_alone() {
    let mut prog = Parser::parse_to_bytecode("+[>+<-][.][,][]".to_owned());
    let before = prog.instructions.clone();
    prog.opt_pass_1();
    assert_eq!(prog.instructions, before);
    assert_eq!(
        before,
        vec![
            DataIncr(1),
            JZ,
            DataPointerIncr(1),
            DataIncr(1),
            DataPointerDecr(1),
            DataDecr(1),
            JNZ,
            JZ,
            Write,
            JNZ,
            JZ,
            Read,
            JNZ,
            JZ,
            JNZ
        ]
    );
}

#[test]
fn optimizer_works_in_a_single_pass_from_the_left() {
    let mut prog = ByteCodeProgram {
        instructions: vec![JZ, JZ, DataIncr(1), JNZ, JNZ, DataDecr(2)],
    };
    prog.opt_pass_1();
    assert_eq!(prog.instructions, vec![JZ, SETZERO, JNZ, DataDecr(2)]);
}

#[test]
fn optimizer_shortens_and_keeps_balance() {
    let mut prog = Parser::parse_to_bytecode("++[>[-]<[>>]-]".to_owned());
    let before = prog.instructions.len();
    assert!(prog.compute_jumptable().is_ok());
    prog.opt_pass_1();
    assert_eq!(prog.instructions.len(), before - 4);
    assert!(prog.compute_jumptable().is_ok());

    let mut broken = Parser::parse_to_bytecode("[[-]".to_owned());
    assert_eq!(broken.compute_jumptable(), Err(JitError::UnbalancedBrackets(0)));
    broken.opt_pass_1();
    assert_eq!(broken.compute_jumptable(), Err(JitError::UnbalancedBrackets(0)));
}

#[test]
fn is_set_zero_and_is_move_until_zero() {
    assert!(ByteCodeProgram::is_set_zero(&[JZ, DataIncr(1), JNZ]));
    assert!(ByteCodeProgram::is_set_zero(&[JZ, DataDecr(7), JNZ, Write]));
    assert!(!ByteCodeProgram::is_set_zero(&[JZ, DataDecr(7)]));
    assert!(!ByteCodeProgram::is_set_zero(&[JZ, DataPointerIncr(1), JNZ]));
    assert!(!ByteCodeProgram::is_set_zero(&[Write, DataIncr(1), JNZ]));
    assert_eq!(
        ByteCodeProgram::is_move_until_zero(&[JZ, DataPointerIncr(5), JNZ]),
        Some(Change::Incr(5))
    );
    assert_eq!(
        ByteCodeProgram::is_move_until_zero(&[JZ, DataPointerDecr(2), JNZ, JNZ]),
        Some(Change::Decr(2))
    );
    assert_eq!(ByteCodeProgram::is_move_until_zero(&[JZ, DataIncr(1), JNZ]), None);
    assert_eq!(ByteCodeProgram::is_move_until_zero(&[JZ, DataPointerDecr(2)]), None);
}

#[test]
fn jump_table_pairs_brackets() {
    let program = Parser::parse("+[>[-]<[.]]".to_owned());
    let table = program.compute_jumptable().unwrap();
    assert_eq!(table, vec![0, 10, 0, 5, 0, 3, 0, 9, 0, 7, 1]);
    for (i, c) in program.instructions.iter().enumerate() {
        if *c == '[' || *c == ']' {
            assert_eq!(table[table[i]], i);
            assert_ne!(program.instructions[table[i]], *c);
        }
    }
}

#[test]
fn jump_table_of_bytecode() {
    let prog = Parser::parse_to_bytecode("++[>>[-]<<[..]]".to_owned());
    assert_eq!(prog.compute_jumptable(), Ok(vec![0, 11, 0, 5, 0, 3, 0, 10, 0, 0, 7, 1]));
}

#[test]
fn lone_bracket_is_unbalanced() {
    assert_eq!(
        Parser::parse("[".to_owned()).compute_jumptable(),
        Err(JitError::UnbalancedBrackets(0))
    );
    assert_eq!(
        Parser::parse("]".to_owned()).compute_jumptable(),
        Err(JitError::UnbalancedBrackets(0))
    );
    assert_eq!(
        Parser::parse_to_bytecode("[".to_owned()).compute_jumptable(),
        Err(JitError::UnbalancedBrackets(0))
    );
    assert_eq!(
        Parser::parse_to_bytecode("]".to_owned()).compute_jumptable(),
        Err(JitError::UnbalancedBrackets(0))
    );
}

#[test]
fn unbalanced_reports_first_bracket_without_partner() {
    assert_eq!(
        Parser::parse("+[[]".to_owned()).compute_jumptable(),
        Err(JitError::UnbalancedBrackets(1))
    );
    assert_eq!(
        Parser::parse("[]]+[".to_owned()).compute_jumptable(),
        Err(JitError::UnbalancedBrackets(2))
    );
    assert_eq!(
        Parser::parse("[][[]".to_owned()).compute_jumptable(),
        Err(JitError::UnbalancedBrackets(2))
    );
}

#[test]
fn resolve_on_bracket_kinds() {
    assert_eq!(resolve(&vec![]), Ok(vec![]));
    assert_eq!(resolve(&vec![Plain, Plain]), Ok(vec![0, 0]));
    assert_eq!(resolve(&vec![Opener, Opener, Closer, Closer]), Ok(vec![3, 2, 1, 0]));
    assert_eq!(resolve(&vec![Opener, Closer, Closer]), Err(2));
    assert_eq!(resolve(&vec![Opener, Opener, Closer]), Err(0));
}
