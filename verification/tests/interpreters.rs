use bf_jit::bytecode_bf::{ByteCode, ByteCodeProgram, Change};
use bf_jit::error::JitError;
use bf_jit::machine::{Execution, Halt, Machine, Step};
use bf_jit::parser::Parser;

const HELLO_WORLD: &str = "++++++++[>++++[>++>+++>+++>+<<<<-]>+>+>->>+[<]<-]>>.>---.+++++++..+++.>>.<-.<.+++.------.--------.>>+.>++.";

fn walk(source: &str, input: &[u8]) -> Execution {
    Parser::parse(source.to_owned()).eval(input, 1_000_000).unwrap()
}

fn interpret(source: &str, input: &[u8]) -> Execution {
    let mut prog = Parser::parse_to_bytecode(source.to_owned());
    prog.opt_pass_1();
    prog.eval(input, 1_000_000).unwrap()
}

fn both(source: &str, input: &[u8], expected: &[u8]) {
    let a = walk(source, input);
    assert_eq!(a.halt, Halt::Finished);
    assert_eq!(a.output, expected);
    let b = interpret(source, input);
    assert_eq!(b.halt, Halt::Finished);
    assert_eq!(b.output, expected);
}

#[test]
fn bf_hello_world() {
    let run = walk(HELLO_WORLD, &[]);
    assert_eq!(run.halt, Halt::Finished);
    assert_eq!(run.output, b"Hello World!\n\n");
}

#[test]
fn bytecode_bf_hello_world() {
    let run = interpret(HELLO_WORLD, &[]);
    assert_eq!(run.halt, Halt::Finished);
    assert_eq!(run.output, b"Hello World!\n\n");
}

#[test]
fn empty_program_writes_only_the_newline() {
    both("", &[], b"\n");
    let run = Parser::parse(String::new()).eval(&[], 0).unwrap();
    assert_eq!(run.halt, Halt::Finished);
    assert_eq!(run.output, b"\n");
}

#[test]
fn multiplication_loop_writes_capital_a() {
    both("++++++++[>++++++++<-]>+.", &[], &[0x41, b'\n']);
}

#[test]
fn nested_loops_write_fifty() {
    both("+++++[>+++++[>++<-]<-]>>.", &[], &[50, b'\n']);
}

#[test]
fn input_is_echoed() {
    both(",.", b"X", &[b'X', b'\n']);
}

#[test]
fn moving_a_value_writes_ten() {
    both(">>>++++++++++[<+>-]<.", &[], &[10, b'\n']);
}

#[test]
fn input_is_consumed_byte_by_byte() {
    both(",>,>,.<.<.", b"abc", b"cba\n");
}

#[test]
fn exhausted_input_stops_the_run() {
    let run = walk(".,.", &[]);
    assert_eq!(run.halt, Halt::InputExhausted);
    assert_eq!(run.output, &[0]);
    let run = interpret("+.,.,.", b"x");
    assert_eq!(run.halt, Halt::InputExhausted);
    assert_eq!(run.output, &[1, b'x']);
}

#[test]
fn fuel_bounds_the_run() {
    let run = Parser::parse("+[]".to_owned()).eval(&[], 1000).unwrap();
    assert_eq!(run.halt, Halt::OutOfFuel);
    assert!(run.output.is_empty());
    let run = Parser::parse("+.+.+.".to_owned()).eval(&[], 4).unwrap();
    assert_eq!(run.halt, Halt::OutOfFuel);
    assert_eq!(run.output, &[1, 2]);
    let run = Parser::parse("+.+.+.".to_owned()).eval(&[], 6).unwrap();
    assert_eq!(run.halt, Halt::Finished);
    assert_eq!(run.output, &[1, 2, 3, b'\n']);
}

#[test]
fn leaving_the_tape_stops_the_run() {
    let mut prog = ByteCodeProgram {
        instructions: vec![
            ByteCode::DataIncr(7),
            ByteCode::Write,
            ByteCode::DataPointerIncr(29999),
            ByteCode::Write,
            ByteCode::DataPointerIncr(1),
            ByteCode::Write,
        ],
    };
    let run = prog.eval(&[], 100).unwrap();
    assert_eq!(run.halt, Halt::TapeOverrun);
    assert_eq!(run.output, &[7, 0]);
    prog.instructions = vec![ByteCode::DataIncr(1), ByteCode::MoveInStepUntilZero(Change::Incr(usize::MAX))];
    assert_eq!(prog.eval(&[], 100).unwrap().halt, Halt::TapeOverrun);
    let run = Parser::parse("+[>+]".to_owned()).eval(&[], 1_000_000).unwrap();
    assert_eq!(run.halt, Halt::TapeOverrun);
}

#[test]
fn unbalanced_programs_are_not_run() {
    assert_eq!(
        Parser::parse("+[".to_owned()).eval(&[], 10).unwrap_err(),
        JitError::UnbalancedBrackets(1)
    );
    assert_eq!(
        Parser::parse_to_bytecode("++]".to_owned()).eval(&[], 10).unwrap_err(),
        JitError::UnbalancedBrackets(1)
    );
}

#[test]
fn cells_wrap_modulo_256() {
    both("-.", &[], &[255, b'\n']);
    both("--.++.+.", &[], &[254, 0, 1, b'\n']);
    let prog = ByteCodeProgram {
        instructions: vec![
            ByteCode::DataIncr(300),
            ByteCode::Write,
            ByteCode::DataDecr(301),
            ByteCode::Write,
            ByteCode::DataIncr(usize::MAX),
            ByteCode::Write,
        ],
    };
    let run = prog.eval(&[], 100).unwrap();
    let last = ((255usize + usize::MAX % 256) % 256) as u8;
    assert_eq!(run.output, &[44, 255, last, b'\n']);
}

#[test]
fn cell_add_then_sub_gives_the_cell_back() {
    for v in [0u8, 1, 99, 200, 255] {
        for d in [0usize, 1, 57, 255, 256, 1000, usize::MAX] {
            let mut m = Machine::new();
            m.memory[0] = v;
            assert_eq!(m.apply(ByteCode::DataIncr(d), 0, None), Step::Continue);
            assert_eq!(m.apply(ByteCode::DataDecr(d), 0, None), Step::Continue);
            assert_eq!(m.memory[0], v);
            assert_eq!(m.pc, 2);
        }
    }
}

#[test]
fn pointer_sub_at_cursor_zero_stays_at_zero() {
    let mut m = Machine::new();
    assert_eq!(m.apply(ByteCode::DataPointerDecr(1), 0, None), Step::Continue);
    assert_eq!(m.data_counter, 0);
    assert_eq!(m.apply(ByteCode::DataPointerDecr(usize::MAX), 0, None), Step::Continue);
    assert_eq!(m.data_counter, 0);
    assert_eq!(m.apply(ByteCode::DataPointerIncr(5), 0, None), Step::Continue);
    assert_eq!(m.apply(ByteCode::DataPointerDecr(7), 0, None), Step::Continue);
    assert_eq!(m.data_counter, 0);
    assert_eq!(m.apply(ByteCode::DataPointerIncr(5), 0, None), Step::Continue);
    assert_eq!(m.apply(ByteCode::DataPointerDecr(2), 0, None), Step::Continue);
    assert_eq!(m.data_counter, 3);

    let program = Parser::parse("<<<".to_owned());
    let table = program.compute_jumptable().unwrap();
    let mut m = Machine::new();
    while program.step(&table, &mut m, None) != Step::Done {}
    assert_eq!(m.data_counter, 0);
    assert_eq!(m.pc, 3);
}

fn run_tokens_on(source: &str, m: &mut Machine) -> Vec<u8> {
    let program = Parser::parse(source.to_owned());
    let table = program.compute_jumptable().unwrap();
    let mut out = vec![];
    loop {
        match program.step(&table, m, None) {
            Step::Continue => {}
            Step::Output(b) => out.push(b),
            Step::Done => return out,
            other => panic!("unexpected step {:?}", other),
        }
    }
}

fn run_bytecode_on(source: &str, m: &mut Machine) -> Vec<u8> {
    let mut prog = Parser::parse_to_bytecode(source.to_owned());
    prog.opt_pass_1();
    let table = prog.compute_jumptable().unwrap();
    let mut out = vec![];
    loop {
        match prog.step(&table, m, None) {
            Step::Continue => {}
            Step::Output(b) => out.push(b),
            Step::Done => return out,
            other => panic!("unexpected step {:?}", other),
        }
    }
}

#[test]
fn clearing_loop_zeroes_the_cell() {
    let mut m = Machine::new();
    m.memory[0] = 99;
    assert!(run_tokens_on("[-]", &mut m).is_empty());
    assert_eq!(m.memory[0], 0);
    let mut m = Machine::new();
    m.memory[0] = 99;
    assert!(run_bytecode_on("[-]", &mut m).is_empty());
    assert_eq!(m.memory[0], 0);
}

#[test]
fn set_zero_clears_whatever_the_cell_holds() {
    for source in ["[+]", "[-]"] {
        for v in [0u8, 1, 99, 255] {
            let mut m = Machine::new();
            m.memory[0] = v;
            run_bytecode_on(source, &mut m);
            assert_eq!(m.memory[0], 0);
            let mut m = Machine::new();
            m.memory[0] = v;
            run_tokens_on(source, &mut m);
            assert_eq!(m.memory[0], 0);
        }
    }
    let mut m = Machine::new();
    m.memory[0] = 77;
    assert_eq!(m.apply(ByteCode::SETZERO, 0, None), Step::Continue);
    assert_eq!(m.memory[0], 0);
}

#[test]
fn scan_moves_to_the_next_zero_cell() {
    for source in ["[>>]", "[<]", "[<<<]"] {
        let mut a = Machine::new();
        let mut b = Machine::new();
        for m in [&mut a, &mut b] {
            for i in 1..9 {
                m.memory[i] = 1;
            }
            m.memory[6] = 0;
            m.memory[3] = 0;
            m.data_counter = 4;
        }
        run_tokens_on(source, &mut a);
        run_bytecode_on(source, &mut b);
        assert_eq!(a.data_counter, b.data_counter);
        assert_eq!(a.memory, b.memory);
    }
    let mut m = Machine::new();
    m.memory[2] = 1;
    m.memory[1] = 1;
    m.data_counter = 2;
    run_bytecode_on("[<]", &mut m);
    assert_eq!(m.data_counter, 0);
    let mut m = Machine::new();
    m.memory[4] = 1;
    m.memory[1] = 1;
    m.data_counter = 4;
    assert_eq!(m.apply(ByteCode::MoveInStepUntilZero(Change::Decr(3)), 0, None), Step::Continue);
    assert_eq!((m.data_counter, m.pc), (1, 0));
    assert_eq!(m.apply(ByteCode::MoveInStepUntilZero(Change::Decr(3)), 0, None), Step::Continue);
    assert_eq!((m.data_counter, m.pc), (0, 0));
    assert_eq!(m.apply(ByteCode::MoveInStepUntilZero(Change::Decr(3)), 0, None), Step::Continue);
    assert_eq!((m.data_counter, m.pc), (0, 1));
}

#[test]
fn step_asks_for_input_without_changing_anything() {
    let program = Parser::parse(",.".to_owned());
    let table = program.compute_jumptable().unwrap();
    let mut m = Machine::new();
    assert_eq!(program.step(&table, &mut m, None), Step::NeedInput);
    assert_eq!((m.pc, m.data_counter, m.memory[0]), (0, 0, 0));
    assert_eq!(program.step(&table, &mut m, Some(b'X')), Step::Continue);
    assert_eq!((m.pc, m.memory[0]), (1, b'X'));
    assert_eq!(program.step(&table, &mut m, None), Step::Output(b'X'));
    assert_eq!(program.step(&table, &mut m, None), Step::Done);
    assert_eq!(program.step(&table, &mut m, None), Step::Done);
}

#[test]
fn nop_only_advances() {
    let prog = ByteCodeProgram { instructions: vec![ByteCode::Nop, ByteCode::DataIncr(2), ByteCode::Write] };
    let run = prog.eval(&[], 3).unwrap();
    assert_eq!(run.halt, Halt::Finished);
    assert_eq!(run.output, &[2, b'\n']);
}

#[test]
fn both_interpreters_agree() {
    let sources = [
        HELLO_WORLD,
        "++[>+++[>++++<-]<-]>>.[-].",
        ",[.,]",
        "+++[>+>+>+<<<-]>>>[<]<.>.>.>.",
        ">>+<<[>]>.[<<]>-.",
        "----[---->+<]>++.[+]+++[>]<.",
    ];
    for source in sources {
        let a = walk(source, b"agree\0rest");
        let b = interpret(source, b"agree\0rest");
        assert_eq!(a.halt, Halt::Finished);
        assert_eq!(b.halt, Halt::Finished);
        assert_eq!(a.output, b.output);
    }
}

#[test]
fn bytecode_run_bears_out_the_token_run() {
    let sources = [HELLO_WORLD, "+[.+]", ",[.,]", "+[>+]", "+++[>+>+>+<<<-]>>>[<]<.>.>.>.", "+[]"];
    for source in sources {
        let program = Parser::parse(source.to_owned());
        let mut prog = Parser::parse_to_bytecode(source.to_owned());
        prog.opt_pass_1();
        for fuel in [0usize, 1, 2, 3, 10, 100, 1000, 100_000] {
            let slow = program.eval(b"ab", fuel).unwrap();
            let fast = prog.eval(b"ab", fuel).unwrap();
            assert!(fast.output.starts_with(&slow.output));
            if slow.halt != Halt::OutOfFuel {
                assert_eq!(fast.halt, slow.halt);
                assert_eq!(fast.output, slow.output);
            }
        }
    }
}

#[test]
fn clearing_loop_with_an_even_step_is_cleared_all_the_same() {
    let source = "+[++]+.";
    let slow = Parser::parse(source.to_owned()).eval(&[], 1_000_000).unwrap();
    assert_eq!(slow.halt, Halt::OutOfFuel);
    assert!(slow.output.is_empty());
    let mut prog = Parser::parse_to_bytecode(source.to_owned());
    prog.opt_pass_1();
    assert_eq!(
        prog.instructions,
        vec![ByteCode::DataIncr(1), ByteCode::SETZERO, ByteCode::DataIncr(1), ByteCode::Write]
    );
    let fast = prog.eval(&[], 1_000_000).unwrap();
    assert_eq!(fast.halt, Halt::Finished);
    assert_eq!(fast.output, &[1, b'\n']);
}
