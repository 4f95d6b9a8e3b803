use bf_jit::bytecode_bf::{ByteCode, ByteCodeProgram, Change};
use bf_jit::error::JitError;
use bf_jit::optbytecode_jit::BytecodeJit;
use bf_jit::parser::Parser;
use bf_jit::simple_jit::SimpleJit;
use bf_jit::MEMORY_SIZE;

const HELLO_WORLD: &str = "++++++++[>++++[>++>+++>+++>+<<<<-]>+>+>->>+[<]<-]>>.>---.+++++++..+++.>>.<-.<.+++.------.--------.>>+.>++.";

const TAPE: u64 = 0x1122_3344_5566_7788;

const LOAD_TAPE: [u8; 10] = [0x49, 0xBD, 0x88, 0x77, 0x66, 0x55, 0x44, 0x33, 0x22, 0x11];

const WRITE: [u8; 26] = [
    0x48, 0xC7, 0xC0, 0x01, 0x00, 0x00, 0x00, 0x48, 0xC7, 0xC7, 0x01, 0x00, 0x00, 0x00, 0x4C,
    0x89, 0xEE, 0x48, 0xC7, 0xC2, 0x01, 0x00, 0x00, 0x00, 0x0F, 0x05,
];

const READ: [u8; 26] = [
    0x48, 0xC7, 0xC0, 0x00, 0x00, 0x00, 0x00, 0x48, 0xC7, 0xC7, 0x00, 0x00, 0x00, 0x00, 0x4C,
    0x89, 0xEE, 0x48, 0xC7, 0xC2, 0x01, 0x00, 0x00, 0x00, 0x0F, 0x05,
];

fn simple(source: &str) -> Result<Vec<u8>, JitError> {
    SimpleJit::compile(&Parser::parse(source.to_owned()), TAPE)
}

fn optimizing(source: &str) -> Result<Vec<u8>, JitError> {
    let mut prog = Parser::parse_to_bytecode(source.to_owned());
    prog.opt_pass_1();
    BytecodeJit::compile(&prog, TAPE)
}

fn emit(ops: Vec<ByteCode>) -> Result<Vec<u8>, JitError> {
    BytecodeJit::compile(&ByteCodeProgram { instructions: ops }, TAPE)
}

fn expect(parts: &[&[u8]]) -> Vec<u8> {
    let mut code = LOAD_TAPE.to_vec();
    for part in parts {
        code.extend_from_slice(part);
    }
    code.push(0xC3);
    code
}

fn field(code: &[u8], at: usize) -> i64 {
    i32::from_le_bytes([code[at], code[at + 1], code[at + 2], code[at + 3]]) as i64
}

/// Runs the machine code that the emitters produce on a tape at address
/// `TAPE`, one instruction at a time, and returns what it wrote and the tape.
fn execute(code: &[u8], input: &[u8]) -> (Vec<u8>, Vec<u8>) {
    let mut tape = vec![0u8; MEMORY_SIZE];
    let mut out = vec![];
    let mut unread = input.iter();
    let (mut r13, mut rax, mut rdi, mut rsi, mut rdx) = (0u64, 0u64, 0u64, 0u64, 0u64);
    let mut zero = false;
    let mut ip = 0usize;
    let mut steps = 0u64;
    loop {
        steps += 1;
        assert!(steps < 50_000_000, "the code does not return");
        let rest = &code[ip..];
        let cell = r13.wrapping_sub(TAPE) as usize;
        if rest.starts_with(&[0x49, 0xBD]) {
            r13 = u64::from_le_bytes(rest[2..10].try_into().unwrap());
            ip += 10;
        } else if rest.starts_with(&[0x49, 0xFF, 0xC5]) {
            r13 = r13.wrapping_add(1);
            ip += 3;
        } else if rest.starts_with(&[0x49, 0xFF, 0xCD]) {
            r13 = r13.wrapping_sub(1);
            ip += 3;
        } else if rest.starts_with(&[0x49, 0x81, 0xC5]) {
            r13 = r13.wrapping_add(field(code, ip + 3) as u64);
            ip += 7;
        } else if rest.starts_with(&[0x49, 0x81, 0xED]) {
            r13 = r13.wrapping_sub(field(code, ip + 3) as u64);
            ip += 7;
        } else if rest.starts_with(&[0x41, 0x80, 0x45, 0x00]) {
            tape[cell] = tape[cell].wrapping_add(rest[4]);
            ip += 5;
        } else if rest.starts_with(&[0x41, 0x80, 0x6D, 0x00]) {
            tape[cell] = tape[cell].wrapping_sub(rest[4]);
            ip += 5;
        } else if rest.starts_with(&[0x41, 0x80, 0x7D, 0x00, 0x00]) {
            zero = tape[cell] == 0;
            ip += 5;
        } else if rest.starts_with(&[0x41, 0xC6, 0x45, 0x00, 0x00]) {
            tape[cell] = 0;
            ip += 5;
        } else if rest.starts_with(&[0x0F, 0x84]) {
            let taken = (ip as i64 + 6 + field(code, ip + 2)) as usize;
            ip = if zero { taken } else { ip + 6 };
        } else if rest.starts_with(&[0x0F, 0x85]) {
            let taken = (ip as i64 + 6 + field(code, ip + 2)) as usize;
            ip = if zero { ip + 6 } else { taken };
        } else if rest.starts_with(&[0xE9]) {
            ip = (ip as i64 + 5 + field(code, ip + 1)) as usize;
        } else if rest.starts_with(&[0x48, 0xC7, 0xC0]) {
            rax = field(code, ip + 3) as u64;
            ip += 7;
        } else if rest.starts_with(&[0x48, 0xC7, 0xC7]) {
            rdi = field(code, ip + 3) as u64;
            ip += 7;
        } else if rest.starts_with(&[0x48, 0xC7, 0xC2]) {
            rdx = field(code, ip + 3) as u64;
            ip += 7;
        } else if rest.starts_with(&[0x4C, 0x89, 0xEE]) {
            rsi = r13;
            ip += 3;
        } else if rest.starts_with(&[0x0F, 0x05]) {
            assert_eq!(rdx, 1);
            let at = rsi.wrapping_sub(TAPE) as usize;
            if rax == 1 {
                assert_eq!(rdi, 1);
                out.push(tape[at]);
            } else {
                assert_eq!((rax, rdi), (0, 0));
                if let Some(b) = unread.next() {
                    tape[at] = *b;
                }
            }
            ip += 2;
        } else if rest.starts_with(&[0xC3]) {
            assert_eq!(ip + 1, code.len());
            return (out, tape);
        } else {
            panic!("unknown instruction at offset {}", ip);
        }
    }
}

fn on_both(source: &str, input: &[u8], expected: &[u8]) {
    assert_eq!(execute(&simple(source).unwrap(), input).0, expected);
    assert_eq!(execute(&optimizing(source).unwrap(), input).0, expected);
}

#[test]
fn simple_jit_hello_world() {
    let code = simple(HELLO_WORLD).unwrap();
    assert_eq!(execute(&code, &[]).0, b"Hello World!\n");
}

#[test]
fn optbytecode_jit_hello_world() {
    let code = optimizing(HELLO_WORLD).unwrap();
    assert_eq!(execute(&code, &[]).0, b"Hello World!\n");
    let unoptimized =
        BytecodeJit::compile(&Parser::parse_to_bytecode(HELLO_WORLD.to_owned()), TAPE).unwrap();
    assert_eq!(execute(&unoptimized, &[]).0, b"Hello World!\n");
}

#[test]
fn native_scenarios() {
    on_both("", &[], &[]);
    on_both("++++++++[>++++++++<-]>+.", &[], &[0x41]);
    on_both("+++++[>+++++[>++<-]<-]>>.", &[], &[50]);
    on_both(",.", b"X", b"X");
    on_both(">>>++++++++++[<+>-]<.", &[], &[10]);
    on_both("+++[>+>+>+<<<-]>>>[<]>.>.>.", &[], &[3, 3, 3]);
    on_both(",[.,]", b"echo\0", b"echo");
}

#[test]
fn native_clearing_loop() {
    for source in ["+++[-]", "+++[+]", "[-]", "[+]"] {
        let (out, tape) = execute(&simple(source).unwrap(), &[]);
        assert!(out.is_empty());
        assert_eq!(tape[0], 0);
        let (out, tape) = execute(&optimizing(source).unwrap(), &[]);
        assert!(out.is_empty());
        assert_eq!(tape[0], 0);
    }
}

#[test]
fn simple_jit_code_of_empty_program() {
    assert_eq!(simple("").unwrap(), expect(&[]));
}

#[test]
fn simple_jit_code_of_each_token() {
    assert_eq!(simple(">").unwrap(), expect(&[&[0x49, 0xFF, 0xC5]]));
    assert_eq!(simple("<").unwrap(), expect(&[&[0x49, 0xFF, 0xCD]]));
    assert_eq!(simple("+").unwrap(), expect(&[&[0x41, 0x80, 0x45, 0x00, 0x01]]));
    assert_eq!(simple("-").unwrap(), expect(&[&[0x41, 0x80, 0x6D, 0x00, 0x01]]));
    assert_eq!(simple(".").unwrap(), expect(&[&WRITE]));
    assert_eq!(simple(",").unwrap(), expect(&[&READ]));
}

#[test]
fn simple_jit_patches_both_displacements() {
    assert_eq!(
        simple("[-]").unwrap(),
        expect(&[
            &[0x41, 0x80, 0x7D, 0x00, 0x00, 0x0F, 0x84, 0x10, 0x00, 0x00, 0x00],
            &[0x41, 0x80, 0x6D, 0x00, 0x01],
            &[0x41, 0x80, 0x7D, 0x00, 0x00, 0x0F, 0x85, 0xF0, 0xFF, 0xFF, 0xFF],
        ])
    );
    assert_eq!(
        simple("[[]>]").unwrap(),
        expect(&[
            &[0x41, 0x80, 0x7D, 0x00, 0x00, 0x0F, 0x84, 0x24, 0x00, 0x00, 0x00],
            &[0x41, 0x80, 0x7D, 0x00, 0x00, 0x0F, 0x84, 0x0B, 0x00, 0x00, 0x00],
            &[0x41, 0x80, 0x7D, 0x00, 0x00, 0x0F, 0x85, 0xF5, 0xFF, 0xFF, 0xFF],
            &[0x49, 0xFF, 0xC5],
            &[0x41, 0x80, 0x7D, 0x00, 0x00, 0x0F, 0x85, 0xDC, 0xFF, 0xFF, 0xFF],
        ])
    );
}

#[test]
fn simple_jit_rejects_unbalanced_brackets() {
    assert_eq!(simple("["), Err(JitError::UnbalancedBrackets(0)));
    assert_eq!(simple("]"), Err(JitError::UnbalancedBrackets(0)));
    assert_eq!(simple("+[]]["), Err(JitError::UnbalancedBrackets(3)));
    assert_eq!(simple("+[][+[-]"), Err(JitError::UnbalancedBrackets(3)));
}

#[test]
fn bytecode_jit_code_of_each_opcode() {
    assert_eq!(emit(vec![]).unwrap(), expect(&[]));
    assert_eq!(emit(vec![ByteCode::Nop]).unwrap(), expect(&[]));
    assert_eq!(
        emit(vec![ByteCode::DataPointerIncr(0x01020304)]).unwrap(),
        expect(&[&[0x49, 0x81, 0xC5, 0x04, 0x03, 0x02, 0x01]])
    );
    assert_eq!(
        emit(vec![ByteCode::DataPointerDecr(1)]).unwrap(),
        expect(&[&[0x49, 0x81, 0xED, 0x01, 0x00, 0x00, 0x00]])
    );
    assert_eq!(
        emit(vec![ByteCode::DataIncr(255)]).unwrap(),
        expect(&[&[0x41, 0x80, 0x45, 0x00, 0xFF]])
    );
    assert_eq!(
        emit(vec![ByteCode::DataDecr(7)]).unwrap(),
        expect(&[&[0x41, 0x80, 0x6D, 0x00, 0x07]])
    );
    assert_eq!(emit(vec![ByteCode::Write]).unwrap(), expect(&[&WRITE]));
    assert_eq!(emit(vec![ByteCode::Read]).unwrap(), expect(&[&READ]));
    assert_eq!(
        emit(vec![ByteCode::SETZERO]).unwrap(),
        expect(&[&[0x41, 0xC6, 0x45, 0x00, 0x00]])
    );
}

#[test]
fn bytecode_jit_scan_moves_the_cursor() {
    assert_eq!(
        emit(vec![ByteCode::MoveInStepUntilZero(Change::Incr(3))]).unwrap(),
        expect(&[
            &[0x41, 0x80, 0x7D, 0x00, 0x00, 0x0F, 0x84, 0x0C, 0x00, 0x00, 0x00],
            &[0x49, 0x81, 0xC5, 0x03, 0x00, 0x00, 0x00],
            &[0xE9, 0xE9, 0xFF, 0xFF, 0xFF],
        ])
    );
    assert_eq!(
        emit(vec![ByteCode::MoveInStepUntilZero(Change::Decr(2))]).unwrap(),
        expect(&[
            &[0x41, 0x80, 0x7D, 0x00, 0x00, 0x0F, 0x84, 0x0C, 0x00, 0x00, 0x00],
            &[0x49, 0x81, 0xED, 0x02, 0x00, 0x00, 0x00],
            &[0xE9, 0xE9, 0xFF, 0xFF, 0xFF],
        ])
    );
    let (out, tape) = execute(&optimizing("+>+>+>>+<<<<[>].").unwrap(), &[]);
    assert_eq!(out, &[0]);
    assert_eq!(&tape[..6], &[1, 1, 1, 0, 1, 0]);
}

#[test]
fn bytecode_jit_links_both_jumps_of_a_loop() {
    assert_eq!(
        emit(vec![ByteCode::JZ, ByteCode::DataDecr(1), ByteCode::Write, ByteCode::JNZ]).unwrap(),
        expect(&[
            &[0x41, 0x80, 0x7D, 0x00, 0x00, 0x0F, 0x84, 0x2A, 0x00, 0x00, 0x00],
            &[0x41, 0x80, 0x6D, 0x00, 0x01],
            &WRITE,
            &[0x41, 0x80, 0x7D, 0x00, 0x00, 0x0F, 0x85, 0xD6, 0xFF, 0xFF, 0xFF],
        ])
    );
    assert_eq!(
        emit(vec![
            ByteCode::JZ,
            ByteCode::JZ,
            ByteCode::MoveInStepUntilZero(Change::Incr(1)),
            ByteCode::JNZ,
            ByteCode::JNZ
        ])
        .unwrap(),
        expect(&[
            &[0x41, 0x80, 0x7D, 0x00, 0x00, 0x0F, 0x84, 0x38, 0x00, 0x00, 0x00],
            &[0x41, 0x80, 0x7D, 0x00, 0x00, 0x0F, 0x84, 0x22, 0x00, 0x00, 0x00],
            &[0x41, 0x80, 0x7D, 0x00, 0x00, 0x0F, 0x84, 0x0C, 0x00, 0x00, 0x00],
            &[0x49, 0x81, 0xC5, 0x01, 0x00, 0x00, 0x00],
            &[0xE9, 0xE9, 0xFF, 0xFF, 0xFF],
            &[0x41, 0x80, 0x7D, 0x00, 0x00, 0x0F, 0x85, 0xDE, 0xFF, 0xFF, 0xFF],
            &[0x41, 0x80, 0x7D, 0x00, 0x00, 0x0F, 0x85, 0xC8, 0xFF, 0xFF, 0xFF],
        ])
    );
}

#[test]
fn bytecode_jit_rejects_what_it_cannot_encode() {
    assert_eq!(emit(vec![ByteCode::Write, ByteCode::DataIncr(256)]), Err(JitError::CellDeltaOverflow(1)));
    assert_eq!(emit(vec![ByteCode::DataDecr(256)]), Err(JitError::CellDeltaOverflow(0)));
    assert_eq!(
        optimizing(&"+".repeat(256)),
        Err(JitError::CellDeltaOverflow(0))
    );
    assert!(optimizing(&"+".repeat(255)).is_ok());
    assert_eq!(
        emit(vec![ByteCode::DataPointerIncr(0x8000_0000)]),
        Err(JitError::PointerDeltaOverflow(0))
    );
    assert_eq!(
        emit(vec![ByteCode::Nop, ByteCode::Nop, ByteCode::DataPointerDecr(0x8000_0000)]),
        Err(JitError::PointerDeltaOverflow(2))
    );
    assert_eq!(
        emit(vec![ByteCode::MoveInStepUntilZero(Change::Decr(0x8000_0000))]),
        Err(JitError::PointerDeltaOverflow(0))
    );
    assert!(emit(vec![ByteCode::DataPointerIncr(0x7FFF_FFFF)]).is_ok());
}

#[test]
fn bytecode_jit_rejects_unbalanced_brackets() {
    assert_eq!(emit(vec![ByteCode::JZ]), Err(JitError::UnbalancedBrackets(0)));
    assert_eq!(emit(vec![ByteCode::JNZ]), Err(JitError::UnbalancedBrackets(0)));
    assert_eq!(
        emit(vec![ByteCode::JZ, ByteCode::JNZ, ByteCode::JNZ, ByteCode::DataIncr(999)]),
        Err(JitError::UnbalancedBrackets(2))
    );
    assert_eq!(
        emit(vec![ByteCode::JZ, ByteCode::DataIncr(999), ByteCode::JNZ, ByteCode::JNZ]),
        Err(JitError::CellDeltaOverflow(1))
    );
    assert_eq!(
        emit(vec![ByteCode::Write, ByteCode::JZ, ByteCode::JZ, ByteCode::JNZ]),
        Err(JitError::UnbalancedBrackets(1))
    );
}
