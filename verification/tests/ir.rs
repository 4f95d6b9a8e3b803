use bf_jit::bytecode_bf::{ByteCode, Change};
use bf_jit::error::JitError;
use bf_jit::llvm_jit::{Block, IrFunction, IrInstr, LlvmJit};
use bf_jit::parser::Parser;
use bf_jit::MEMORY_SIZE;

const HELLO_WORLD: &str = "++++++++[>++++[>++>+++>+++>+<<<<-]>+>+>->>+[<]<-]>>.>---.+++++++..+++.>>.<-.<.+++.------.--------.>>+.>++.";

fn lower(source: &str) -> Result<IrFunction, JitError> {
    let mut prog = Parser::parse_to_bytecode(source.to_owned());
    prog.opt_pass_1();
    LlvmJit {}.jit(prog.instructions)
}

/// Carries out an instruction list as its documentation describes it and
/// returns what it wrote and the tape.
fn execute(function: &IrFunction, input: &[u8]) -> (Vec<u8>, Vec<u8>) {
    let mut tape = vec![0u8; function.tape_cells];
    let mut cursor = 0u64;
    let mut temps = [0u64; 256];
    let mut out = vec![];
    let mut unread = input.iter();
    let mut created = vec![];
    for instr in function.body.iter() {
        if let IrInstr::AppendBlock(block) = instr {
            assert!(!created.contains(block));
            created.push(*block);
        }
    }
    let start_of = |block: Block| -> usize {
        let at = function.body.iter().position(|i| *i == IrInstr::MoveTo(block));
        at.expect("a branch to a block that is never filled") + 1
    };
    let mut ip = 0usize;
    let mut steps = 0u64;
    loop {
        steps += 1;
        assert!(steps < 50_000_000, "the function does not return");
        let mut next = ip + 1;
        match function.body[ip] {
            IrInstr::LoadCursor { dst } => temps[dst as usize] = cursor,
            IrInstr::StoreCursor { src } => cursor = temps[src as usize],
            IrInstr::AddI64 { dst, src, imm } => {
                temps[dst as usize] = temps[src as usize].wrapping_add(imm)
            }
            IrInstr::SubI64 { dst, src, imm } => {
                temps[dst as usize] = temps[src as usize].wrapping_sub(imm)
            }
            IrInstr::CellAddr { dst, index } => temps[dst as usize] = temps[index as usize],
            IrInstr::LoadCell { dst, addr } => {
                temps[dst as usize] = tape[temps[addr as usize] as usize] as u64
            }
            IrInstr::StoreCell { addr, src } => {
                tape[temps[addr as usize] as usize] = temps[src as usize] as u8
            }
            IrInstr::StoreCellImm { addr, byte } => tape[temps[addr as usize] as usize] = byte,
            IrInstr::AddI8 { dst, src, byte } => {
                temps[dst as usize] = (temps[src as usize] as u8).wrapping_add(byte) as u64
            }
            IrInstr::SubI8 { dst, src, byte } => {
                temps[dst as usize] = (temps[src as usize] as u8).wrapping_sub(byte) as u64
            }
            IrInstr::Widen { dst, src } => temps[dst as usize] = temps[src as usize] as u8 as u64,
            IrInstr::Narrow { dst, src } => temps[dst as usize] = temps[src as usize] as u8 as u64,
            IrInstr::CallPut { arg } => out.push(temps[arg as usize] as u8),
            IrInstr::CallGet { dst } => {
                temps[dst as usize] = *unread.next().expect("input used up") as u64
            }
            IrInstr::IsZero { dst, src } => {
                temps[dst as usize] = (temps[src as usize] as u8 == 0) as u64
            }
            IrInstr::IsNonZero { dst, src } => {
                temps[dst as usize] = (temps[src as usize] as u8 != 0) as u64
            }
            IrInstr::AppendBlock(_) => {}
            IrInstr::CondBr { cond, then_to, else_to } => {
                assert!(created.contains(&then_to) && created.contains(&else_to));
                next = start_of(if temps[cond as usize] != 0 { then_to } else { else_to });
            }
            IrInstr::MoveTo(_) => panic!("a block without an end"),
            IrInstr::Return => {
                assert_eq!(ip + 1, function.body.len());
                assert_eq!(created.len(), 2 * function.loops);
                return (out, tape);
            }
        }
        ip = next;
    }
}

#[test]
fn test_emitting() {
    let compiler = LlvmJit {};

    let function = compiler
        .jit(vec![
            ByteCode::DataIncr(104), //'h'
            ByteCode::Write,
            ByteCode::DataIncr(1), // 'i'
            ByteCode::Write,
            ByteCode::DataPointerIncr(1),
            ByteCode::DataIncr(10),
            ByteCode::Write,
        ])
        .unwrap();
    assert_eq!(function.tape_cells, MEMORY_SIZE);
    assert_eq!(function.loops, 0);
    assert_eq!(function.body.len(), 5 + 5 + 5 + 5 + 3 + 5 + 5 + 1);
    assert_eq!(execute(&function, &[]).0, b"hi\n");

    let function = compiler.jit(vec![ByteCode::Read, ByteCode::Write]).unwrap();
    assert_eq!(execute(&function, b"q").0, b"q");
}

#[test]
fn llvm_jit_hello_world() {
    let function = lower(HELLO_WORLD).unwrap();
    assert_eq!(execute(&function, &[]).0, b"Hello World!\n");
    let unoptimized = LlvmJit {}
        .jit(Parser::parse_to_bytecode(HELLO_WORLD.to_owned()).instructions)
        .unwrap();
    assert_eq!(execute(&unoptimized, &[]).0, b"Hello World!\n");
}

#[test]
fn ir_scenarios() {
    assert_eq!(execute(&lower("").unwrap(), &[]).0, &[]);
    assert_eq!(execute(&lower("++++++++[>++++++++<-]>+.").unwrap(), &[]).0, &[0x41]);
    assert_eq!(execute(&lower("+++++[>+++++[>++<-]<-]>>.").unwrap(), &[]).0, &[50]);
    assert_eq!(execute(&lower(",.").unwrap(), b"X").0, b"X");
    assert_eq!(execute(&lower(">>>++++++++++[<+>-]<.").unwrap(), &[]).0, &[10]);
    assert_eq!(execute(&lower("+>+>+>>+<<<<[>].").unwrap(), &[]).0, &[0]);
    for source in ["+++[-]", "[-]", "+[+]"] {
        let (out, tape) = execute(&lower(source).unwrap(), &[]);
        assert!(out.is_empty());
        assert_eq!(tape[0], 0);
    }
}

#[test]
fn ir_of_empty_program_only_returns() {
    let function = LlvmJit {}.jit(vec![]).unwrap();
    assert_eq!(function.body, vec![IrInstr::Return]);
    assert_eq!(function.loops, 0);
    assert_eq!(function.tape_cells, 30000);
    let function = LlvmJit {}.jit(vec![ByteCode::Nop, ByteCode::Nop]).unwrap();
    assert_eq!(function.body, vec![IrInstr::Return]);
}

#[test]
fn ir_of_cursor_and_cell_opcodes() {
    let function = LlvmJit {}
        .jit(vec![ByteCode::DataPointerIncr(3), ByteCode::DataDecr(255), ByteCode::SETZERO])
        .unwrap();
    assert_eq!(
        function.body,
        vec![
            IrInstr::LoadCursor { dst: 0 },
            IrInstr::AddI64 { dst: 1, src: 0, imm: 3 },
            IrInstr::StoreCursor { src: 1 },
            IrInstr::LoadCursor { dst: 0 },
            IrInstr::CellAddr { dst: 1, index: 0 },
            IrInstr::LoadCell { dst: 2, addr: 1 },
            IrInstr::SubI8 { dst: 3, src: 2, byte: 255 },
            IrInstr::StoreCell { addr: 1, src: 3 },
            IrInstr::LoadCursor { dst: 0 },
            IrInstr::CellAddr { dst: 1, index: 0 },
            IrInstr::StoreCellImm { addr: 1, byte: 0 },
            IrInstr::Return,
        ]
    );
}

#[test]
fn ir_of_nested_loops_numbers_the_blocks() {
    let function = LlvmJit {}
        .jit(vec![ByteCode::JZ, ByteCode::JZ, ByteCode::JNZ, ByteCode::JNZ, ByteCode::JZ, ByteCode::JNZ])
        .unwrap();
    assert_eq!(function.loops, 3);
    let fetch = [
        IrInstr::LoadCursor { dst: 0 },
        IrInstr::CellAddr { dst: 1, index: 0 },
        IrInstr::LoadCell { dst: 2, addr: 1 },
    ];
    let mut expected = vec![];
    for (open, l) in [(true, 0), (true, 1), (false, 1), (false, 0), (true, 2), (false, 2)] {
        expected.extend_from_slice(&fetch);
        if open {
            expected.extend_from_slice(&[
                IrInstr::IsZero { dst: 3, src: 2 },
                IrInstr::AppendBlock(Block::Body(l)),
                IrInstr::AppendBlock(Block::Exit(l)),
                IrInstr::CondBr { cond: 3, then_to: Block::Exit(l), else_to: Block::Body(l) },
                IrInstr::MoveTo(Block::Body(l)),
            ]);
        } else {
            expected.extend_from_slice(&[
                IrInstr::IsNonZero { dst: 3, src: 2 },
                IrInstr::CondBr { cond: 3, then_to: Block::Body(l), else_to: Block::Exit(l) },
                IrInstr::MoveTo(Block::Exit(l)),
            ]);
        }
    }
    expected.push(IrInstr::Return);
    assert_eq!(function.body, expected);
}

#[test]
fn ir_of_a_scan_is_a_loop_around_a_move() {
    let scan = LlvmJit {}.jit(vec![ByteCode::MoveInStepUntilZero(Change::Decr(4))]).unwrap();
    let spelled = LlvmJit {}
        .jit(vec![ByteCode::JZ, ByteCode::DataPointerDecr(4), ByteCode::JNZ])
        .unwrap();
    assert_eq!(scan.body, spelled.body);
    assert_eq!(scan.loops, 1);
    assert_eq!(scan.body.len(), 8 + 3 + 6 + 1);
}

#[test]
fn jit_instr_reports_and_keeps_state() {
    let mut body = vec![];
    let mut loops = 0;
    let mut open = vec![];
    assert_eq!(LlvmJit::jit_instr(ByteCode::JZ, 7, &mut body, &mut loops, &mut open), Ok(()));
    assert_eq!((body.len(), loops, open.clone()), (8, 1, vec![(7, 0)]));
    assert_eq!(
        LlvmJit::jit_instr(ByteCode::DataIncr(256), 8, &mut body, &mut loops, &mut open),
        Err(JitError::CellDeltaOverflow(8))
    );
    assert_eq!((body.len(), loops, open.clone()), (8, 1, vec![(7, 0)]));
    assert_eq!(LlvmJit::jit_instr(ByteCode::JNZ, 9, &mut body, &mut loops, &mut open), Ok(()));
    assert_eq!((body.len(), loops, open.clone()), (14, 1, vec![]));
    assert_eq!(
        LlvmJit::jit_instr(ByteCode::JNZ, 10, &mut body, &mut loops, &mut open),
        Err(JitError::UnbalancedBrackets(10))
    );
    assert_eq!((body.len(), loops, open.len()), (14, 1, 0));
}

#[test]
fn lowering_rejects_what_it_cannot_build() {
    let jit = LlvmJit {};
    assert_eq!(jit.jit(vec![ByteCode::DataIncr(256)]).unwrap_err(), JitError::CellDeltaOverflow(0));
    assert_eq!(
        jit.jit(vec![ByteCode::Write, ByteCode::DataDecr(1000)]).unwrap_err(),
        JitError::CellDeltaOverflow(1)
    );
    assert_eq!(jit.jit(vec![ByteCode::JZ]).unwrap_err(), JitError::UnbalancedBrackets(0));
    assert_eq!(jit.jit(vec![ByteCode::JNZ]).unwrap_err(), JitError::UnbalancedBrackets(0));
    assert_eq!(
        jit.jit(vec![ByteCode::JZ, ByteCode::JZ, ByteCode::JNZ]).unwrap_err(),
        JitError::UnbalancedBrackets(0)
    );
    assert_eq!(
        jit.jit(vec![ByteCode::JZ, ByteCode::JNZ, ByteCode::JNZ, ByteCode::DataIncr(300)])
            .unwrap_err(),
        JitError::UnbalancedBrackets(2)
    );
    assert!(jit.jit(vec![ByteCode::DataPointerIncr(usize::MAX)]).is_ok());
}
