use plua::bf::codegen::{emit, generate, Hooks, CODE_LIMIT, EPILOGUE_SIZE, PROLOGUE_SIZE};
use plua::bf::compile::compile;
use plua::bf::error::GenerationError;
use plua::bf::ir::BfIR;

fn hooks() -> Hooks {
    Hooks {
        getbyte: 0x1111_1111_1111_1111,
        putbyte: 0x2222_2222_2222_2222,
        overflow: 0x3333_3333_3333_3333,
    }
}

const PROLOGUE: [u8; 13] =
    [0x50, 0x49, 0x89, 0xfc, 0x49, 0x89, 0xf5, 0x49, 0x89, 0xd6, 0x48, 0x89, 0xf1];

const EPILOGUE: [u8; 27] = [
    0x48, 0x31, 0xc0, 0xe9, 0x11, 0x00, 0x00, 0x00, 0x48, 0xb8, 0x33, 0x33, 0x33, 0x33, 0x33,
    0x33, 0x33, 0x33, 0xff, 0xd0, 0xe9, 0x00, 0x00, 0x00, 0x00, 0x5a, 0xc3,
];

#[test]
fn the_empty_program_is_prologue_and_epilogue() {
    let bytes = emit(&[], &hooks()).unwrap();
    assert_eq!(bytes.len(), PROLOGUE_SIZE + EPILOGUE_SIZE);
    assert_eq!(bytes[..13], PROLOGUE);
    assert_eq!(bytes[13..], EPILOGUE);
}

#[test]
fn a_loop_with_calls_is_emitted_byte_for_byte() {
    let code = compile("+[,.]").unwrap();
    let bytes = emit(&code, &hooks()).unwrap();
    let expected: Vec<u8> = vec![
        0x50, 0x49, 0x89, 0xfc, 0x49, 0x89, 0xf5, 0x49, 0x89, 0xd6, 0x48, 0x89, 0xf1, 0x80,
        0x01, 0x01, 0x80, 0x39, 0x00, 0x0f, 0x84, 0x4b, 0x00, 0x00, 0x00, 0x49, 0x89, 0xcf,
        0x4c, 0x89, 0xe7, 0x48, 0x89, 0xce, 0x48, 0xb8, 0x11, 0x11, 0x11, 0x11, 0x11, 0x11,
        0x11, 0x11, 0xff, 0xd0, 0x48, 0x85, 0xc0, 0x0f, 0x85, 0x46, 0x00, 0x00, 0x00, 0x4c,
        0x89, 0xf9, 0x49, 0x89, 0xcf, 0x4c, 0x89, 0xe7, 0x48, 0x89, 0xce, 0x48, 0xb8, 0x22,
        0x22, 0x22, 0x22, 0x22, 0x22, 0x22, 0x22, 0xff, 0xd0, 0x48, 0x85, 0xc0, 0x0f, 0x85,
        0x25, 0x00, 0x00, 0x00, 0x4c, 0x89, 0xf9, 0x80, 0x39, 0x00, 0x0f, 0x85, 0xb5, 0xff,
        0xff, 0xff, 0x48, 0x31, 0xc0, 0xe9, 0x11, 0x00, 0x00, 0x00, 0x48, 0xb8, 0x33, 0x33,
        0x33, 0x33, 0x33, 0x33, 0x33, 0x33, 0xff, 0xd0, 0xe9, 0x00, 0x00, 0x00, 0x00, 0x5a,
        0xc3,
    ];
    assert_eq!(bytes, expected);
}

#[test]
fn pointer_moves_are_checked_against_both_bounds() {
    let code = compile("><-").unwrap();
    let bytes = emit(&code, &hooks()).unwrap();
    let expected: Vec<u8> = vec![
        0x50, 0x49, 0x89, 0xfc, 0x49, 0x89, 0xf5, 0x49, 0x89, 0xd6, 0x48, 0x89, 0xf1, 0x48,
        0x81, 0xc1, 0x01, 0x00, 0x00, 0x00, 0x0f, 0x82, 0x2a, 0x00, 0x00, 0x00, 0x4c, 0x39,
        0xf1, 0x0f, 0x83, 0x21, 0x00, 0x00, 0x00, 0x48, 0x81, 0xe9, 0x01, 0x00, 0x00, 0x00,
        0x0f, 0x82, 0x14, 0x00, 0x00, 0x00, 0x4c, 0x39, 0xe9, 0x0f, 0x82, 0x0b, 0x00, 0x00,
        0x00, 0x80, 0x29, 0x01, 0x48, 0x31, 0xc0, 0xe9, 0x11, 0x00, 0x00, 0x00, 0x48, 0xb8,
        0x33, 0x33, 0x33, 0x33, 0x33, 0x33, 0x33, 0x33, 0xff, 0xd0, 0xe9, 0x00, 0x00, 0x00,
        0x00, 0x5a, 0xc3,
    ];
    assert_eq!(bytes, expected);
}

#[test]
fn nested_loops_jump_to_their_own_partners() {
    let code = compile("[[]]").unwrap();
    let bytes = emit(&code, &hooks()).unwrap();
    let expected: Vec<u8> = vec![
        0x50, 0x49, 0x89, 0xfc, 0x49, 0x89, 0xf5, 0x49, 0x89, 0xd6, 0x48, 0x89, 0xf1, 0x80,
        0x39, 0x00, 0x0f, 0x84, 0x1b, 0x00, 0x00, 0x00, 0x80, 0x39, 0x00, 0x0f, 0x84, 0x09,
        0x00, 0x00, 0x00, 0x80, 0x39, 0x00, 0x0f, 0x85, 0xf7, 0xff, 0xff, 0xff, 0x80, 0x39,
        0x00, 0x0f, 0x85, 0xe5, 0xff, 0xff, 0xff, 0x48, 0x31, 0xc0, 0xe9, 0x11, 0x00, 0x00,
        0x00, 0x48, 0xb8, 0x33, 0x33, 0x33, 0x33, 0x33, 0x33, 0x33, 0x33, 0xff, 0xd0, 0xe9,
        0x00, 0x00, 0x00, 0x00, 0x5a, 0xc3,
    ];
    assert_eq!(bytes, expected);
}

#[test]
fn counts_are_emitted_as_immediates() {
    let bytes = emit(&[BfIR::AddVal(0xab), BfIR::SubVal(0xcd)], &hooks()).unwrap();
    assert_eq!(bytes[13..19], [0x80, 0x01, 0xab, 0x80, 0x29, 0xcd]);
    let bytes = emit(&[BfIR::AddPtr(0xff)], &hooks()).unwrap();
    assert_eq!(bytes[13..20], [0x48, 0x81, 0xc1, 0xff, 0x00, 0x00, 0x00]);
    let bytes = emit(&[BfIR::SubPtr(0)], &hooks()).unwrap();
    assert_eq!(bytes[13..20], [0x48, 0x81, 0xe9, 0x00, 0x00, 0x00, 0x00]);
}

#[test]
fn every_instruction_takes_its_size() {
    for (instruction, size) in [
        (BfIR::AddVal(1), 3),
        (BfIR::SubVal(1), 3),
        (BfIR::AddPtr(1), 22),
        (BfIR::SubPtr(1), 22),
        (BfIR::GetByte, 33),
        (BfIR::PutByte, 33),
    ] {
        let bytes = emit(&[instruction], &hooks()).unwrap();
        assert_eq!(bytes.len(), PROLOGUE_SIZE + size + EPILOGUE_SIZE);
    }
    let bytes = emit(&[BfIR::Jz, BfIR::Jnz], &hooks()).unwrap();
    assert_eq!(bytes.len(), PROLOGUE_SIZE + 18 + EPILOGUE_SIZE);
}

#[test]
fn unbalanced_jumps_are_rejected() {
    for code in [
        vec![BfIR::Jnz],
        vec![BfIR::Jz],
        vec![BfIR::Jnz, BfIR::Jz],
        vec![BfIR::Jz, BfIR::Jz, BfIR::Jnz],
        vec![BfIR::Jz, BfIR::Jnz, BfIR::Jnz],
    ] {
        assert!(matches!(emit(&code, &hooks()), Err(GenerationError::UnbalancedJumps)));
        assert!(matches!(generate(&code, &hooks()), Err(GenerationError::UnbalancedJumps)));
    }
}

#[test]
fn code_beyond_the_limit_is_rejected() {
    let fitting = (CODE_LIMIT - PROLOGUE_SIZE - EPILOGUE_SIZE) / 33;
    let code = vec![BfIR::GetByte; fitting + 1];
    assert!(matches!(emit(&code, &hooks()), Err(GenerationError::TooLarge)));
    assert!(matches!(generate(&code, &hooks()), Err(GenerationError::TooLarge)));
}

#[test]
fn generate_puts_the_emitted_bytes_into_executable_memory() {
    for src in ["", "+[,.]", "++++++++[>++++++++<-]>+.", "><-"] {
        let code = compile(src).unwrap();
        let bytes = emit(&code, &hooks()).unwrap();
        let (buffer, start) = generate(&code, &hooks()).unwrap();
        assert_eq!(start, 0);
        assert_eq!(&buffer[..], &bytes[..]);
    }
}

#[test]
fn generate_fills_more_than_one_page() {
    let code = vec![BfIR::GetByte; 1000];
    let bytes = emit(&code, &hooks()).unwrap();
    assert_eq!(bytes.len(), 13 + 33000 + 27);
    let (buffer, start) = generate(&code, &hooks()).unwrap();
    assert_eq!(start, 0);
    assert_eq!(&buffer[..], &bytes[..]);
}
