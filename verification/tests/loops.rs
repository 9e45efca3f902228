use plua::bf::compile::{compile, optimize};
use plua::bf::ir::BfIR;
use plua::bf::loops::jump_table;

#[test]
fn every_jump_knows_its_partner() {
    let code = compile("[+[-]>[[.]<],]").unwrap();
    let table = jump_table(&code).unwrap();
    assert_eq!(table.len(), code.len());
    let pairs = [(0usize, 13usize), (2, 4), (6, 11), (7, 9)];
    for (open, close) in pairs {
        assert_eq!(code[open], BfIR::Jz);
        assert_eq!(code[close], BfIR::Jnz);
        assert_eq!(table[open], close);
        assert_eq!(table[close], open);
    }
}

#[test]
fn code_without_jumps_has_an_empty_table() {
    assert_eq!(jump_table(&[]).unwrap(), Vec::<usize>::new());
    assert_eq!(jump_table(&[BfIR::AddVal(1), BfIR::GetByte]).unwrap(), vec![0, 0]);
}

#[test]
fn jumps_that_do_not_pair_up_have_no_table() {
    assert_eq!(jump_table(&[BfIR::Jz]), None);
    assert_eq!(jump_table(&[BfIR::Jnz]), None);
    assert_eq!(jump_table(&[BfIR::Jnz, BfIR::Jz]), None);
    assert_eq!(jump_table(&[BfIR::Jz, BfIR::Jnz, BfIR::Jz]), None);
    assert_eq!(jump_table(&[BfIR::Jz, BfIR::Jnz, BfIR::Jnz, BfIR::Jz]), None);
}

#[test]
fn optimize_gives_back_what_the_code_no_longer_needs() {
    let mut code: Vec<BfIR> = Vec::with_capacity(1000);
    for _ in 0..600 {
        code.push(BfIR::AddVal(1));
    }
    optimize(&mut code);
    assert_eq!(code, vec![BfIR::AddVal(88)]);
    assert!(code.capacity() < 600);
}
