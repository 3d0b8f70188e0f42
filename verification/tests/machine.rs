use mvm::assembler::assemble;
use mvm::instruction::Instruction;
use mvm::machine::{Fault, Status, VM};

fn free_total(vm: &VM) -> u64 {
    let mut total: u64 = 0;
    let mut i = 0;
    while i < vm.free_run_count() {
        total += vm.free_run(i).1 as u64;
        i += 1;
    }
    total
}

#[test]
fn new_machine_is_zeroed_and_running() {
    let vm = VM::new(vec![]);
    assert_eq!(vm.status(), Status::Running);
    assert_eq!(vm.program_counter(), 0);
    for r in 0..16 {
        assert_eq!(vm.register_value(r), 0);
    }
    assert_eq!(vm.store_value(0), 0);
    assert_eq!(vm.store_value(65535), 0);
    assert_eq!(vm.free_run_count(), 1);
    assert_eq!(vm.free_run(0), (0, 65536));
}

#[test]
fn running_off_the_end_halts() {
    let mut vm = VM::new(vec![Instruction::Load(0, 1)]);
    vm.run();
    assert_eq!(vm.status(), Status::Halted);
    assert_eq!(vm.register_value(0), 1);
}

#[test]
fn run_once_reports_progress() {
    let mut vm = VM::new(vec![Instruction::Load(0, 1), Instruction::Halt()]);
    assert!(vm.run_once());
    assert!(!vm.run_once());
    assert_eq!(vm.status(), Status::Halted);
    assert!(!vm.run_once());
}

#[test]
fn arithmetic_wraps_modulo_256() {
    let mut vm = VM::new(vec![
        Instruction::Load(0, 0xFF),
        Instruction::Load(1, 0x01),
        Instruction::Add(2, 0, 1),
        Instruction::Load(3, 0x00),
        Instruction::Sub(4, 3, 1),
        Instruction::Load(5, 16),
        Instruction::Mul(6, 5, 5),
        Instruction::Halt(),
    ]);
    vm.run();
    assert_eq!(vm.register_value(2), 0);
    assert_eq!(vm.register_value(4), 255);
    assert_eq!(vm.register_value(6), 0);
    assert_eq!(vm.status(), Status::Halted);
}

#[test]
fn cmp_stores_ordering_code() {
    let mut vm = VM::new(vec![
        Instruction::Load(0, 3),
        Instruction::Load(1, 7),
        Instruction::Cmp(2, 0, 1),
        Instruction::Cmp(3, 1, 0),
        Instruction::Cmp(4, 0, 0),
        Instruction::Halt(),
    ]);
    vm.run();
    assert_eq!(vm.register_value(2), 0);
    assert_eq!(vm.register_value(3), 2);
    assert_eq!(vm.register_value(4), 1);
}

#[test]
fn division_works_and_truncates() {
    let mut vm = VM::new(vec![
        Instruction::Load(0, 10),
        Instruction::Load(1, 3),
        Instruction::Div(2, 0, 1),
        Instruction::Halt(),
    ]);
    vm.run();
    assert_eq!(vm.register_value(2), 3);
}

#[test]
fn division_by_zero_faults_and_freezes_state() {
    let mut vm = VM::new(vec![
        Instruction::Load(0, 10),
        Instruction::Load(2, 0x42),
        Instruction::Div(2, 0, 1),
        Instruction::Halt(),
    ]);
    vm.run();
    assert_eq!(vm.status(), Status::Faulted(Fault::DivisionByZero));
    // the destination register is left unmodified
    assert_eq!(vm.register_value(2), 0x42);
    // the program counter stays at the faulting instruction
    assert_eq!(vm.program_counter(), 2);
    // a faulted machine never resumes
    assert!(!vm.run_once());
    assert_eq!(vm.register_value(2), 0x42);
}

#[test]
fn eq_skips_one_instruction_on_inequality() {
    // r0 != 5: the jump after EQ is skipped, execution falls through.
    let mut vm = VM::new(vec![
        Instruction::Load(0, 4),
        Instruction::Eq(0, 5),
        Instruction::Jump16(0, 5),
        Instruction::Load(1, 0xAA),
        Instruction::Halt(),
        Instruction::Load(2, 0xBB),
        Instruction::Halt(),
    ]);
    vm.run();
    assert_eq!(vm.register_value(1), 0xAA);
    assert_eq!(vm.register_value(2), 0);
    assert_eq!(vm.status(), Status::Halted);
}

#[test]
fn eq_skips_nothing_on_equality() {
    // r0 == 5: the jump after EQ executes, realizing branch-if-equal.
    let mut vm = VM::new(vec![
        Instruction::Load(0, 5),
        Instruction::Eq(0, 5),
        Instruction::Jump16(0, 5),
        Instruction::Load(1, 0xAA),
        Instruction::Halt(),
        Instruction::Load(2, 0xBB),
        Instruction::Halt(),
    ]);
    vm.run();
    assert_eq!(vm.register_value(1), 0);
    assert_eq!(vm.register_value(2), 0xBB);
    assert_eq!(vm.status(), Status::Halted);
}

#[test]
fn req_compares_two_registers() {
    let mut vm = VM::new(vec![
        Instruction::Load(0, 9),
        Instruction::Load(1, 9),
        Instruction::REq(0, 1),
        Instruction::Load(2, 0x11),
        Instruction::Load(3, 0x22),
        Instruction::Halt(),
    ]);
    vm.run();
    // equal: nothing skipped
    assert_eq!(vm.register_value(2), 0x11);
    assert_eq!(vm.register_value(3), 0x22);

    let mut vm = VM::new(vec![
        Instruction::Load(0, 9),
        Instruction::Load(1, 8),
        Instruction::REq(0, 1),
        Instruction::Load(2, 0x11),
        Instruction::Load(3, 0x22),
        Instruction::Halt(),
    ]);
    vm.run();
    // unequal: exactly one instruction skipped
    assert_eq!(vm.register_value(2), 0);
    assert_eq!(vm.register_value(3), 0x22);
}

#[test]
fn jump16_lands_exactly_on_target() {
    let mut vm = VM::new(vec![
        Instruction::Jump16(0, 2),
        Instruction::Load(0, 5),
        Instruction::Load(1, 7),
        Instruction::Halt(),
    ]);
    vm.run();
    // the instruction at the target runs; the one before it never does
    assert_eq!(vm.register_value(0), 0);
    assert_eq!(vm.register_value(1), 7);
}

#[test]
fn rjump16_uses_register_pair() {
    let mut vm = VM::new(vec![
        Instruction::Load(1, 3),
        Instruction::RJump16(0, 1),
        Instruction::Load(2, 9),
        Instruction::Halt(),
    ]);
    vm.run();
    assert_eq!(vm.register_value(2), 0);
    assert_eq!(vm.status(), Status::Halted);
}

#[test]
fn store_addressing_packs_high_and_low_bytes() {
    let mut vm = VM::new(vec![
        Instruction::Load(0, 0x01),
        Instruction::Load(1, 0x02),
        Instruction::Load(2, 0x7F),
        Instruction::SRep(0, 1, 2),
        Instruction::SCopy(0, 1, 3),
        Instruction::Halt(),
    ]);
    vm.run();
    assert_eq!(vm.store_value(0x0102), 0x7F);
    assert_eq!(vm.register_value(3), 0x7F);
}

#[test]
fn push_then_pop_returns_value_and_conserves_free_space() {
    let mut vm = VM::new(vec![
        Instruction::Load(2, 0x37),
        Instruction::SPush(0, 1, 2),
        Instruction::SPop(0, 1, 3),
        Instruction::Halt(),
    ]);
    assert_eq!(free_total(&vm), 65536);
    vm.run();
    // the first allocation is at address 0; its bytes land in r0, r1
    assert_eq!(vm.register_value(0), 0);
    assert_eq!(vm.register_value(1), 0);
    // the popped value is the one pushed
    assert_eq!(vm.register_value(3), 0x37);
    assert_eq!(vm.store_value(0), 0x37);
    // the free list covers the same total length again (layout may differ)
    assert_eq!(free_total(&vm), 65536);
}

#[test]
fn successive_pushes_allocate_successive_addresses() {
    let mut vm = VM::new(vec![
        Instruction::Load(2, 0xAA),
        Instruction::SPush(0, 1, 2),
        Instruction::Load(2, 0xBB),
        Instruction::SPush(3, 4, 2),
        Instruction::Halt(),
    ]);
    vm.run();
    assert_eq!((vm.register_value(0), vm.register_value(1)), (0, 0));
    assert_eq!((vm.register_value(3), vm.register_value(4)), (0, 1));
    assert_eq!(vm.store_value(0), 0xAA);
    assert_eq!(vm.store_value(1), 0xBB);
    assert_eq!(free_total(&vm), 65534);
}

#[test]
fn exhausting_the_store_faults() {
    // push in a loop until no free byte is left
    let mut vm = VM::new(vec![
        Instruction::SPush(0, 1, 2),
        Instruction::Jump16(0, 0),
    ]);
    vm.run();
    assert_eq!(vm.status(), Status::Faulted(Fault::StackExhausted));
    assert_eq!(free_total(&vm), 0);
}

#[test]
fn end_to_end_store_scenario() {
    let source = "LOAD r2 0x10\nSPUSH r0 r1 r2\nLOAD r2 0x04\nSCOPY r0 r1 r3\nADD r2 r2 r3\nSREP r0 r1 r2\nHALT";
    let program = assemble(source.to_string()).unwrap();
    let mut vm = VM::new(program);
    vm.run();
    assert_eq!(vm.status(), Status::Halted);
    // the pushed address is in r0, r1
    let address = ((vm.register_value(0) as usize) << 8) | (vm.register_value(1) as usize);
    assert_eq!(vm.register_value(2), 0x14);
    assert_eq!(vm.store_value(address), 0x14);
}

#[test]
fn assembled_branch_program_runs() {
    let source = "LOAD r0 0x05\nEQ r0 0x05\nJUMP16 $equal0 $equal1\nLOAD r1 0x01\nHALT\n$equal LOAD r2 0x01\nHALT";
    let program = assemble(source.to_string()).unwrap();
    let mut vm = VM::new(program);
    vm.run();
    assert_eq!(vm.register_value(1), 0);
    assert_eq!(vm.register_value(2), 1);
    assert_eq!(vm.status(), Status::Halted);
}
