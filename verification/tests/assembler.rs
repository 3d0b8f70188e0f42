use mvm::assembler::{assemble, get_value, Argument, AssemblerError, LabelRef};
use mvm::instruction::Instruction;

fn chars(s: &str) -> Vec<char> {
    s.chars().collect()
}

fn value_of(token: &str) -> Result<Argument, AssemblerError> {
    let t = chars(token);
    let mut used: Vec<LabelRef> = Vec::new();
    get_value(Some(t.as_slice()), 0, 0, &mut used)
}

#[test]
fn numeral_bases_round_trip() {
    assert_eq!(value_of("0x10"), Ok(Argument::Byte(16)));
    assert_eq!(value_of("0d16"), Ok(Argument::Byte(16)));
    assert_eq!(value_of("0b10000"), Ok(Argument::Byte(16)));
    assert_eq!(value_of("0x00"), Ok(Argument::Byte(0)));
    assert_eq!(value_of("0xff"), Ok(Argument::Byte(255)));
    assert_eq!(value_of("0xFF"), Ok(Argument::Byte(255)));
    assert_eq!(value_of("0d255"), Ok(Argument::Byte(255)));
    assert_eq!(value_of("0b11111111"), Ok(Argument::Byte(255)));
}

#[test]
fn numerals_out_of_range_or_malformed() {
    assert_eq!(value_of("0x100"), Err(AssemblerError::ParseError));
    assert_eq!(value_of("0d256"), Err(AssemblerError::ParseError));
    assert_eq!(value_of("0b100000000"), Err(AssemblerError::ParseError));
    assert_eq!(value_of("0xZZ"), Err(AssemblerError::ParseError));
    assert_eq!(value_of("0d1a"), Err(AssemblerError::ParseError));
    assert_eq!(value_of("0b2"), Err(AssemblerError::ParseError));
    assert_eq!(value_of("0x"), Err(AssemblerError::ParseError));
    assert_eq!(value_of("0"), Err(AssemblerError::WrongArgument));
    assert_eq!(value_of("hello"), Err(AssemblerError::WrongArgument));
}

#[test]
fn registers_single_hex_digit() {
    assert_eq!(value_of("r0"), Ok(Argument::Register(0)));
    assert_eq!(value_of("r5"), Ok(Argument::Register(5)));
    assert_eq!(value_of("r9"), Ok(Argument::Register(9)));
    assert_eq!(value_of("ra"), Ok(Argument::Register(10)));
    assert_eq!(value_of("rF"), Ok(Argument::Register(15)));
    assert_eq!(value_of("rG"), Err(AssemblerError::ParseError));
    assert_eq!(value_of("r"), Err(AssemblerError::ParseError));
    assert_eq!(value_of("r10"), Err(AssemblerError::ParseError));
}

#[test]
fn next_tokens_give_following_index_bytes() {
    let t0 = chars("NEXT0");
    let t1 = chars("NEXT1");
    let mut used: Vec<LabelRef> = Vec::new();
    assert_eq!(
        get_value(Some(t0.as_slice()), 4, 0, &mut used),
        Ok(Argument::Byte(0))
    );
    assert_eq!(
        get_value(Some(t1.as_slice()), 4, 0, &mut used),
        Ok(Argument::Byte(5))
    );
    assert_eq!(
        get_value(Some(t0.as_slice()), 0x1234, 0, &mut used),
        Ok(Argument::Byte(0x12))
    );
    assert_eq!(
        get_value(Some(t1.as_slice()), 0x1234, 0, &mut used),
        Ok(Argument::Byte(0x35))
    );
    assert!(used.is_empty());
}

#[test]
fn label_tokens_record_deferred_references() {
    let tok = chars("$loop0");
    let mut used: Vec<LabelRef> = Vec::new();
    assert_eq!(
        get_value(Some(tok.as_slice()), 7, 1, &mut used),
        Ok(Argument::Byte(0))
    );
    assert_eq!(used.len(), 1);
    assert_eq!(used[0].name, chars("loop"));
    assert_eq!(used[0].selector, 0);
    assert_eq!(used[0].instruction, 7);
    assert_eq!(used[0].slot, 1);

    let tok = chars("$x1");
    assert_eq!(
        get_value(Some(tok.as_slice()), 2, 0, &mut used),
        Ok(Argument::Byte(0))
    );
    assert_eq!(used.len(), 2);
    assert_eq!(used[1].name, chars("x"));
    assert_eq!(used[1].selector, 1);
}

#[test]
fn label_token_without_selector_is_wrong() {
    assert_eq!(value_of("$loop"), Err(AssemblerError::WrongArgument));
    assert_eq!(value_of("$"), Err(AssemblerError::WrongArgument));
}

#[test]
fn missing_token_is_missing_argument() {
    let mut used: Vec<LabelRef> = Vec::new();
    assert_eq!(
        get_value(None, 0, 0, &mut used),
        Err(AssemblerError::MissingArgument)
    );
}

#[test]
fn assemble_simple_program() {
    let program = assemble("LOAD r2 0x10\nHALT".to_string()).unwrap();
    assert_eq!(program, vec![Instruction::Load(2, 0x10), Instruction::Halt()]);
}

#[test]
fn assemble_all_mnemonics() {
    let source = "LOAD r0 0x01\nADD r1 r2 r3\nSUB r1 r2 r3\nMUL r1 r2 r3\nDIV r1 r2 r3\nCMP r1 r2 r3\nSPUSH r0 r1 r2\nSCOPY r0 r1 r2\nSPOP r0 r1 r2\nSREP r0 r1 r2\nREQ r0 r1\nEQ r0 0x05\nJUMP16 0x00 0x03\nRJUMP16 r0 r1\nHALT";
    let program = assemble(source.to_string()).unwrap();
    assert_eq!(
        program,
        vec![
            Instruction::Load(0, 1),
            Instruction::Add(1, 2, 3),
            Instruction::Sub(1, 2, 3),
            Instruction::Mul(1, 2, 3),
            Instruction::Div(1, 2, 3),
            Instruction::Cmp(1, 2, 3),
            Instruction::SPush(0, 1, 2),
            Instruction::SCopy(0, 1, 2),
            Instruction::SPop(0, 1, 2),
            Instruction::SRep(0, 1, 2),
            Instruction::REq(0, 1),
            Instruction::Eq(0, 5),
            Instruction::Jump16(0, 3),
            Instruction::RJump16(0, 1),
            Instruction::Halt(),
        ]
    );
}

#[test]
fn assemble_skips_blank_and_comment_lines() {
    let program = assemble("# a comment\n\nLOAD r0 0x01\n\n# another\nHALT\n".to_string()).unwrap();
    assert_eq!(program, vec![Instruction::Load(0, 1), Instruction::Halt()]);
}

#[test]
fn assemble_unknown_mnemonic() {
    assert_eq!(
        assemble("FOOBAR r0 r1".to_string()),
        Err(AssemblerError::UnknownInstruction)
    );
}

#[test]
fn assemble_missing_operand() {
    assert_eq!(
        assemble("LOAD r0".to_string()),
        Err(AssemblerError::MissingArgument)
    );
}

#[test]
fn assemble_undefined_label() {
    assert_eq!(
        assemble("JUMP16 $undefined0 $undefined1".to_string()),
        Err(AssemblerError::LabelNotFound)
    );
}

#[test]
fn assemble_wrong_operand_kinds() {
    assert_eq!(
        assemble("LOAD 0x01 0x02".to_string()),
        Err(AssemblerError::WrongArgument)
    );
    assert_eq!(
        assemble("ADD r0 r1 0x02".to_string()),
        Err(AssemblerError::WrongArgument)
    );
    assert_eq!(
        assemble("JUMP16 r0 r1".to_string()),
        Err(AssemblerError::WrongArgument)
    );
    assert_eq!(
        assemble("REQ r0 $label0".to_string()),
        Err(AssemblerError::WrongArgument)
    );
}

#[test]
fn assemble_resolves_forward_reference() {
    let program = assemble("JUMP16 $end0 $end1\nLOAD r0 0x01\n$end HALT".to_string()).unwrap();
    assert_eq!(
        program,
        vec![
            Instruction::Jump16(0, 2),
            Instruction::Load(0, 1),
            Instruction::Halt(),
        ]
    );
}

#[test]
fn assemble_resolves_backward_reference() {
    let program = assemble("$top LOAD r0 0x01\nJUMP16 $top0 $top1".to_string()).unwrap();
    assert_eq!(
        program,
        vec![Instruction::Load(0, 1), Instruction::Jump16(0, 0)]
    );
}

#[test]
fn forward_and_backward_references_resolve_alike() {
    // The label stands at instruction index 1 in both sources; the patched
    // bytes must be identical whichever side of the definition the use is on.
    let forward = assemble("LOAD r0 $t1\n$t HALT".to_string()).unwrap();
    let backward = assemble("HALT\n$t LOAD r0 $t1".to_string()).unwrap();
    // forward: use at index 0, label at index 1 -> Load(0, 1)
    assert_eq!(forward[0], Instruction::Load(0, 1));
    // backward: label at index 1, use inside that same instruction -> Load(0, 1)
    assert_eq!(backward[1], Instruction::Load(0, 1));
}

#[test]
fn assemble_bare_label_line_does_not_advance_index() {
    let program = assemble("$loop\nLOAD r0 0x01\nJUMP16 $loop0 $loop1".to_string()).unwrap();
    assert_eq!(
        program,
        vec![Instruction::Load(0, 1), Instruction::Jump16(0, 0)]
    );
}

#[test]
fn assemble_patches_eq_value_slot() {
    let program = assemble("EQ r0 $end1\n$end HALT".to_string()).unwrap();
    assert_eq!(program, vec![Instruction::Eq(0, 1), Instruction::Halt()]);
}

#[test]
fn assemble_patches_load_value_slot() {
    let program = assemble("LOAD r3 $end1\n$end HALT".to_string()).unwrap();
    assert_eq!(program, vec![Instruction::Load(3, 1), Instruction::Halt()]);
}

#[test]
fn assemble_next_operand() {
    let program = assemble("LOAD r0 NEXT1\nHALT".to_string()).unwrap();
    assert_eq!(program, vec![Instruction::Load(0, 1), Instruction::Halt()]);
}

#[test]
fn assemble_crlf_line_endings() {
    let program = assemble("LOAD r0 0x01\r\nHALT\r\n".to_string()).unwrap();
    assert_eq!(program, vec![Instruction::Load(0, 1), Instruction::Halt()]);
}

#[test]
fn assemble_duplicate_label_last_definition_wins() {
    let program = assemble("$a HALT\n$a HALT\nJUMP16 $a0 $a1".to_string()).unwrap();
    assert_eq!(
        program,
        vec![
            Instruction::Halt(),
            Instruction::Halt(),
            Instruction::Jump16(0, 1),
        ]
    );
}

#[test]
fn assemble_extra_tokens_are_ignored() {
    let program = assemble("HALT r0".to_string()).unwrap();
    assert_eq!(program, vec![Instruction::Halt()]);
}

#[test]
fn assemble_empty_source() {
    assert_eq!(assemble(String::new()), Ok(vec![]));
}
