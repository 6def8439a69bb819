use hack_assembler::assembler::{asm_to_hack, get_symbol_table, number_to_16bin, parse_i16_literal};

#[test]
fn test_number_to_16bin() {
    assert_eq!(number_to_16bin(0), [0, 0, 0, 0, 0, 0, 0, 0, 0, 0, 0, 0, 0, 0, 0, 0]);
    assert_eq!(number_to_16bin(1), [0, 0, 0, 0, 0, 0, 0, 0, 0, 0, 0, 0, 0, 0, 0, 1]);
    assert_eq!(number_to_16bin(2), [0, 0, 0, 0, 0, 0, 0, 0, 0, 0, 0, 0, 0, 0, 1, 0]);
    assert_eq!(number_to_16bin(7), [0, 0, 0, 0, 0, 0, 0, 0, 0, 0, 0, 0, 0, 1, 1, 1]);
    assert_eq!(number_to_16bin(-1), [1, 1, 1, 1, 1, 1, 1, 1, 1, 1, 1, 1, 1, 1, 1, 1]);
    assert_eq!(number_to_16bin(-2), [1, 1, 1, 1, 1, 1, 1, 1, 1, 1, 1, 1, 1, 1, 1, 0]);
}

#[test]
fn test_get_symbol_table() {
    let source = r#"
    @10
    "#
    .to_string();
    assert_eq!(get_symbol_table(&source), get_symbol_table(""));

    let source = r#"
    (TEST)
    "#
    .to_string();
    let mut stable = get_symbol_table("");
    stable.add_entry("TEST", 0);
    assert_eq!(get_symbol_table(&source), stable);

    let source = r#"
    (TEST)
    @10
    (SYMBOL)
    @10
    "#
    .to_string();
    let mut stable = get_symbol_table("");
    stable.add_entry("SYMBOL", 1);
    stable.add_entry("TEST", 0);
    assert_eq!(get_symbol_table(&source), stable);
}

#[test]
fn test_asm_to_hack() {
    let source = r#"
    @0
    "#
    .to_string();
    assert_eq!(&asm_to_hack(source).unwrap(), "0000000000000000\n");

    let source = r#"
    @R0
    D=M
    @R1
    "#
    .to_string();
    assert_eq!(
        &asm_to_hack(source).unwrap(),
        "0000000000000000\n1111110000010000\n0000000000000001\n"
    );

    let source = r#"
    @var
    "#
    .to_string();
    assert_eq!(&asm_to_hack(source).unwrap(), "0000000000010000\n");

    let source = r#"
    @var
    @var
    "#
    .to_string();
    assert_eq!(&asm_to_hack(source).unwrap(), "0000000000010000\n0000000000010000\n");

    let source = r#"
    @var
    @var2
    "#
    .to_string();
    assert_eq!(&asm_to_hack(source).unwrap(), "0000000000010000\n0000000000010001\n");

    let source = r#"
    (TEST)
    @TEST
    "#
    .to_string();
    assert_eq!(&asm_to_hack(source).unwrap(), "0000000000000000\n");

    let source = r#"
    @TEST
    (TEST)
    @TENISS
    (TENISS)
    "#
    .to_string();
    assert_eq!(&asm_to_hack(source).unwrap(), "0000000000000001\n0000000000000010\n");

    let source = r#"
    @TEST
    (TEST)
    @var
    "#
    .to_string();
    assert_eq!(&asm_to_hack(source).unwrap(), "0000000000000001\n0000000000010000\n");
}

#[test]
fn predefined_symbols_resolve_to_fixed_addresses() {
    let hack = asm_to_hack("@SCREEN\n@KBD\n@SP\n@LCL\n@ARG\n@THIS\n@THAT\n@R15".to_string()).unwrap();
    assert_eq!(
        hack,
        "0100000000000000\n0110000000000000\n0000000000000000\n0000000000000001\n\
         0000000000000010\n0000000000000011\n0000000000000100\n0000000000001111\n"
    );
}

#[test]
fn one_line_per_instruction() {
    let hack = asm_to_hack("(START)\n@2\nD=A\n(LOOP)\n0;JMP\n(END)".to_string()).unwrap();
    assert_eq!(hack.lines().count(), 3);
    assert!(hack.lines().all(|l| l.len() == 16));
}

#[test]
fn variables_in_first_use_order() {
    let hack = asm_to_hack("@a\n@b\n@a\n@c\n@b".to_string()).unwrap();
    assert_eq!(
        hack,
        "0000000000010000\n0000000000010001\n0000000000010000\n0000000000010010\n0000000000010001\n"
    );
}

#[test]
fn label_forward_and_backward_same_address() {
    let hack = asm_to_hack("@L\n0;JMP\n(L)\n@L".to_string()).unwrap();
    assert_eq!(hack, "0000000000000010\n1110101010000111\n0000000000000010\n");
}

#[test]
fn compute_with_all_fields() {
    let hack = asm_to_hack("AMD=D|M;JLE".to_string()).unwrap();
    assert_eq!(hack, "1111010101111110\n");
    let hack = asm_to_hack("D;JGT\nM=M+1".to_string()).unwrap();
    assert_eq!(hack, "1110001100000001\n1111110111001000\n");
}

#[test]
fn invalid_command_fails() {
    assert_eq!(asm_to_hack("@1\nhello\n@2".to_string()), None);
}

#[test]
fn unknown_mnemonic_fails() {
    assert_eq!(asm_to_hack("@1\nX=D".to_string()), None);
    assert_eq!(asm_to_hack("D=Q".to_string()), None);
    assert_eq!(asm_to_hack("D;JJJ".to_string()), None);
}

#[test]
fn empty_source_gives_empty_text() {
    assert_eq!(asm_to_hack("".to_string()), Some(String::new()));
    assert_eq!(asm_to_hack("// nothing\n\n".to_string()), Some(String::new()));
}

#[test]
fn numeric_literals_keep_low_fifteen_bits() {
    assert_eq!(asm_to_hack("@32767".to_string()).unwrap(), "0111111111111111\n");
    assert_eq!(asm_to_hack("@-1".to_string()).unwrap(), "0111111111111111\n");
    assert_eq!(asm_to_hack("@-32768".to_string()).unwrap(), "0000000000000000\n");
    assert_eq!(asm_to_hack("@+5".to_string()).unwrap(), "0000000000000101\n");
    // Too large for a 16-bit number: an ordinary variable name.
    assert_eq!(asm_to_hack("@40000".to_string()).unwrap(), "0000000000010000\n");
}

#[test]
fn parse_literal_values() {
    assert_eq!(parse_i16_literal("0"), Some(0));
    assert_eq!(parse_i16_literal("007"), Some(7));
    assert_eq!(parse_i16_literal("-32768"), Some(-32768));
    assert_eq!(parse_i16_literal("32767"), Some(32767));
    assert_eq!(parse_i16_literal("+12"), Some(12));
    assert_eq!(parse_i16_literal("32768"), None);
    assert_eq!(parse_i16_literal("-32769"), None);
    assert_eq!(parse_i16_literal("99999999999"), None);
    assert_eq!(parse_i16_literal(""), None);
    assert_eq!(parse_i16_literal("-"), None);
    assert_eq!(parse_i16_literal("1a"), None);
    assert_eq!(parse_i16_literal("R1"), None);
}

#[test]
fn later_label_replaces_earlier() {
    let hack = asm_to_hack("(X)\n@0\n(X)\n@X".to_string()).unwrap();
    assert_eq!(hack, "0000000000000000\n0000000000000001\n");
}
