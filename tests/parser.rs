use hack_assembler::parser::{CommandType, Parser};

#[test]
fn test_parser_new() {
    let source = r#"
        // test source
          // test source
        "#
    .to_string();
    let parser = Parser::new(source);
    assert_eq!(parser.asm_lines.len(), 0);

    let source = r#"
        // test source
        @test
        @1 // test
        "#
    .to_string();
    let parser = Parser::new(source);
    assert_eq!(parser.asm_lines.len(), 2);
    assert_eq!(parser.asm_lines, vec!["@test", "@1"]);
}

#[test]
fn test_parser_has_more_commands() {
    let source = r#""#.to_string();
    let parser = Parser::new(source);
    assert_eq!(parser.asm_lines.len(), 0);
    assert_eq!(parser.has_more_commands(), false);

    let source = r#"
        @test
        @test
        "#
    .to_string();
    let mut parser = Parser::new(source);
    assert_eq!(parser.has_more_commands(), true);
    parser.advance();
    assert_eq!(parser.has_more_commands(), true);
    parser.advance();
    assert_eq!(parser.has_more_commands(), false);
}

#[test]
fn test_test_parser_command_type() {
    let source = r#"
        @Xxx
        dest=comp;jump
        dest=comp
        comp;jump
        (Xxx)
        aiueo
        "#
    .to_string();
    let mut parser = Parser::new(source);
    parser.advance();
    assert_eq!(parser.command_type(), CommandType::A);
    parser.advance();
    assert_eq!(parser.command_type(), CommandType::C);
    parser.advance();
    assert_eq!(parser.command_type(), CommandType::C);
    parser.advance();
    assert_eq!(parser.command_type(), CommandType::C);
    parser.advance();
    assert_eq!(parser.command_type(), CommandType::L);
    parser.advance();
    assert_eq!(parser.command_type(), CommandType::Invalid);
}

#[test]
fn test_parser_symbol() {
    let source = r#"
        @Xxx
        (Xxx)
        (X)
        @X
        "#
    .to_string();
    let mut parser = Parser::new(source);
    parser.advance();
    assert_eq!(parser.symbol(), "Xxx".to_string());
    parser.advance();
    assert_eq!(parser.symbol(), "Xxx".to_string());
    parser.advance();
    assert_eq!(parser.symbol(), "X".to_string());
    parser.advance();
    assert_eq!(parser.symbol(), "X".to_string());
}

#[test]
fn test_parser_dest() {
    let source = r#"
        a=b
        a=b;c
        b;c
        "#
    .to_string();
    let mut parser = Parser::new(source);
    parser.advance();
    assert_eq!(parser.dest(), "a");
    parser.advance();
    assert_eq!(parser.dest(), "a");
    parser.advance();
    assert_eq!(parser.dest(), "");
}

#[test]
fn test_parser_comp() {
    let source = r#"
        a=b
        a=b;c
        b;c
        "#
    .to_string();
    let mut parser = Parser::new(source);
    parser.advance();
    assert_eq!(parser.comp(), "b");
    parser.advance();
    assert_eq!(parser.comp(), "b");
    parser.advance();
    assert_eq!(parser.comp(), "b");
}

#[test]
fn test_parser_jump() {
    let source = r#"
        a=b
        a=b;c
        b;c
        "#
    .to_string();
    let mut parser = Parser::new(source);
    parser.advance();
    assert_eq!(parser.jump(), "");
    parser.advance();
    assert_eq!(parser.jump(), "c");
    parser.advance();
    assert_eq!(parser.jump(), "c");
}

#[test]
fn parser_trims_tabs_and_carriage_returns() {
    let parser = Parser::new("\t@5\r\n  D=M // load\r\n//only\n\n   \nM=D".to_string());
    assert_eq!(parser.asm_lines, vec!["@5", "D=M", "M=D"]);
}

#[test]
fn parser_edge_command_kinds() {
    let mut parser = Parser::new("(\n()\n@\n=\n(a".to_string());
    parser.advance();
    assert_eq!(parser.command_type(), CommandType::Invalid);
    assert_eq!(parser.symbol(), "");
    parser.advance();
    assert_eq!(parser.command_type(), CommandType::L);
    assert_eq!(parser.symbol(), "");
    parser.advance();
    assert_eq!(parser.command_type(), CommandType::A);
    assert_eq!(parser.symbol(), "");
    parser.advance();
    assert_eq!(parser.command_type(), CommandType::C);
    assert_eq!(parser.dest(), "");
    assert_eq!(parser.comp(), "");
    assert_eq!(parser.jump(), "");
    parser.advance();
    assert_eq!(parser.command_type(), CommandType::Invalid);
    assert_eq!(parser.symbol(), "");
}
