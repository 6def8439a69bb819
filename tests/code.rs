use hack_assembler::code::Code;

#[test]
fn test_code_dest() {
    assert_eq!(&Code::dest("").unwrap(), "000");
    assert_eq!(&Code::dest("M").unwrap(), "001");
    assert_eq!(&Code::dest("D").unwrap(), "010");
    assert_eq!(&Code::dest("MD").unwrap(), "011");
    assert_eq!(&Code::dest("A").unwrap(), "100");
    assert_eq!(&Code::dest("AM").unwrap(), "101");
    assert_eq!(&Code::dest("AD").unwrap(), "110");
    assert_eq!(&Code::dest("AMD").unwrap(), "111");
    assert_eq!(Code::dest("a"), None);
}

#[test]
fn test_code_jump() {
    assert_eq!(&Code::jump("").unwrap(), "000");
    assert_eq!(&Code::jump("JGT").unwrap(), "001");
    assert_eq!(&Code::jump("JEQ").unwrap(), "010");
    assert_eq!(&Code::jump("JGE").unwrap(), "011");
    assert_eq!(&Code::jump("JLT").unwrap(), "100");
    assert_eq!(&Code::jump("JNE").unwrap(), "101");
    assert_eq!(&Code::jump("JLE").unwrap(), "110");
    assert_eq!(&Code::jump("JMP").unwrap(), "111");
    assert_eq!(Code::jump("a"), None);
}

#[test]
fn code_comp_table() {
    let table = [
        ("0", "0101010"),
        ("1", "0111111"),
        ("-1", "0111010"),
        ("D", "0001100"),
        ("A", "0110000"),
        ("!D", "0001101"),
        ("!A", "0110001"),
        ("-D", "0001111"),
        ("-A", "0110011"),
        ("D+1", "0011111"),
        ("A+1", "0110111"),
        ("D-1", "0001110"),
        ("A-1", "0110010"),
        ("D+A", "0000010"),
        ("D-A", "0010011"),
        ("A-D", "0000111"),
        ("D&A", "0000000"),
        ("D|A", "0010101"),
        ("M", "1110000"),
        ("!M", "1110001"),
        ("-M", "1110011"),
        ("M+1", "1110111"),
        ("M-1", "1110010"),
        ("D+M", "1000010"),
        ("D-M", "1010011"),
        ("M-D", "1000111"),
        ("D&M", "1000000"),
        ("D|M", "1010101"),
    ];
    for (m, c) in table.iter() {
        assert_eq!(Code::comp(m), Some(c.to_string()));
    }
}

#[test]
fn code_comp_rejects_unknown() {
    assert_eq!(Code::comp(""), None);
    assert_eq!(Code::comp("A+D"), None);
    assert_eq!(Code::comp("M+D"), None);
    assert_eq!(Code::comp("d"), None);
    assert_eq!(Code::dest("DM"), None);
    assert_eq!(Code::jump("jmp"), None);
}

#[test]
fn code_fields_are_distinct() {
    let dests = ["", "M", "D", "MD", "A", "AM", "AD", "AMD"];
    let mut seen: Vec<String> = Vec::new();
    for d in dests.iter() {
        let c = Code::dest(d).unwrap();
        assert_eq!(c.len(), 3);
        assert!(!seen.contains(&c));
        seen.push(c);
    }
    let jumps = ["", "JGT", "JEQ", "JGE", "JLT", "JNE", "JLE", "JMP"];
    let mut seen: Vec<String> = Vec::new();
    for j in jumps.iter() {
        let c = Code::jump(j).unwrap();
        assert_eq!(c.len(), 3);
        assert!(!seen.contains(&c));
        seen.push(c);
    }
}
