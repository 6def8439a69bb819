use hack_assembler::symbol_table::SymbolTable;

#[test]
fn test_symbol_table_new() {
    SymbolTable::new();
}

#[test]
fn test_symbol_table_add_entry() {
    let mut symbol_table = SymbolTable::new();
    symbol_table.add_entry("test", 10);
    symbol_table.add_entry("aa", 0);
}

#[test]
fn test_symbol_table_contains() {
    let mut symbol_table = SymbolTable::new();
    symbol_table.add_entry("test", 10);
    assert_eq!(symbol_table.contains("test"), true);
    assert_eq!(symbol_table.contains("m"), false);
}

#[test]
fn test_symbol_table_get_address() {
    let mut symbol_table = SymbolTable::new();
    symbol_table.add_entry("test", 10);
    assert_eq!(symbol_table.get_address("test"), Some(&10));
}

#[test]
fn symbol_table_overwrites_address() {
    let mut symbol_table = SymbolTable::new();
    symbol_table.add_entry("x", 1);
    symbol_table.add_entry("x", 7);
    assert_eq!(symbol_table.get_address("x"), Some(&7));
    assert_eq!(symbol_table.get_address("y"), None);
}

#[test]
fn symbol_table_equality_ignores_order() {
    let mut a = SymbolTable::new();
    a.add_entry("p", 1);
    a.add_entry("q", 2);
    let mut b = SymbolTable::new();
    b.add_entry("q", 2);
    b.add_entry("p", 1);
    assert_eq!(a, b);
    b.add_entry("p", 3);
    assert_ne!(a, b);
    let mut c = SymbolTable::new();
    c.add_entry("p", 1);
    assert_ne!(a, c);
}
