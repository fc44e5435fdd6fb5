use lr1gen::error::GrammarError;
use lr1gen::symbols::{Symbol, SymbolKind, Symbols, AUGMENTED_START, END_OF_INPUT};

fn terminal(name: &str) -> Symbol {
    Symbol::Terminal(name.to_string())
}

fn nonterminal(name: &str) -> Symbol {
    Symbol::Nonterminal(name.to_string())
}

#[test]
fn new_table_holds_the_reserved_symbols() {
    let symbols = Symbols::new();
    assert_eq!(symbols.len(), 2);
    assert_eq!(symbols.name(END_OF_INPUT), "$");
    assert_eq!(symbols.name(AUGMENTED_START), "S'");
    assert_eq!(symbols.kind(END_OF_INPUT), SymbolKind::Terminal);
    assert_eq!(symbols.kind(AUGMENTED_START), SymbolKind::Nonterminal);
}

#[test]
fn interning_is_idempotent() {
    let mut symbols = Symbols::new();
    let a = symbols.add_symbol(terminal("a"));
    assert_eq!(a, Ok(2));
    let b = symbols.add_symbol(nonterminal("B"));
    assert_eq!(b, Ok(3));
    assert_eq!(symbols.add_symbol(terminal("a")), Ok(2));
    assert_eq!(symbols.add_symbol(nonterminal("B")), Ok(3));
    assert_eq!(symbols.len(), 4);
}

#[test]
fn interning_with_the_other_kind_is_refused() {
    let mut symbols = Symbols::new();
    assert_eq!(symbols.add_symbol(terminal("x")), Ok(2));
    assert_eq!(
        symbols.add_symbol(nonterminal("x")),
        Err(GrammarError::SymbolKindConflict { symbol: 2 })
    );
    assert_eq!(symbols.len(), 3);
    assert!(symbols.is_terminal(2));
    assert!(!symbols.is_nonterminal(2));
    assert!(!symbols.is_terminal(3));
    assert!(!symbols.is_nonterminal(3));
}
