use lr1gen::error::GrammarError;
use lr1gen::generator::Options;
use lr1gen::grammar::{Grammar, Rule};
use lr1gen::symbols::{Symbol, SymbolKind, AUGMENTED_START, END_OF_INPUT};
use lr1gen::table::Action;

fn terminal(name: &str) -> Symbol {
    Symbol::Terminal(name.to_string())
}

fn nonterminal(name: &str) -> Symbol {
    Symbol::Nonterminal(name.to_string())
}

#[test]
fn new_grammar_holds_the_augmented_production() {
    let grammar = Grammar::new();
    assert_eq!(grammar.num_rules(), 1);
    assert_eq!(grammar.num_symbols(), 2);
    assert_eq!(grammar.production(0).lhs, AUGMENTED_START);
    assert!(grammar.production(0).rhs.is_empty());
    assert!(grammar.is_terminal(END_OF_INPUT));
    assert!(grammar.is_nonterminal(AUGMENTED_START));
    assert_eq!(grammar.get_rules_by_lhs(AUGMENTED_START), vec![0]);
    assert_eq!(grammar.get_rules_by_lhs(END_OF_INPUT), Vec::<usize>::new());
}

#[test]
fn productions_are_numbered_in_order() {
    let mut grammar = Grammar::new();
    let e = nonterminal("E");
    let t = nonterminal("T");
    assert_eq!(grammar.add_symbol(e.clone()), Ok(2));
    assert_eq!(grammar.add_symbol(t.clone()), Ok(3));
    assert_eq!(grammar.add_symbol(terminal("+")), Ok(4));
    assert_eq!(grammar.add_symbol(terminal("n")), Ok(5));
    assert_eq!(
        grammar.add_rule(Rule::new(e.clone(), e.clone()).rhs(terminal("+")).rhs(t.clone())),
        Ok(1)
    );
    assert_eq!(grammar.add_rule(Rule::new(t.clone(), terminal("n"))), Ok(2));
    assert_eq!(grammar.add_rule(Rule::new(e.clone(), t.clone())), Ok(3));
    assert_eq!(grammar.num_rules(), 4);
    assert_eq!(grammar.production(1).lhs, 2);
    assert_eq!(grammar.production(1).rhs, vec![2, 4, 3]);
    assert_eq!(grammar.production(3).rhs, vec![3]);
    // The productions of a symbol come in the order in which they were added.
    assert_eq!(grammar.get_rules_by_lhs(2), vec![1, 3]);
    assert_eq!(grammar.get_rules_by_lhs(3), vec![2]);
    assert_eq!(grammar.get_rules_by_lhs(4), Vec::<usize>::new());
    assert_eq!(grammar.get_rules_by_lhs(99), Vec::<usize>::new());
    assert_eq!(grammar.symbols().kind(4), SymbolKind::Terminal);
    assert_eq!(grammar.symbols().name(3), "T");
}

#[test]
fn the_head_of_a_rule_is_interned_on_the_spot() {
    let mut grammar = Grammar::new();
    assert_eq!(grammar.add_symbol(terminal("a")), Ok(2));
    assert_eq!(grammar.add_rule(Rule::new(nonterminal("S"), terminal("a"))), Ok(1));
    assert_eq!(grammar.num_symbols(), 4);
    assert!(grammar.is_nonterminal(3));
    // A head may stand on its own right-hand side.
    assert_eq!(
        grammar.add_rule(Rule::new(nonterminal("L"), nonterminal("L")).rhs(terminal("a"))),
        Ok(2)
    );
    assert_eq!(grammar.production(2).rhs, vec![4, 2]);
}

#[test]
fn duplicate_productions_are_added_once() {
    let mut grammar = Grammar::new();
    grammar.add_symbol(nonterminal("S")).unwrap();
    grammar.add_symbol(terminal("a")).unwrap();
    grammar.add_symbol(terminal("b")).unwrap();
    assert_eq!(grammar.add_rule(Rule::new(nonterminal("S"), terminal("a"))), Ok(1));
    assert_eq!(grammar.add_rule(Rule::new(nonterminal("S"), terminal("b"))), Ok(2));
    assert_eq!(grammar.add_rule(Rule::new(nonterminal("S"), terminal("a"))), Ok(1));
    assert_eq!(grammar.add_rule(Rule::empty(nonterminal("S"))), Ok(3));
    assert_eq!(grammar.add_rule(Rule::empty(nonterminal("S"))), Ok(3));
    assert_eq!(grammar.num_rules(), 4);
    assert_eq!(grammar.get_rules_by_lhs(2), vec![1, 2, 3]);
}

#[test]
fn undefined_symbol_on_a_right_hand_side() {
    let mut grammar = Grammar::new();
    grammar.add_symbol(nonterminal("S")).unwrap();
    grammar.add_symbol(terminal("a")).unwrap();
    let rule = Rule::new(nonterminal("S"), terminal("a")).rhs(terminal("b"));
    assert_eq!(
        grammar.add_rule(rule),
        Err(vec![GrammarError::UndefinedSymbol { position: 1 }])
    );
    assert_eq!(grammar.num_rules(), 1);
    // All the errors of a rule are reported, in the order of its symbols.
    let rule = Rule::new(nonterminal("S"), nonterminal("X"))
        .rhs(terminal("a"))
        .rhs(terminal("$"))
        .rhs(nonterminal("a"))
        .rhs(terminal("b"));
    assert_eq!(
        grammar.add_rule(rule),
        Err(vec![
            GrammarError::UndefinedSymbol { position: 0 },
            GrammarError::ReservedSymbol { symbol: END_OF_INPUT },
            GrammarError::SymbolKindConflict { symbol: 3 },
            GrammarError::UndefinedSymbol { position: 4 },
        ])
    );
    assert_eq!(grammar.num_rules(), 1);
}

#[test]
fn the_errors_of_the_head_come_first() {
    let mut grammar = Grammar::new();
    grammar.add_symbol(terminal("a")).unwrap();
    // The head is written as a non-terminal but known as a terminal, and
    // the right-hand side names an unknown symbol.
    let rule = Rule::new(nonterminal("a"), terminal("a")).rhs(terminal("b"));
    assert_eq!(
        grammar.add_rule(rule),
        Err(vec![
            GrammarError::SymbolKindConflict { symbol: 2 },
            GrammarError::UndefinedSymbol { position: 1 },
        ])
    );
    // A head that is interned as a terminal is known afterwards.
    let rule = Rule::new(terminal("t"), terminal("t"));
    assert_eq!(
        grammar.add_rule(rule),
        Err(vec![GrammarError::SymbolKindConflict { symbol: 3 }])
    );
    assert!(grammar.is_terminal(3));
    assert_eq!(grammar.num_rules(), 1);
}

#[test]
fn kind_conflicts_in_a_rule() {
    let mut grammar = Grammar::new();
    assert_eq!(grammar.add_symbol(nonterminal("S")), Ok(2));
    assert_eq!(grammar.add_symbol(terminal("a")), Ok(3));
    // A terminal cannot head a production.
    assert_eq!(
        grammar.add_rule(Rule::new(nonterminal("a"), terminal("a"))),
        Err(vec![GrammarError::SymbolKindConflict { symbol: 3 }])
    );
    assert_eq!(
        grammar.add_rule(Rule::new(terminal("a"), terminal("a"))),
        Err(vec![GrammarError::SymbolKindConflict { symbol: 3 }])
    );
    // A non-terminal cannot be written as a terminal.
    assert_eq!(
        grammar.add_rule(Rule::new(nonterminal("S"), terminal("S"))),
        Err(vec![GrammarError::SymbolKindConflict { symbol: 2 }])
    );
    assert_eq!(grammar.num_rules(), 1);
    assert_eq!(grammar.num_symbols(), 4);
}

#[test]
fn reserved_symbols_cannot_be_used() {
    let mut grammar = Grammar::new();
    grammar.add_symbol(nonterminal("S")).unwrap();
    grammar.add_symbol(terminal("a")).unwrap();
    assert_eq!(
        grammar.add_rule(Rule::new(nonterminal("S"), terminal("$"))),
        Err(vec![GrammarError::ReservedSymbol { symbol: END_OF_INPUT }])
    );
    assert_eq!(
        grammar.add_rule(Rule::new(nonterminal("S"), nonterminal("S'"))),
        Err(vec![GrammarError::ReservedSymbol { symbol: AUGMENTED_START }])
    );
    assert_eq!(
        grammar.add_rule(Rule::new(nonterminal("S'"), terminal("a"))),
        Err(vec![GrammarError::ReservedSymbol { symbol: AUGMENTED_START }])
    );
    assert_eq!(
        grammar.add_rule(Rule::new(terminal("$"), terminal("a"))),
        Err(vec![GrammarError::ReservedSymbol { symbol: END_OF_INPUT }])
    );
    grammar.add_rule(Rule::new(nonterminal("S"), terminal("a"))).unwrap();
    assert_eq!(
        grammar.build(nonterminal("S'")).err(),
        Some(vec![GrammarError::ReservedSymbol { symbol: AUGMENTED_START }])
    );
    // Interning a reserved name again is harmless.
    assert_eq!(grammar.add_symbol(terminal("$")), Ok(END_OF_INPUT));
    assert_eq!(
        grammar.add_symbol(nonterminal("$")),
        Err(GrammarError::SymbolKindConflict { symbol: END_OF_INPUT })
    );
}

#[test]
fn the_start_symbol_must_be_a_nonterminal() {
    let mut grammar = Grammar::new();
    grammar.add_symbol(nonterminal("S")).unwrap();
    grammar.add_symbol(terminal("a")).unwrap();
    grammar.add_rule(Rule::new(nonterminal("S"), terminal("a"))).unwrap();
    assert_eq!(
        grammar.build(terminal("a")).err(),
        Some(vec![GrammarError::SymbolKindConflict { symbol: 3 }])
    );
    assert_eq!(
        grammar.build(terminal("S")).err(),
        Some(vec![GrammarError::SymbolKindConflict { symbol: 2 }])
    );
    assert_eq!(
        grammar.build(nonterminal("a")).err(),
        Some(vec![GrammarError::SymbolKindConflict { symbol: 3 }])
    );
    // Production 0 has no right-hand side until a start symbol resolves.
    assert!(grammar.production(0).rhs.is_empty());
    assert!(grammar.build(nonterminal("S")).is_ok());
    assert_eq!(grammar.production(0).rhs, vec![2]);
}

#[test]
fn a_start_symbol_without_production_is_reported() {
    let mut grammar = Grammar::new();
    grammar.add_symbol(nonterminal("S")).unwrap();
    assert_eq!(
        grammar.build(nonterminal("S")).err(),
        Some(vec![GrammarError::UnreachableRule { symbol: 2 }])
    );
    // A non-terminal that is declared but never used is no error.
    grammar.add_symbol(nonterminal("Unused")).unwrap();
    grammar.add_symbol(terminal("a")).unwrap();
    grammar.add_rule(Rule::new(nonterminal("S"), terminal("a"))).unwrap();
    assert!(grammar.check().is_empty());
    assert!(grammar.build(nonterminal("S")).is_ok());
}

#[test]
fn load_collects_the_errors_of_all_rules() {
    let mut grammar = Grammar::new();
    grammar.add_symbol(nonterminal("S")).unwrap();
    grammar.add_symbol(terminal("a")).unwrap();
    let rules = vec![
        Rule::new(nonterminal("S"), terminal("a")),
        Rule::new(nonterminal("S"), terminal("b")).rhs(terminal("c")),
        Rule::new(nonterminal("T"), nonterminal("S")).rhs(terminal("a")),
        Rule::new(nonterminal("a"), terminal("a")),
        Rule::new(nonterminal("S"), terminal("$")),
    ];
    assert_eq!(
        grammar.load(&rules),
        vec![
            GrammarError::UndefinedSymbol { position: 0 },
            GrammarError::UndefinedSymbol { position: 1 },
            GrammarError::SymbolKindConflict { symbol: 3 },
            GrammarError::ReservedSymbol { symbol: END_OF_INPUT },
        ]
    );
    // The rules that resolve are added.
    assert_eq!(grammar.num_rules(), 3);
    assert_eq!(grammar.production(2).rhs, vec![2, 3]);
}

fn dangling_else() -> Grammar {
    let mut grammar = Grammar::new();
    let s = nonterminal("S");
    for symbol in [s.clone(), terminal("i"), terminal("e"), terminal("a")] {
        grammar.add_symbol(symbol).unwrap();
    }
    let rules = vec![
        Rule::new(s.clone(), terminal("i")).rhs(s.clone()).rhs(terminal("e")).rhs(s.clone()),
        Rule::new(s.clone(), terminal("i")).rhs(s.clone()),
        Rule::new(s.clone(), terminal("a")),
    ];
    assert!(grammar.load(&rules).is_empty());
    grammar
}

#[test]
fn strict_mode_makes_conflicts_errors() {
    let mut grammar = dangling_else();
    let tables = grammar.build_with(nonterminal("S"), Options::new()).unwrap();
    assert_eq!(tables.conflicts.len(), 1);
    let state = tables.conflicts[0].state;
    assert_eq!(
        tables.diagnostics(),
        vec![GrammarError::ShiftReduceConflict { state, terminal: 4 }]
    );
    let strict = Options { strict: true, prefer_reduce: false };
    let result = grammar.build_with(nonterminal("S"), strict);
    assert_eq!(
        result.err(),
        Some(vec![GrammarError::ShiftReduceConflict { state, terminal: 4 }])
    );
}

#[test]
fn reduce_reduce_conflicts_as_diagnostics() {
    let mut grammar = Grammar::new();
    for symbol in [nonterminal("S"), nonterminal("A"), nonterminal("B"), terminal("a")] {
        grammar.add_symbol(symbol).unwrap();
    }
    let rules = vec![
        Rule::new(nonterminal("S"), nonterminal("A")),
        Rule::new(nonterminal("S"), nonterminal("B")),
        Rule::new(nonterminal("A"), terminal("a")),
        Rule::new(nonterminal("B"), terminal("a")),
    ];
    assert!(grammar.load(&rules).is_empty());
    let tables = grammar.build(nonterminal("S")).unwrap();
    let state = tables.conflicts[0].state;
    assert_eq!(
        tables.diagnostics(),
        vec![GrammarError::ReduceReduceConflict { state, terminal: END_OF_INPUT }]
    );
    let strict = Options { strict: true, prefer_reduce: false };
    assert!(grammar.build_with(nonterminal("S"), strict).is_err());
}

#[test]
fn strict_mode_passes_tables_without_conflicts() {
    let mut grammar = Grammar::new();
    grammar.add_symbol(nonterminal("S")).unwrap();
    grammar.add_symbol(terminal("a")).unwrap();
    grammar.add_rule(Rule::new(nonterminal("S"), terminal("a"))).unwrap();
    let strict = Options { strict: true, prefer_reduce: false };
    let tables = grammar.build_with(nonterminal("S"), strict).unwrap();
    assert!(tables.conflicts.is_empty());
    assert!(tables.diagnostics().is_empty());
}

#[test]
fn the_reduction_can_be_preferred_to_the_shift() {
    let mut grammar = dangling_else();
    let default = grammar.build(nonterminal("S")).unwrap();
    let options = Options { strict: false, prefer_reduce: true };
    let tables = grammar.build_with(nonterminal("S"), options).unwrap();
    assert!(tables.prefer_reduce);
    assert!(!default.prefer_reduce);
    assert_eq!(tables.conflicts.len(), 1);
    let conflict = tables.conflicts[0];
    let state = default.conflicts[0].state;
    assert_eq!(conflict.state, state);
    assert_eq!(conflict.terminal, 4);
    // The reduction by S -> i S is kept, and the shift gives way.
    assert_eq!(conflict.kept, Action::Reduce(2));
    assert_eq!(conflict.dropped, default.conflicts[0].kept);
    assert_eq!(tables.actions[state][4], Action::Reduce(2));
    assert_eq!(default.actions[state][4], conflict.dropped);
    assert_eq!(
        tables.diagnostics(),
        vec![GrammarError::ShiftReduceConflict { state, terminal: 4 }]
    );
    // Every other cell is the same.
    for row in 0..tables.actions.len() {
        for symbol in 0..grammar.num_symbols() {
            if (row, symbol) != (state, 4) {
                assert_eq!(tables.actions[row][symbol], default.actions[row][symbol]);
            }
        }
    }
    // The automaton does not depend on the preference.
    assert_eq!(tables.automaton.transitions, default.automaton.transitions);
    let strict = Options { strict: true, prefer_reduce: true };
    assert_eq!(
        grammar.build_with(nonterminal("S"), strict).err(),
        Some(vec![GrammarError::ShiftReduceConflict { state, terminal: 4 }])
    );
}
