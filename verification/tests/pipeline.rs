use lr1gen::error::GrammarError;
use lr1gen::grammar::{Grammar, Rule};
use lr1gen::item::{Item, ItemSet};
use lr1gen::symbols::{Symbol, Symbols, END_OF_INPUT};
use lr1gen::table::{Action, Conflict};

fn terminal(name: &str) -> Symbol {
    Symbol::Terminal(name.to_string())
}

fn nonterminal(name: &str) -> Symbol {
    Symbol::Nonterminal(name.to_string())
}

fn item(rule: usize, position: usize, lookahead: usize) -> Item {
    Item { rule, position, lookahead }
}

/// S -> a S | b, with S = 2, a = 3, b = 4.
fn right_recursive() -> Grammar {
    let mut grammar = Grammar::new();
    for symbol in [nonterminal("S"), terminal("a"), terminal("b")] {
        grammar.add_symbol(symbol).unwrap();
    }
    let rules = vec![
        Rule::new(nonterminal("S"), terminal("a")).rhs(nonterminal("S")),
        Rule::new(nonterminal("S"), terminal("b")),
    ];
    assert!(grammar.load(&rules).is_empty());
    grammar
}

#[test]
fn the_steps_of_the_generator() {
    let mut grammar = right_recursive();
    grammar.set_start(2);
    assert_eq!(grammar.production(0).rhs, vec![2]);
    assert!(grammar.check().is_empty());
    let analysis = grammar.analyze();
    let automaton = grammar.automaton(&analysis);
    assert_eq!(automaton.states.len(), 5);
    assert_eq!(
        automaton.states[0].to_vec(),
        vec![item(0, 0, 0), item(1, 0, 0), item(2, 0, 0)]
    );
    // The state after `a` leads to itself on `a`.
    assert_eq!(automaton.transitions[0], vec![(2, 1), (3, 2), (4, 3)]);
    assert_eq!(automaton.transitions[2], vec![(2, 4), (3, 2), (4, 3)]);
    let tables = grammar.emit(automaton, false);
    let built = right_recursive().build(nonterminal("S")).unwrap();
    assert_eq!(tables.actions, built.actions);
    assert_eq!(tables.automaton.transitions, built.automaton.transitions);
    assert_eq!(tables.actions[4][END_OF_INPUT], Action::Reduce(1));
    assert_eq!(tables.actions[3][END_OF_INPUT], Action::Reduce(2));
    assert_eq!(tables.actions[2][3], Action::Shift(2));
}

#[test]
fn closure_with_the_tables_of_an_analysis() {
    let mut grammar = right_recursive();
    grammar.set_start(2);
    let analysis = grammar.analyze();
    let kernel = ItemSet::from_vec(&vec![item(1, 1, 0)]);
    let closed = grammar.closure_with(&analysis, kernel.duplicate());
    assert_eq!(
        closed.to_vec(),
        vec![item(1, 0, 0), item(1, 1, 0), item(2, 0, 0)]
    );
    assert!(closed.equals(&grammar.closure(kernel)));
}

#[test]
fn a_row_with_both_kinds_of_conflict() {
    let mut grammar = right_recursive();
    grammar.set_start(2);
    // [S -> a S ., b], [S -> b ., b] and [S -> b ., $] are completed; the
    // row also shifts `b`.
    let items = ItemSet::from_vec(&vec![item(2, 1, 4), item(1, 2, 4), item(2, 1, 0), item(1, 2, 0)]);
    let mut conflicts = Vec::new();
    let transitions = vec![(2, 7), (4, 9)];
    let row = grammar.emit_row(&items, &transitions, 6, false, &mut conflicts);
    assert_eq!(
        row,
        vec![Action::Reduce(1), Action::Error, Action::Goto(7), Action::Error, Action::Shift(9)]
    );
    assert_eq!(
        conflicts,
        vec![
            Conflict { state: 6, terminal: 4, kept: Action::Shift(9), dropped: Action::Reduce(1) },
            Conflict { state: 6, terminal: 0, kept: Action::Reduce(1), dropped: Action::Reduce(2) },
            Conflict { state: 6, terminal: 4, kept: Action::Shift(9), dropped: Action::Reduce(2) },
        ]
    );

    // With the reduction preferred the lower-numbered production takes the
    // cell of `b`, and both the shift and the other reduction give way.
    let mut conflicts = Vec::new();
    let row = grammar.emit_row(&items, &transitions, 6, true, &mut conflicts);
    assert_eq!(
        row,
        vec![Action::Reduce(1), Action::Error, Action::Goto(7), Action::Error, Action::Reduce(1)]
    );
    assert_eq!(
        conflicts,
        vec![
            Conflict { state: 6, terminal: 4, kept: Action::Reduce(1), dropped: Action::Shift(9) },
            Conflict { state: 6, terminal: 0, kept: Action::Reduce(1), dropped: Action::Reduce(2) },
            Conflict { state: 6, terminal: 4, kept: Action::Reduce(1), dropped: Action::Reduce(2) },
        ]
    );
}

#[test]
fn symbols_are_found_by_name() {
    let mut symbols = Symbols::new();
    symbols.add_symbol(terminal("x")).unwrap();
    assert_eq!(symbols.find(&"x".to_string()), Some(2));
    assert_eq!(symbols.find(&"$".to_string()), Some(0));
    assert_eq!(symbols.find(&"S'".to_string()), Some(1));
    assert_eq!(symbols.find(&"y".to_string()), None);
    let copy = terminal("x").duplicate();
    assert_eq!(copy, terminal("x"));
    assert_eq!(copy.name(), "x");
}

#[test]
fn symbols_of_a_right_hand_side_resolve() {
    let grammar = right_recursive();
    assert_eq!(grammar.resolve_symbol(&terminal("a"), 3), Ok(3));
    assert_eq!(grammar.resolve_symbol(&nonterminal("S"), 0), Ok(2));
    assert_eq!(
        grammar.resolve_symbol(&terminal("z"), 3),
        Err(GrammarError::UndefinedSymbol { position: 3 })
    );
    assert_eq!(
        grammar.resolve_symbol(&nonterminal("a"), 0),
        Err(GrammarError::SymbolKindConflict { symbol: 3 })
    );
    assert_eq!(
        grammar.resolve_symbol(&terminal("$"), 0),
        Err(GrammarError::ReservedSymbol { symbol: 0 })
    );
    assert_eq!(grammar.rules_of(2), &vec![1, 2]);
    assert!(grammar.rules_of(3).is_empty());
}
