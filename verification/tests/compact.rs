use lr1gen::compact::{Compact, FREE};
use lr1gen::grammar::{Grammar, Rule};
use lr1gen::symbols::Symbol;
use lr1gen::table::{Action, Tables};

fn terminal(name: &str) -> Symbol {
    Symbol::Terminal(name.to_string())
}

fn nonterminal(name: &str) -> Symbol {
    Symbol::Nonterminal(name.to_string())
}

fn trivial() -> (Grammar, Tables) {
    let mut grammar = Grammar::new();
    grammar.add_symbol(nonterminal("S")).unwrap();
    grammar.add_symbol(terminal("a")).unwrap();
    grammar
        .add_rule(Rule::new(nonterminal("S"), terminal("a")))
        .unwrap();
    let tables = grammar.build(nonterminal("S")).unwrap();
    (grammar, tables)
}

fn dangling_else() -> (Grammar, Tables) {
    let mut grammar = Grammar::new();
    let s = nonterminal("S");
    for symbol in [s.clone(), terminal("i"), terminal("e"), terminal("a")] {
        grammar.add_symbol(symbol).unwrap();
    }
    grammar
        .add_rule(
            Rule::new(s.clone(), terminal("i"))
                .rhs(s.clone())
                .rhs(terminal("e"))
                .rhs(s.clone()),
        )
        .unwrap();
    grammar
        .add_rule(Rule::new(s.clone(), terminal("i")).rhs(s.clone()))
        .unwrap();
    grammar.add_rule(Rule::new(s.clone(), terminal("a"))).unwrap();
    let tables = grammar.build(s).unwrap();
    (grammar, tables)
}

fn assert_round_trip(grammar: &Grammar, tables: &Tables, compact: &Compact) {
    for state in 0..tables.actions.len() {
        for symbol in 0..grammar.num_symbols() {
            assert_eq!(
                compact.lookup(grammar, state, symbol),
                tables.actions[state][symbol],
                "state {state}, symbol {symbol}"
            );
        }
    }
}

#[test]
fn compacted_trivial_grammar() {
    let (grammar, tables) = trivial();
    let compact = grammar.compact(&tables);
    // Production 0 is S' -> S, production 1 is S -> a.
    assert_eq!(compact.yyr1, vec![1, 2]);
    assert_eq!(compact.yyr2, vec![1, 1]);
    // Row 0 holds goto 1 in column 2 and shift 2 in column 3; row 1, the
    // acceptance in column 0, is laid at offset 0; row 2, a reduction in
    // column 0, at offset 1.
    assert_eq!(compact.base, vec![0, 0, 1]);
    assert_eq!(compact.yytable, vec![0, -1, 1, 2, 0]);
    assert_eq!(compact.yycheck, vec![1, 2, 0, 0, FREE]);
    assert_round_trip(&grammar, &tables, &compact);
}

#[test]
fn compaction_round_trips() {
    let (grammar, tables) = dangling_else();
    let compact = grammar.compact(&tables);
    assert_eq!(compact.base.len(), tables.actions.len());
    assert_eq!(compact.yytable.len(), compact.yycheck.len());
    assert_round_trip(&grammar, &tables, &compact);
    // The rows overlap: the arrays are shorter than the dense table.
    assert!(compact.yytable.len() < tables.actions.len() * grammar.num_symbols());
}

#[test]
fn lookup_outside_the_tables_is_an_error() {
    let (grammar, tables) = trivial();
    let compact = grammar.compact(&tables);
    assert_eq!(compact.lookup(&grammar, 3, 0), Action::Error);
    assert_eq!(compact.lookup(&grammar, 0, 4), Action::Error);
    assert_eq!(compact.lookup(&grammar, 0, usize::MAX), Action::Error);
    assert_eq!(compact.lookup(&grammar, usize::MAX, 0), Action::Error);
}

#[test]
fn lookup_tells_shift_from_goto_by_the_column() {
    let (grammar, tables) = trivial();
    let compact = grammar.compact(&tables);
    assert_eq!(compact.lookup(&grammar, 0, 2), Action::Goto(1));
    assert_eq!(compact.lookup(&grammar, 0, 3), Action::Shift(2));
    assert_eq!(compact.lookup(&grammar, 1, 0), Action::Accept);
    assert_eq!(compact.lookup(&grammar, 2, 0), Action::Reduce(1));
}
