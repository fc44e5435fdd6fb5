use lr1gen::grammar::{Grammar, Rule};
use lr1gen::item::Item;
use lr1gen::render::{decimal_text, render_actions, render_states};
use lr1gen::symbols::Symbol;
use lr1gen::table::Action;

fn terminal(name: &str) -> Symbol {
    Symbol::Terminal(name.to_string())
}

fn nonterminal(name: &str) -> Symbol {
    Symbol::Nonterminal(name.to_string())
}

fn arithmetic() -> Grammar {
    let mut grammar = Grammar::new();
    let e = nonterminal("E");
    let t = nonterminal("T");
    for symbol in [e.clone(), t.clone(), terminal("plus"), terminal("number")] {
        grammar.add_symbol(symbol).unwrap();
    }
    grammar
        .add_rule(
            Rule::new(e.clone(), e.clone())
                .rhs(terminal("plus"))
                .rhs(t.clone()),
        )
        .unwrap();
    grammar.add_rule(Rule::new(e.clone(), t.clone())).unwrap();
    grammar.add_rule(Rule::new(t, terminal("number"))).unwrap();
    grammar
}

#[test]
fn decimal_digits() {
    assert_eq!(decimal_text(0), "0");
    assert_eq!(decimal_text(7), "7");
    assert_eq!(decimal_text(10), "10");
    assert_eq!(decimal_text(120), "120");
    assert_eq!(decimal_text(9876543210), "9876543210");
    assert_eq!(decimal_text(usize::MAX), usize::MAX.to_string());
}

#[test]
fn items_as_text() {
    let mut grammar = arithmetic();
    grammar.build(nonterminal("E")).unwrap();
    let item = |rule, position, lookahead| Item { rule, position, lookahead };
    assert_eq!(item(0, 0, 0).render(&grammar), "[S' -> \u{b7} E, $]");
    assert_eq!(item(0, 1, 0).render(&grammar), "[S' -> E \u{b7}, $]");
    assert_eq!(item(1, 1, 4).render(&grammar), "[E -> E \u{b7} plus T, plus]");
    assert_eq!(item(1, 3, 0).render(&grammar), "[E -> E plus T \u{b7}, $]");
    assert_eq!(item(3, 0, 4).render(&grammar), "[T -> \u{b7} number, plus]");
}

#[test]
fn empty_production_as_text() {
    let mut grammar = Grammar::new();
    grammar.add_symbol(nonterminal("A")).unwrap();
    grammar.add_rule(Rule::empty(nonterminal("A"))).unwrap();
    let item = Item { rule: 1, position: 0, lookahead: 0 };
    assert_eq!(item.render(&grammar), "[A -> \u{b7}, $]");
}

#[test]
fn actions_as_text() {
    let mut grammar = arithmetic();
    grammar.build(nonterminal("E")).unwrap();
    assert_eq!(Action::Shift(4).render(&grammar, "plus"), "shift(plus, 4)");
    assert_eq!(Action::Goto(12).render(&grammar, "E"), "goto(E, 12)");
    // Production 1 is E -> E plus T: three symbols, headed by symbol 2.
    assert_eq!(Action::Reduce(1).render(&grammar, "$"), "reduce($, 3, 2)");
    assert_eq!(Action::Reduce(3).render(&grammar, "plus"), "reduce(plus, 1, 3)");
    assert_eq!(Action::Accept.render(&grammar, "$"), "accept($)");
    assert_eq!(Action::Error.render(&grammar, "number"), "error(number)");
}

#[test]
fn rows_as_text() {
    let mut grammar = arithmetic();
    let tables = grammar.build(nonterminal("E")).unwrap();
    assert_eq!(
        render_actions(&tables.actions[0], &grammar),
        vec!["goto(E, 1)", "goto(T, 2)", "shift(number, 3)"]
    );
    assert_eq!(
        render_actions(&tables.actions[1], &grammar),
        vec!["accept($)", "shift(plus, 4)"]
    );
    assert_eq!(
        render_actions(&tables.actions[5], &grammar),
        vec!["reduce($, 3, 2)", "reduce(plus, 3, 2)"]
    );
}

#[test]
fn states_as_text() {
    let mut grammar = Grammar::new();
    grammar.add_symbol(nonterminal("S")).unwrap();
    grammar.add_symbol(terminal("a")).unwrap();
    grammar
        .add_rule(Rule::new(nonterminal("S"), terminal("a")))
        .unwrap();
    let tables = grammar.build(nonterminal("S")).unwrap();
    assert_eq!(
        render_states(&tables, &grammar),
        vec![
            "",
            "0",
            "--- items ---",
            "[S' -> \u{b7} S, $]",
            "[S -> \u{b7} a, $]",
            "--- actions ---",
            "goto(S, 1)",
            "shift(a, 2)",
            "",
            "1",
            "--- items ---",
            "[S' -> S \u{b7}, $]",
            "--- actions ---",
            "accept($)",
            "",
            "2",
            "--- items ---",
            "[S -> a \u{b7}, $]",
            "--- actions ---",
            "reduce($, 1, 2)",
        ]
    );
}
