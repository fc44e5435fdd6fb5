use lr1gen::error::GrammarError;
use lr1gen::grammar::{Grammar, Rule};
use lr1gen::item::Item;
use lr1gen::symbols::{Symbol, END_OF_INPUT};
use lr1gen::table::{Action, Conflict, Tables};

fn terminal(name: &str) -> Symbol {
    Symbol::Terminal(name.to_string())
}

fn nonterminal(name: &str) -> Symbol {
    Symbol::Nonterminal(name.to_string())
}

fn rule(lhs: &Symbol, rhs: &[&Symbol]) -> Rule {
    let mut rule = Rule::empty(lhs.clone());
    for symbol in rhs {
        rule = rule.rhs((*symbol).clone());
    }
    rule
}

fn item(rule: usize, position: usize, lookahead: usize) -> Item {
    Item { rule, position, lookahead }
}

fn items_of(tables: &Tables, state: usize) -> Vec<Item> {
    tables.automaton.states[state].to_vec()
}

/// The state that holds `wanted`.
fn state_with(tables: &Tables, wanted: Item) -> usize {
    let mut found = None;
    for state in 0..tables.automaton.states.len() {
        if tables.automaton.states[state].contains(&wanted) {
            assert!(found.is_none());
            found = Some(state);
        }
    }
    found.unwrap()
}

#[test]
fn trivial_grammar() {
    // S -> a
    let mut grammar = Grammar::new();
    let s = nonterminal("S");
    let a = terminal("a");
    assert_eq!(grammar.add_symbol(s.clone()), Ok(2));
    assert_eq!(grammar.add_symbol(a.clone()), Ok(3));
    assert_eq!(grammar.add_rule(rule(&s, &[&a])), Ok(1));
    let tables = grammar.build(s).unwrap();

    assert_eq!(tables.automaton.states.len(), 3);
    assert_eq!(items_of(&tables, 0), vec![item(0, 0, 0), item(1, 0, 0)]);
    assert_eq!(items_of(&tables, 1), vec![item(0, 1, 0)]);
    assert_eq!(items_of(&tables, 2), vec![item(1, 1, 0)]);
    assert_eq!(tables.automaton.transitions[0], vec![(2, 1), (3, 2)]);
    assert!(tables.automaton.transitions[1].is_empty());
    assert!(tables.automaton.transitions[2].is_empty());

    assert_eq!(
        tables.actions[0],
        vec![Action::Error, Action::Error, Action::Goto(1), Action::Shift(2)]
    );
    assert_eq!(
        tables.actions[1],
        vec![Action::Accept, Action::Error, Action::Error, Action::Error]
    );
    assert_eq!(
        tables.actions[2],
        vec![Action::Reduce(1), Action::Error, Action::Error, Action::Error]
    );
    assert!(tables.conflicts.is_empty());
}

fn arithmetic() -> (Grammar, Symbol) {
    // E -> E + T | T;  T -> n
    let mut grammar = Grammar::new();
    let e = nonterminal("E");
    let t = nonterminal("T");
    let plus = terminal("+");
    let n = terminal("n");
    assert_eq!(grammar.add_symbol(e.clone()), Ok(2));
    assert_eq!(grammar.add_symbol(t.clone()), Ok(3));
    assert_eq!(grammar.add_symbol(plus.clone()), Ok(4));
    assert_eq!(grammar.add_symbol(n.clone()), Ok(5));
    assert_eq!(grammar.add_rule(rule(&e, &[&e, &plus, &t])), Ok(1));
    assert_eq!(grammar.add_rule(rule(&e, &[&t])), Ok(2));
    assert_eq!(grammar.add_rule(rule(&t, &[&n])), Ok(3));
    (grammar, e)
}

#[test]
fn arithmetic_grammar() {
    let (mut grammar, start) = arithmetic();
    let tables = grammar.build(start).unwrap();
    let (e, t, plus, n) = (2, 3, 4, 5);

    assert_eq!(tables.automaton.states.len(), 6);
    assert!(tables.conflicts.is_empty());
    assert_eq!(
        items_of(&tables, 0),
        vec![
            item(0, 0, END_OF_INPUT),
            item(1, 0, END_OF_INPUT),
            item(1, 0, plus),
            item(2, 0, END_OF_INPUT),
            item(2, 0, plus),
            item(3, 0, END_OF_INPUT),
            item(3, 0, plus),
        ]
    );
    // States are numbered in the order of their discovery.
    assert_eq!(tables.automaton.transitions[0], vec![(e, 1), (t, 2), (n, 3)]);
    assert_eq!(tables.automaton.transitions[1], vec![(plus, 4)]);
    assert_eq!(tables.automaton.transitions[4], vec![(t, 5), (n, 3)]);
    assert_eq!(
        items_of(&tables, 1),
        vec![item(0, 1, END_OF_INPUT), item(1, 1, END_OF_INPUT), item(1, 1, plus)]
    );
    assert_eq!(
        items_of(&tables, 5),
        vec![item(1, 3, END_OF_INPUT), item(1, 3, plus)]
    );

    // After E: accept at the end of input, shift on `+`.
    assert_eq!(tables.actions[1][END_OF_INPUT], Action::Accept);
    assert_eq!(tables.actions[1][plus], Action::Shift(4));
    assert_eq!(tables.actions[1][n], Action::Error);
    // After T and after n: reduce on both lookaheads.
    assert_eq!(tables.actions[2][END_OF_INPUT], Action::Reduce(2));
    assert_eq!(tables.actions[2][plus], Action::Reduce(2));
    assert_eq!(tables.actions[3][END_OF_INPUT], Action::Reduce(3));
    assert_eq!(tables.actions[3][plus], Action::Reduce(3));
    assert_eq!(tables.actions[5][plus], Action::Reduce(1));
    assert_eq!(tables.actions[0][e], Action::Goto(1));
    assert_eq!(tables.actions[0][t], Action::Goto(2));
    assert_eq!(tables.actions[4][t], Action::Goto(5));
    assert_eq!(tables.actions[0][n], Action::Shift(3));
}

#[test]
fn dangling_else_has_one_shift_reduce_conflict() {
    // S -> i S e S | i S | a
    let mut grammar = Grammar::new();
    let s = nonterminal("S");
    let i = terminal("i");
    let e = terminal("e");
    let a = terminal("a");
    grammar.add_symbol(s.clone()).unwrap();
    let i_id = grammar.add_symbol(i.clone()).unwrap();
    let e_id = grammar.add_symbol(e.clone()).unwrap();
    grammar.add_symbol(a.clone()).unwrap();
    assert_eq!(grammar.add_rule(rule(&s, &[&i, &s, &e, &s])), Ok(1));
    assert_eq!(grammar.add_rule(rule(&s, &[&i, &s])), Ok(2));
    assert_eq!(grammar.add_rule(rule(&s, &[&a])), Ok(3));
    let tables = grammar.build(s).unwrap();
    assert_eq!(i_id, 3);

    assert_eq!(tables.conflicts.len(), 1);
    let conflict = tables.conflicts[0];
    assert_eq!(conflict.terminal, e_id);
    assert_eq!(conflict.dropped, Action::Reduce(2));
    assert!(matches!(conflict.kept, Action::Shift(_)));
    // The state holds [S -> i S . e S, e] and [S -> i S ., e].
    let state = &tables.automaton.states[conflict.state];
    assert!(state.contains(&item(1, 2, e_id)));
    assert!(state.contains(&item(2, 2, e_id)));
    // The default resolution is the shift.
    assert_eq!(tables.actions[conflict.state][e_id], conflict.kept);
}

#[test]
fn reduce_reduce_conflict() {
    // S -> A | B;  A -> a;  B -> a
    let mut grammar = Grammar::new();
    let s = nonterminal("S");
    let a_nt = nonterminal("A");
    let b_nt = nonterminal("B");
    let a = terminal("a");
    grammar.add_symbol(s.clone()).unwrap();
    grammar.add_symbol(a_nt.clone()).unwrap();
    grammar.add_symbol(b_nt.clone()).unwrap();
    grammar.add_symbol(a.clone()).unwrap();
    assert_eq!(grammar.add_rule(rule(&s, &[&a_nt])), Ok(1));
    assert_eq!(grammar.add_rule(rule(&s, &[&b_nt])), Ok(2));
    assert_eq!(grammar.add_rule(rule(&a_nt, &[&a])), Ok(3));
    assert_eq!(grammar.add_rule(rule(&b_nt, &[&a])), Ok(4));
    let tables = grammar.build(s).unwrap();

    let state = state_with(&tables, item(3, 1, END_OF_INPUT));
    assert!(tables.automaton.states[state].contains(&item(4, 1, END_OF_INPUT)));
    assert_eq!(
        tables.conflicts,
        vec![Conflict {
            state,
            terminal: END_OF_INPUT,
            kept: Action::Reduce(3),
            dropped: Action::Reduce(4),
        }]
    );
    // The lower-numbered production is kept.
    assert_eq!(tables.actions[state][END_OF_INPUT], Action::Reduce(3));
}

#[test]
fn epsilon_production() {
    // S -> A b;  A -> ε | a
    let mut grammar = Grammar::new();
    let s = nonterminal("S");
    let a_nt = nonterminal("A");
    let a = terminal("a");
    let b = terminal("b");
    grammar.add_symbol(s.clone()).unwrap();
    let a_nt_id = grammar.add_symbol(a_nt.clone()).unwrap();
    let a_id = grammar.add_symbol(a.clone()).unwrap();
    let b_id = grammar.add_symbol(b.clone()).unwrap();
    assert_eq!(grammar.add_rule(rule(&s, &[&a_nt, &b])), Ok(1));
    assert_eq!(grammar.add_rule(Rule::empty(a_nt.clone())), Ok(2));
    assert_eq!(grammar.add_rule(rule(&a_nt, &[&a])), Ok(3));
    let tables = grammar.build(s).unwrap();

    let analysis = grammar.analyze();
    assert!(analysis.is_nullable(a_nt_id));
    assert!(!analysis.is_nullable(2));
    assert!(analysis.in_first(a_nt_id, a_id));
    assert!(!analysis.in_first(a_nt_id, b_id));
    // S begins with `a`, and with `b` because A derives the empty string.
    assert!(analysis.in_first(2, a_id));
    assert!(analysis.in_first(2, b_id));
    assert!(!analysis.in_first(2, END_OF_INPUT));

    // The items of A in state 0 look ahead to `b`; those of S to `$`.
    assert_eq!(
        items_of(&tables, 0),
        vec![
            item(0, 0, END_OF_INPUT),
            item(1, 0, END_OF_INPUT),
            item(2, 0, b_id),
            item(3, 0, b_id),
        ]
    );
    assert_eq!(tables.actions[0][b_id], Action::Reduce(2));
    assert_eq!(tables.actions[0][a_id], Action::Shift(3));
    assert_eq!(tables.actions[0][END_OF_INPUT], Action::Error);
    assert!(tables.conflicts.is_empty());
}

#[test]
fn building_twice_gives_the_same_tables() {
    let (mut first, start) = arithmetic();
    let (mut second, _) = arithmetic();
    let left = first.build(start.clone()).unwrap();
    let right = second.build(start.clone()).unwrap();
    assert_eq!(left.automaton.states.len(), right.automaton.states.len());
    for state in 0..left.automaton.states.len() {
        assert_eq!(items_of(&left, state), items_of(&right, state));
    }
    assert_eq!(left.automaton.transitions, right.automaton.transitions);
    assert_eq!(left.actions, right.actions);
    assert_eq!(left.conflicts, right.conflicts);
    // Building again on the same grammar changes nothing either.
    let again = first.build(start).unwrap();
    assert_eq!(again.actions, left.actions);
}

#[test]
fn reordered_alternatives_only_renumber_productions() {
    // The symbols are declared in the same order; the alternatives of E
    // are written in the other order.
    let (mut grammar, start) = arithmetic();
    let mut permuted = Grammar::new();
    let e = nonterminal("E");
    let t = nonterminal("T");
    let plus = terminal("+");
    let n = terminal("n");
    permuted.add_symbol(e.clone()).unwrap();
    permuted.add_symbol(t.clone()).unwrap();
    permuted.add_symbol(plus.clone()).unwrap();
    permuted.add_symbol(n.clone()).unwrap();
    assert_eq!(permuted.add_rule(rule(&e, &[&t])), Ok(1));
    assert_eq!(permuted.add_rule(rule(&e, &[&e, &plus, &t])), Ok(2));
    assert_eq!(permuted.add_rule(rule(&t, &[&n])), Ok(3));

    let left = grammar.build(start.clone()).unwrap();
    let right = permuted.build(start).unwrap();
    let renumber = |production: usize| match production {
        1 => 2,
        2 => 1,
        other => other,
    };
    assert_eq!(left.automaton.states.len(), right.automaton.states.len());
    assert_eq!(left.automaton.transitions, right.automaton.transitions);
    for state in 0..left.automaton.states.len() {
        let mut renumbered: Vec<Item> = items_of(&left, state)
            .iter()
            .map(|it| item(renumber(it.rule), it.position, it.lookahead))
            .collect();
        renumbered.sort_by_key(|it| (it.rule, it.position, it.lookahead));
        assert_eq!(renumbered, items_of(&right, state));
        let row: Vec<Action> = left.actions[state]
            .iter()
            .map(|action| match action {
                Action::Reduce(production) => Action::Reduce(renumber(*production)),
                other => *other,
            })
            .collect();
        assert_eq!(row, right.actions[state]);
    }
}

#[test]
fn undefined_start_symbol() {
    let (mut grammar, _) = arithmetic();
    let result = grammar.build(nonterminal("Z"));
    assert_eq!(result.err(), Some(vec![GrammarError::UndefinedSymbol { position: 0 }]));
}

#[test]
fn nonterminal_without_production() {
    // S -> A B;  neither A nor B heads a production.
    let mut grammar = Grammar::new();
    let s = nonterminal("S");
    let a = nonterminal("A");
    let b = nonterminal("B");
    grammar.add_symbol(s.clone()).unwrap();
    grammar.add_symbol(a.clone()).unwrap();
    grammar.add_symbol(b.clone()).unwrap();
    assert_eq!(grammar.add_rule(rule(&s, &[&a, &b])), Ok(1));
    let result = grammar.build(s);
    assert_eq!(
        result.err(),
        Some(vec![
            GrammarError::UnreachableRule { symbol: 3 },
            GrammarError::UnreachableRule { symbol: 4 },
        ])
    );
}
