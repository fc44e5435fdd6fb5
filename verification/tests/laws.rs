use lr1gen::grammar::{Grammar, Rule};
use lr1gen::item::{Item, ItemSet};
use lr1gen::symbols::{Symbol, END_OF_INPUT};
use lr1gen::table::{Action, Tables};

fn terminal(name: &str) -> Symbol {
    Symbol::Terminal(name.to_string())
}

fn nonterminal(name: &str) -> Symbol {
    Symbol::Nonterminal(name.to_string())
}

fn item(rule: usize, position: usize, lookahead: usize) -> Item {
    Item { rule, position, lookahead }
}

/// E -> E + T | T;  T -> T * F | F;  F -> ( E ) | n
fn expressions() -> (Grammar, Tables) {
    let mut grammar = Grammar::new();
    let e = nonterminal("E");
    let t = nonterminal("T");
    let f = nonterminal("F");
    for symbol in [
        e.clone(),
        t.clone(),
        f.clone(),
        terminal("+"),
        terminal("*"),
        terminal("("),
        terminal(")"),
        terminal("n"),
    ] {
        grammar.add_symbol(symbol).unwrap();
    }
    let rules = vec![
        Rule::new(e.clone(), e.clone()).rhs(terminal("+")).rhs(t.clone()),
        Rule::new(e.clone(), t.clone()),
        Rule::new(t.clone(), t.clone()).rhs(terminal("*")).rhs(f.clone()),
        Rule::new(t.clone(), f.clone()),
        Rule::new(f.clone(), terminal("(")).rhs(e.clone()).rhs(terminal(")")),
        Rule::new(f.clone(), terminal("n")),
    ];
    assert!(grammar.load(&rules).is_empty());
    let tables = grammar.build(e).unwrap();
    (grammar, tables)
}

fn is_subset(left: &ItemSet, right: &ItemSet) -> bool {
    left.to_vec().iter().all(|item| right.contains(item))
}

#[test]
fn closing_a_closure_adds_nothing() {
    let (grammar, _) = expressions();
    let kernels = vec![
        vec![item(0, 0, END_OF_INPUT)],
        vec![item(1, 2, 5), item(5, 1, 8)],
        vec![item(5, 1, 8)],
        vec![item(6, 1, 5)],
        vec![],
    ];
    for kernel in kernels {
        let once = grammar.closure(ItemSet::from_vec(&kernel));
        let twice = grammar.closure(once.duplicate());
        assert!(once.equals(&twice));
        assert_eq!(once.to_vec(), twice.to_vec());
    }
}

#[test]
fn closure_of_the_initial_item() {
    let (grammar, tables) = expressions();
    let closed = grammar.closure(ItemSet::from_vec(&vec![item(0, 0, END_OF_INPUT)]));
    assert!(closed.equals(&tables.automaton.states[0]));
    // Every production but production 0 is added with each of `$`, `+`
    // and `*`; the items of E do not look ahead to `*`.
    let mut expected = vec![item(0, 0, 0)];
    for rule in 1..=2 {
        expected.push(item(rule, 0, 0));
        expected.push(item(rule, 0, 5));
    }
    for rule in 3..=6 {
        expected.push(item(rule, 0, 0));
        expected.push(item(rule, 0, 5));
        expected.push(item(rule, 0, 6));
    }
    assert_eq!(closed.to_vec(), expected);
}

#[test]
fn a_larger_set_has_a_larger_closure() {
    let (grammar, _) = expressions();
    let smaller = vec![item(5, 1, 8)];
    let larger = vec![item(5, 1, 8), item(1, 2, 5), item(3, 2, 0)];
    let small = grammar.closure(ItemSet::from_vec(&smaller));
    let large = grammar.closure(ItemSet::from_vec(&larger));
    assert!(is_subset(&small, &large));
    assert!(!is_subset(&large, &small));
    // A closure holds its argument.
    assert!(is_subset(&ItemSet::from_vec(&larger), &large));
}

#[test]
fn goto_on_a_symbol_after_a_dot_is_not_empty_and_closed() {
    let (grammar, tables) = expressions();
    for state in &tables.automaton.states {
        for from in state.to_vec() {
            if let Some(symbol) = from.next_symbol(&grammar) {
                let successor = grammar.goto(state, symbol);
                assert!(successor.len() > 0);
                assert!(successor.contains(&from.advanced()));
                let again = grammar.closure(successor.duplicate());
                assert!(again.equals(&successor));
            }
        }
    }
}

#[test]
fn goto_on_a_symbol_after_no_dot_is_empty() {
    let (grammar, tables) = expressions();
    // In state 0 no dot stands before `+`, `*` or `)`.
    for symbol in [0, 1, 5, 6, 8, 42] {
        assert_eq!(grammar.goto(&tables.automaton.states[0], symbol).len(), 0);
    }
    assert_eq!(grammar.goto(&ItemSet::new(), 2).len(), 0);
}

#[test]
fn no_two_states_hold_the_same_items() {
    let (_, tables) = expressions();
    let states = &tables.automaton.states;
    assert_eq!(states.len(), 22);
    for i in 0..states.len() {
        for j in 0..states.len() {
            assert_eq!(states[i].equals(&states[j]), i == j);
        }
    }
}

#[test]
fn transitions_lead_to_the_goto_of_the_state() {
    let (grammar, tables) = expressions();
    let states = &tables.automaton.states;
    for (from, row) in tables.automaton.transitions.iter().enumerate() {
        for window in row.windows(2) {
            assert!(window[0].0 < window[1].0);
        }
        for (symbol, target) in row {
            assert!(grammar.goto(&states[from], *symbol).equals(&states[*target]));
        }
        for symbol in 0..grammar.num_symbols() {
            let listed = row.iter().any(|(listed, _)| *listed == symbol);
            assert_eq!(listed, grammar.goto(&states[from], symbol).len() > 0);
        }
    }
}

#[test]
fn every_state_is_reached_from_state_0() {
    let (_, tables) = expressions();
    let count = tables.automaton.states.len();
    let mut reached = vec![false; count];
    let mut pending = vec![0];
    reached[0] = true;
    while let Some(state) = pending.pop() {
        for (_, target) in &tables.automaton.transitions[state] {
            if !reached[*target] {
                reached[*target] = true;
                pending.push(*target);
            }
        }
    }
    assert!(reached.iter().all(|reached| *reached));
    // Every state but state 0 is first entered from an earlier state.
    for target in 1..count {
        assert!((0..target).any(|from| tables.automaton.transitions[from]
            .iter()
            .any(|(_, to)| *to == target)));
    }
}

#[test]
fn one_state_accepts_and_only_at_the_end_of_input() {
    let (grammar, tables) = expressions();
    let mut accepting = Vec::new();
    for (state, row) in tables.actions.iter().enumerate() {
        assert_eq!(row.len(), grammar.num_symbols());
        for (symbol, action) in row.iter().enumerate() {
            match action {
                Action::Accept => {
                    assert_eq!(symbol, END_OF_INPUT);
                    accepting.push(state);
                }
                Action::Shift(target) => {
                    assert!(grammar.is_terminal(symbol));
                    assert!(1 <= *target && *target < tables.actions.len());
                }
                Action::Goto(target) => {
                    assert!(grammar.is_nonterminal(symbol));
                    assert!(1 <= *target && *target < tables.actions.len());
                }
                Action::Reduce(rule) => {
                    assert!(grammar.is_terminal(symbol));
                    assert!(1 <= *rule && *rule < grammar.num_rules());
                }
                Action::Error => {}
            }
        }
    }
    // The accepting state is the successor of state 0 on the start symbol.
    assert_eq!(accepting, vec![1]);
    assert_eq!(tables.automaton.transitions[0][0], (2, 1));
    assert!(tables.conflicts.is_empty());
}

#[test]
fn a_cycle_of_unit_productions_keeps_the_acceptance() {
    // S -> A;  A -> S | a.  In the state after S both [S' -> S ., $] and
    // [A -> S ., $] are completed: production 0 is kept.
    let mut grammar = Grammar::new();
    for symbol in [nonterminal("S"), nonterminal("A"), terminal("a")] {
        grammar.add_symbol(symbol).unwrap();
    }
    let rules = vec![
        Rule::new(nonterminal("S"), nonterminal("A")),
        Rule::new(nonterminal("A"), nonterminal("S")),
        Rule::new(nonterminal("A"), terminal("a")),
    ];
    assert!(grammar.load(&rules).is_empty());
    let tables = grammar.build(nonterminal("S")).unwrap();
    assert_eq!(
        tables.automaton.states[1].to_vec(),
        vec![item(0, 1, END_OF_INPUT), item(2, 1, END_OF_INPUT)]
    );
    assert_eq!(tables.actions[1][END_OF_INPUT], Action::Accept);
    assert_eq!(tables.conflicts.len(), 1);
    assert_eq!(tables.conflicts[0].kept, Action::Accept);
    assert_eq!(tables.conflicts[0].dropped, Action::Reduce(2));
}
