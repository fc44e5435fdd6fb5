use lr1gen::closure::{advance_over, get_new_states};
use lr1gen::grammar::{Grammar, Rule};
use lr1gen::item::{Item, ItemSet};
use lr1gen::symbols::{Symbol, END_OF_INPUT};

fn terminal(name: &str) -> Symbol {
    Symbol::Terminal(name.to_string())
}

fn nonterminal(name: &str) -> Symbol {
    Symbol::Nonterminal(name.to_string())
}

fn item(rule: usize, position: usize, lookahead: usize) -> Item {
    Item { rule, position, lookahead }
}

/// E -> E + T | T;  T -> n, with E = 2, T = 3, + = 4, n = 5.
fn arithmetic() -> Grammar {
    let mut grammar = Grammar::new();
    let e = nonterminal("E");
    let t = nonterminal("T");
    for symbol in [e.clone(), t.clone(), terminal("+"), terminal("n")] {
        grammar.add_symbol(symbol).unwrap();
    }
    let rules = vec![
        Rule::new(e.clone(), e.clone()).rhs(terminal("+")).rhs(t.clone()),
        Rule::new(e.clone(), t.clone()),
        Rule::new(t.clone(), terminal("n")),
    ];
    assert!(grammar.load(&rules).is_empty());
    grammar.build(e).unwrap();
    grammar
}

/// S -> A b;  A -> ε | a, with S = 2, A = 3, a = 4, b = 5.
fn with_epsilon() -> Grammar {
    let mut grammar = Grammar::new();
    for symbol in [nonterminal("S"), nonterminal("A"), terminal("a"), terminal("b")] {
        grammar.add_symbol(symbol).unwrap();
    }
    let rules = vec![
        Rule::new(nonterminal("S"), nonterminal("A")).rhs(terminal("b")),
        Rule::empty(nonterminal("A")),
        Rule::new(nonterminal("A"), terminal("a")),
    ];
    assert!(grammar.load(&rules).is_empty());
    grammar.build(nonterminal("S")).unwrap();
    grammar
}

#[test]
fn the_dot_and_the_next_symbol() {
    let grammar = arithmetic();
    let start = item(1, 0, END_OF_INPUT);
    assert!(!start.end(&grammar));
    assert_eq!(start.next_symbol(&grammar), Some(2));
    let moved = start.advanced();
    assert_eq!(moved, item(1, 1, END_OF_INPUT));
    assert_eq!(moved.next_symbol(&grammar), Some(4));
    assert_eq!(moved.advanced().next_symbol(&grammar), Some(3));
    let done = moved.advanced().advanced();
    assert_eq!(done, item(1, 3, END_OF_INPUT));
    assert!(done.end(&grammar));
    assert_eq!(done.next_symbol(&grammar), None);
    // An item of no production has nothing after its dot.
    assert!(item(9, 0, 0).end(&grammar));
    assert_eq!(item(9, 0, 0).next_symbol(&grammar), None);
}

#[test]
fn an_empty_production_is_completed_at_once() {
    let grammar = with_epsilon();
    assert!(item(2, 0, 5).end(&grammar));
    assert_eq!(item(2, 0, 5).next_symbol(&grammar), None);
}

#[test]
fn the_order_of_items() {
    assert!(item(1, 0, 0).precedes(&item(2, 0, 0)));
    assert!(item(1, 0, 9).precedes(&item(1, 1, 0)));
    assert!(item(1, 1, 0).precedes(&item(1, 1, 4)));
    assert!(!item(1, 1, 4).precedes(&item(1, 1, 4)));
    assert!(!item(2, 0, 0).precedes(&item(1, 9, 9)));
}

#[test]
fn lookaheads_of_added_items() {
    let grammar = arithmetic();
    // [S' -> . E, $]: nothing follows E, so the lookahead is `$`.
    assert_eq!(item(0, 0, END_OF_INPUT).lookahead(&grammar), vec![END_OF_INPUT]);
    // [E -> . E + T, $]: `+` follows E.
    assert_eq!(item(1, 0, END_OF_INPUT).lookahead(&grammar), vec![4]);
    // [E -> E + . T, +]: nothing follows T.
    assert_eq!(item(1, 2, 4).lookahead(&grammar), vec![4]);
    // With the dot at the end the lookahead of the item is answered.
    assert_eq!(item(1, 3, 4).lookahead(&grammar), vec![4]);
}

#[test]
fn lookaheads_pass_over_nullable_symbols() {
    // S -> A A c;  A -> ε | a, with S = 2, A = 3, a = 4, c = 5.
    let mut grammar = Grammar::new();
    for symbol in [nonterminal("S"), nonterminal("A"), terminal("a"), terminal("c")] {
        grammar.add_symbol(symbol).unwrap();
    }
    let rules = vec![
        Rule::new(nonterminal("S"), nonterminal("A")).rhs(nonterminal("A")).rhs(terminal("c")),
        Rule::empty(nonterminal("A")),
        Rule::new(nonterminal("A"), terminal("a")),
    ];
    assert!(grammar.load(&rules).is_empty());
    grammar.build(nonterminal("S")).unwrap();
    // [S -> . A A c, $]: FIRST(A c $) = { a, c }.
    assert_eq!(item(1, 0, END_OF_INPUT).lookahead(&grammar), vec![4, 5]);
    // [S -> A . A c, $]: FIRST(c $) = { c }.
    assert_eq!(item(1, 1, END_OF_INPUT).lookahead(&grammar), vec![5]);
    let analysis = grammar.analyze();
    // FIRST(A $) = { $, a }: the lookahead shows through the nullable A.
    let rhs = &grammar.production(1).rhs;
    assert_eq!(analysis.first_of_tail(rhs, 3, END_OF_INPUT), vec![END_OF_INPUT]);
    assert_eq!(
        analysis.first_of_tail(&vec![3], 0, END_OF_INPUT),
        vec![END_OF_INPUT, 4]
    );
}

#[test]
fn nullable_symbols_and_first_sets() {
    let grammar = with_epsilon();
    let analysis = grammar.analyze();
    assert!(analysis.is_nullable(3));
    assert!(!analysis.is_nullable(2));
    assert!(!analysis.is_nullable(4));
    assert!(!analysis.is_nullable(1));
    assert!(!analysis.is_nullable(77));
    assert!(analysis.in_first(4, 4));
    assert!(analysis.in_first(5, 5));
    assert!(!analysis.in_first(4, 5));
    assert!(analysis.in_first(3, 4));
    assert!(!analysis.in_first(3, 5));
    assert!(analysis.in_first(2, 4));
    assert!(analysis.in_first(2, 5));
    // FIRST(S') = FIRST(S).
    assert!(analysis.in_first(1, 4));
    assert!(analysis.in_first(1, 5));
    // A non-terminal is in no FIRST set.
    assert!(!analysis.in_first(2, 3));
    assert!(!analysis.in_first(2, 77));
}

#[test]
fn item_sets_are_kept_in_order() {
    let mut set = ItemSet::new();
    assert_eq!(set.len(), 0);
    assert!(set.insert(item(2, 0, 4)));
    assert!(set.insert(item(1, 1, 0)));
    assert!(set.insert(item(1, 0, 4)));
    assert!(!set.insert(item(1, 1, 0)));
    assert!(set.insert(item(1, 0, 0)));
    assert_eq!(set.len(), 4);
    assert_eq!(
        set.to_vec(),
        vec![item(1, 0, 0), item(1, 0, 4), item(1, 1, 0), item(2, 0, 4)]
    );
    assert_eq!(set.get(2), item(1, 1, 0));
    assert!(set.contains(&item(2, 0, 4)));
    assert!(!set.contains(&item(2, 0, 0)));
    assert!(!set.contains(&item(0, 0, 0)));
    assert!(!set.contains(&item(3, 0, 0)));
}

#[test]
fn equal_sets_are_equal_whatever_the_order_of_insertion() {
    let left = ItemSet::from_vec(&vec![item(3, 0, 1), item(1, 2, 0), item(1, 0, 0)]);
    let right = ItemSet::from_vec(&vec![item(1, 0, 0), item(3, 0, 1), item(1, 2, 0), item(3, 0, 1)]);
    assert!(left.equals(&right));
    assert_eq!(left.to_vec(), right.to_vec());
    let other = ItemSet::from_vec(&vec![item(1, 0, 0), item(3, 0, 1)]);
    assert!(!left.equals(&other));
    assert!(!other.equals(&left));
    let changed = ItemSet::from_vec(&vec![item(3, 0, 1), item(1, 2, 0), item(1, 0, 1)]);
    assert!(!left.equals(&changed));
    assert!(left.duplicate().equals(&left));
    assert!(ItemSet::new().equals(&ItemSet::from_vec(&Vec::new())));
}

#[test]
fn successors_before_closure() {
    let grammar = arithmetic();
    let set = ItemSet::from_vec(&vec![
        item(0, 0, 0),
        item(1, 0, 0),
        item(1, 0, 4),
        item(2, 0, 0),
        item(3, 0, 4),
        item(1, 3, 0),
    ]);
    let successors = get_new_states(&grammar, &set);
    let listed: Vec<(usize, Vec<Item>)> = successors
        .iter()
        .map(|(symbol, kernel)| (*symbol, kernel.to_vec()))
        .collect();
    assert_eq!(
        listed,
        vec![
            (2, vec![item(0, 1, 0), item(1, 1, 0), item(1, 1, 4)]),
            (3, vec![item(2, 1, 0)]),
            (5, vec![item(3, 1, 4)]),
        ]
    );
    assert_eq!(advance_over(&grammar, &set, 4).len(), 0);
    assert_eq!(advance_over(&grammar, &set, 3).to_vec(), vec![item(2, 1, 0)]);
    assert!(get_new_states(&grammar, &ItemSet::new()).is_empty());
}
