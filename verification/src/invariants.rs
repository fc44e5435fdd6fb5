//! What holds of every state and every cell of a canonical collection.

use crate::automaton::{lemma_states_distinct, lists, successor, AutomatonView};
use crate::closure::{
    initial_item,
    lemma_closure_adds_at_start,
    lemma_closure_extensive,
    lemma_goto_total,
};
use crate::first::lemma_first_terminal_only;
use crate::grammar::{GrammarView, RuleId};
use crate::item::Item;
use crate::symbols::{SymbolId, END_OF_INPUT};
use crate::table::{lemma_follows_dot_symbol, lemma_least_reduction_unique, reduction, Action};
use vstd::prelude::*;

verus! {

impl GrammarView {
    /// Every item of `items` belongs to this grammar.
    pub open spec fn items_wf(self, items: Set<Item>) -> bool {
        forall|item: Item| items.contains(item) ==> #[trigger] self.item_wf(item)
    }

    /// The start symbol is chosen: production 0 is `S' -> S`.
    pub open spec fn augmented(self) -> bool {
        self.productions[0].rhs.len() == 1
    }

    /// The completed item of production 0 at the end of input:
    /// `[S' -> S ·, $]` once the start symbol is chosen.
    pub open spec fn accepted_item(self) -> Item {
        Item {
            rule: 0,
            position: self.productions[0].rhs.len() as usize,
            lookahead: END_OF_INPUT,
        }
    }

    /// The cell of state `state` of `automaton` in the column of `symbol`.
    pub open spec fn action(
        self,
        automaton: AutomatonView,
        state: int,
        symbol: SymbolId,
        prefer_reduce: bool,
    ) -> Action {
        self.cell(automaton.states[state], automaton.transitions[state], symbol, prefer_reduce)
    }
}

/// CLOSURE never adds an item of production 0.
pub proof fn lemma_spawn_not_augmented(grammar: GrammarView, parent: Item, child: Item)
    requires
        grammar.wf(),
        grammar.spawns(parent, child),
    ensures
        child.rule != 0,
{
    assert(grammar.production_wf(parent.rule as int));
    assert(grammar.production_wf(child.rule as int));
}

/// An item that CLOSURE adds because of an item of the grammar belongs to
/// the grammar.
pub proof fn lemma_spawn_wf(grammar: GrammarView, parent: Item, child: Item)
    requires
        grammar.wf(),
        grammar.item_wf(parent),
        grammar.spawns(parent, child),
    ensures
        grammar.item_wf(child),
{
    lemma_spawn_not_augmented(grammar, parent, child);
    let rhs = grammar.rhs(parent.rule);
    let from = parent.position + 1;
    if exists|i: int|
        from <= i < rhs.len() && 0 <= i && grammar.span_nullable(rhs, from, i) && grammar.first(
            #[trigger] rhs[i],
            child.lookahead,
        ) {
        let i = choose|i: int|
            from <= i < rhs.len() && 0 <= i && grammar.span_nullable(rhs, from, i) && grammar.first(
                #[trigger] rhs[i],
                child.lookahead,
            );
        lemma_first_terminal_only(grammar, rhs[i], child.lookahead);
    }
}

/// What is reached from items of the grammar belongs to the grammar.
proof fn lemma_closure_within_wf(
    grammar: GrammarView,
    kernel: Set<Item>,
    item: Item,
    steps: nat,
)
    requires
        grammar.wf(),
        grammar.items_wf(kernel),
        grammar.closure_within(kernel, item, steps),
    ensures
        grammar.item_wf(item),
    decreases steps,
{
    if !kernel.contains(item) {
        let parent = choose|parent: Item|
            grammar.closure_within(kernel, parent, (steps - 1) as nat) && #[trigger] grammar.spawns(
                parent,
                item,
            );
        lemma_closure_within_wf(grammar, kernel, parent, (steps - 1) as nat);
        lemma_spawn_wf(grammar, parent, item);
    }
}

/// The closure of items of the grammar holds items of the grammar only.
pub proof fn lemma_closure_wf(grammar: GrammarView, kernel: Set<Item>)
    requires
        grammar.wf(),
        grammar.items_wf(kernel),
    ensures
        grammar.items_wf(grammar.closure(kernel)),
{
    assert forall|item: Item| grammar.closure(kernel).contains(item) implies #[trigger] grammar.item_wf(
        item,
    ) by {
        let steps = choose|steps: nat| grammar.closure_within(kernel, item, steps);
        lemma_closure_within_wf(grammar, kernel, item, steps);
    }
}

/// GOTO of items of the grammar holds items of the grammar only.
pub proof fn lemma_goto_wf(grammar: GrammarView, items: Set<Item>, symbol: SymbolId)
    requires
        grammar.wf(),
        grammar.items_wf(items),
    ensures
        grammar.items_wf(grammar.goto(items, symbol)),
{
    let kernel = grammar.advanced_over(items, symbol);
    assert forall|item: Item| kernel.contains(item) implies #[trigger] grammar.item_wf(item) by {
        assert(grammar.item_wf(item.retreat()));
    }
    lemma_closure_wf(grammar, kernel);
}

/// GOTO never yields the initial item: state 0 is the successor of no
/// state.
pub proof fn lemma_goto_not_initial(grammar: GrammarView, items: Set<Item>, symbol: SymbolId)
    requires
        grammar.wf(),
    ensures
        !grammar.goto(items, symbol).contains(initial_item()),
{
    let kernel = grammar.advanced_over(items, symbol);
    if grammar.closure(kernel).contains(initial_item()) {
        lemma_closure_adds_at_start(grammar, kernel, initial_item());
        let parent = choose|parent: Item|
            grammar.closure(kernel).contains(parent) && #[trigger] grammar.spawns(
                parent,
                initial_item(),
            );
        lemma_spawn_not_augmented(grammar, parent, initial_item());
    }
}

/// Every state of a canonical collection holds items of the grammar only:
/// a production of it, a dot within the right-hand side, a terminal as
/// lookahead.
pub proof fn lemma_state_wf(grammar: GrammarView, automaton: AutomatonView, state: int)
    requires
        grammar.wf(),
        grammar.canonical_collection(automaton),
        0 <= state < automaton.states.len(),
    ensures
        grammar.items_wf(automaton.states[state]),
    decreases state,
{
    if state == 0 {
        assert(grammar.production_wf(0));
        let kernel = set![initial_item()];
        assert(grammar.items_wf(kernel));
        lemma_closure_wf(grammar, kernel);
    } else {
        let origins = choose|origins: Seq<(int, SymbolId)>|
            grammar.numbered_by(automaton.states, origins);
        let origin = origins[state];
        assert(grammar.first_discovery(automaton.states, state, origin));
        lemma_state_wf(grammar, automaton, origin.0);
        lemma_goto_wf(grammar, automaton.states[origin.0], origin.1);
    }
}

/// Every cell of the table is well formed. The column of a terminal holds
/// a shift, a reduction, the acceptance or an error; the column of a
/// non-terminal a goto or an error. A shift or a goto leads to a state of
/// the automaton other than state 0; a reduction is by a production of the
/// caller's own; the acceptance stands in the column of the end of input.
pub proof fn lemma_cell_wf(
    grammar: GrammarView,
    automaton: AutomatonView,
    state: int,
    symbol: SymbolId,
    prefer_reduce: bool,
)
    requires
        grammar.wf(),
        grammar.canonical_collection(automaton),
        0 <= state < automaton.states.len(),
    ensures
        match grammar.action(automaton, state, symbol, prefer_reduce) {
            Action::Error => true,
            Action::Shift(target) => grammar.is_terminal(symbol) && 1 <= target
                < automaton.states.len(),
            Action::Reduce(rule) => grammar.is_terminal(symbol) && 1 <= rule
                < grammar.productions.len(),
            Action::Accept => symbol == END_OF_INPUT,
            Action::Goto(target) => grammar.is_nonterminal(symbol) && 1 <= target
                < automaton.states.len(),
        },
{
    let items = automaton.states[state];
    let row = automaton.transitions[state];
    assert(grammar.row_wf(automaton.states, row, state));
    if grammar.is_terminal(symbol) && (successor(row, symbol) is None || prefer_reduce) && exists|
        rule: RuleId,
    |
        grammar.least_reduction(items, symbol, rule) {
        let rule = choose|rule: RuleId| grammar.least_reduction(items, symbol, rule);
        let item = choose|item: Item|
            items.contains(item) && #[trigger] grammar.reduces_by(item, rule, symbol);
        lemma_state_wf(grammar, automaton, state);
        assert(grammar.item_wf(item));
    } else if lists(row, symbol) {
        let k = choose|k: int| 0 <= k < row.len() && (#[trigger] row[k]).0 == symbol;
        assert(grammar.discovers(automaton.states, state, row[k].0, row[k].1 as int));
        lemma_follows_dot_symbol(grammar, items, symbol);
        let target = successor(row, symbol)->Some_0;
        let chosen = choose|k: int| 0 <= k < row.len() && (#[trigger] row[k]).0 == symbol;
        assert(grammar.discovers(automaton.states, state, row[chosen].0, row[chosen].1 as int));
        if target == 0 {
            lemma_goto_not_initial(grammar, items, symbol);
            lemma_closure_extensive(grammar, set![initial_item()]);
            assert(set![initial_item()].contains(initial_item()));
            assert(automaton.states[0].contains(initial_item()));
        }
    }
}

/// The acceptance occurs in exactly one state, in the column of the end of
/// input: in the successor of state 0 on the start symbol, once the start
/// symbol is chosen.
pub proof fn lemma_accept_unique(
    grammar: GrammarView,
    automaton: AutomatonView,
    prefer_reduce: bool,
) -> (accepting: int)
    requires
        grammar.wf(),
        grammar.canonical_collection(automaton),
    ensures
        0 <= accepting < automaton.states.len(),
        grammar.action(automaton, accepting, END_OF_INPUT, prefer_reduce) == Action::Accept,
        forall|state: int, symbol: SymbolId|
            0 <= state < automaton.states.len() && #[trigger] grammar.action(
                automaton,
                state,
                symbol,
                prefer_reduce,
            ) == Action::Accept ==> state == accepting && symbol == END_OF_INPUT,
{
    let states = automaton.states;
    let accepted = grammar.accepted_item();
    lemma_closure_extensive(grammar, set![initial_item()]);
    assert(set![initial_item()].contains(initial_item()));
    assert(states[0].contains(initial_item()));
    let accepting = if grammar.augmented() {
        // The start symbol follows the dot of the initial item.
        let start = grammar.productions[0].rhs[0];
        assert(grammar.next_symbol(initial_item()) == Some(start));
        assert(grammar.follows_dot(states[0], start));
        let first_row = automaton.transitions[0];
        assert(grammar.row_wf(states, first_row, 0));
        assert(lists(first_row, start));
        let k = choose|k: int| 0 <= k < first_row.len() && (#[trigger] first_row[k]).0 == start;
        assert(grammar.discovers(states, 0, first_row[k].0, first_row[k].1 as int));
        lemma_goto_total(grammar, states[0], initial_item(), start);
        assert(accepted == initial_item().advance());
        first_row[k].1 as int
    } else {
        assert(accepted == initial_item());
        0
    };
    assert(states[accepting].contains(accepted));
    // In that state the end of input is not shifted, and production 0 is
    // the lowest-numbered one that is completed.
    lemma_accepts(grammar, automaton, accepting, prefer_reduce);
    assert forall|state: int, symbol: SymbolId|
        0 <= state < states.len() && #[trigger] grammar.action(
            automaton,
            state,
            symbol,
            prefer_reduce,
        ) == Action::Accept implies state == accepting && symbol == END_OF_INPUT by {
        lemma_cell_wf(grammar, automaton, state, symbol, prefer_reduce);
        lemma_accept_holds_item(grammar, automaton, state, symbol, prefer_reduce);
        assert(states[state].contains(accepted));
        if grammar.augmented() {
            lemma_holds_accepted(grammar, automaton, state);
            lemma_holds_accepted(grammar, automaton, accepting);
        } else if state != 0 {
            let origins = choose|origins: Seq<(int, SymbolId)>|
                grammar.numbered_by(states, origins);
            let origin = origins[state];
            assert(grammar.first_discovery(states, state, origin));
            lemma_goto_not_initial(grammar, states[origin.0], origin.1);
        }
        if state != accepting {
            lemma_states_distinct(grammar, automaton, state, accepting);
        }
    }
    accepting
}

/// A state that holds the completed item of production 0 accepts at the
/// end of input.
proof fn lemma_accepts(
    grammar: GrammarView,
    automaton: AutomatonView,
    state: int,
    prefer_reduce: bool,
)
    requires
        grammar.wf(),
        grammar.canonical_collection(automaton),
        0 <= state < automaton.states.len(),
        automaton.states[state].contains(grammar.accepted_item()),
    ensures
        grammar.action(automaton, state, END_OF_INPUT, prefer_reduce) == Action::Accept,
{
    let items = automaton.states[state];
    let row = automaton.transitions[state];
    assert(grammar.row_wf(automaton.states, row, state));
    if lists(row, END_OF_INPUT) {
        let k = choose|k: int| 0 <= k < row.len() && (#[trigger] row[k]).0 == END_OF_INPUT;
        assert(grammar.discovers(automaton.states, state, row[k].0, row[k].1 as int));
        lemma_follows_dot_symbol(grammar, items, END_OF_INPUT);
    }
    assert(grammar.production_wf(0));
    assert(grammar.reduces_by(grammar.accepted_item(), 0, END_OF_INPUT));
    assert(grammar.least_reduction(items, END_OF_INPUT, 0));
    let rule = choose|rule: RuleId| grammar.least_reduction(items, END_OF_INPUT, rule);
    lemma_least_reduction_unique(grammar, items, END_OF_INPUT, rule, 0);
}

/// A state that accepts holds the completed item of production 0.
proof fn lemma_accept_holds_item(
    grammar: GrammarView,
    automaton: AutomatonView,
    state: int,
    symbol: SymbolId,
    prefer_reduce: bool,
)
    requires
        grammar.wf(),
        grammar.canonical_collection(automaton),
        0 <= state < automaton.states.len(),
        grammar.action(automaton, state, symbol, prefer_reduce) == Action::Accept,
    ensures
        automaton.states[state].contains(grammar.accepted_item()),
{
    let items = automaton.states[state];
    let row = automaton.transitions[state];
    let rule = choose|rule: RuleId| grammar.least_reduction(items, symbol, rule);
    assert(reduction(rule) == Action::Accept);
    let item = choose|item: Item|
        items.contains(item) && #[trigger] grammar.reduces_by(item, rule, symbol);
    lemma_state_wf(grammar, automaton, state);
    assert(grammar.item_wf(item));
    assert(grammar.production_wf(0));
    assert(item == grammar.accepted_item());
}

/// Only the successor of state 0 on the start symbol holds
/// `[S' -> S ·, $]`.
proof fn lemma_holds_accepted(grammar: GrammarView, automaton: AutomatonView, state: int)
    requires
        grammar.wf(),
        grammar.augmented(),
        grammar.canonical_collection(automaton),
        0 <= state < automaton.states.len(),
        automaton.states[state].contains(initial_item().advance()),
    ensures
        automaton.states[state] == grammar.goto(automaton.states[0], grammar.productions[0].rhs[0]),
{
    let states = automaton.states;
    let accepted = initial_item().advance();
    if state == 0 {
        lemma_closure_adds_at_start(grammar, set![initial_item()], accepted);
    } else {
        let origins = choose|origins: Seq<(int, SymbolId)>| grammar.numbered_by(states, origins);
        let origin = origins[state];
        assert(grammar.first_discovery(states, state, origin));
        let kernel = grammar.advanced_over(states[origin.0], origin.1);
        if !kernel.contains(accepted) {
            lemma_closure_adds_at_start(grammar, kernel, accepted);
        }
        assert(accepted.retreat() == initial_item());
        assert(states[origin.0].contains(initial_item()));
        if origin.0 != 0 {
            let earlier = choose|earlier: Seq<(int, SymbolId)>|
                grammar.numbered_by(states, earlier);
            let before = earlier[origin.0];
            assert(grammar.first_discovery(states, origin.0, before));
            lemma_goto_not_initial(grammar, states[before.0], before.1);
        }
    }
}

} // verus!
