//! The state builder: the canonical collection of LR(1) item sets and the
//! transitions between them.

use crate::bounds::{
    lemma_all_items_finite,
    lemma_distinct_sets_bounded,
    lemma_items_within,
    subsets,
};
use crate::closure::{get_new_states, initial_item};
use crate::first::Analysis;
use crate::grammar::{Grammar, GrammarView};
use crate::invariants::{lemma_closure_wf, lemma_goto_wf};
use crate::item::{Item, ItemSet};
use crate::symbols::SymbolId;
use vstd::prelude::*;

verus! {

/// The LR(1) automaton. State `i` has the item set `states[i]`; its
/// transitions, `transitions[i]`, pair each symbol that stands after a dot
/// of the state with the index of the successor state.
pub struct Automaton {
    pub states: Vec<ItemSet>,
    pub transitions: Vec<Vec<(SymbolId, usize)>>,
}

/// The mathematical value of an [`Automaton`].
pub struct AutomatonView {
    pub states: Seq<Set<Item>>,
    pub transitions: Seq<Seq<(SymbolId, usize)>>,
}

impl View for Automaton {
    type V = AutomatonView;

    open spec fn view(&self) -> AutomatonView {
        AutomatonView {
            states: self.states@.map_values(|set: ItemSet| set@),
            transitions: self.transitions@.map_values(|row: Vec<(SymbolId, usize)>| row@),
        }
    }
}

impl Automaton {
    /// Every item set is kept in the order of items.
    pub open spec fn wf(&self) -> bool {
        forall|i: int| 0 <= i < self.states@.len() ==> (#[trigger] self.states@[i]).wf()
    }
}

/// The order in which pairs of a state and a symbol are visited: by state,
/// then by symbol.
pub open spec fn visited_before(left: (int, SymbolId), right: (int, SymbolId)) -> bool {
    left.0 < right.0 || (left.0 == right.0 && left.1 < right.1)
}

/// `row` has a transition on `symbol`.
pub open spec fn lists(row: Seq<(SymbolId, usize)>, symbol: SymbolId) -> bool {
    exists|k: int| 0 <= k < row.len() && (#[trigger] row[k]).0 == symbol
}

/// The transitions of `row` stand in increasing order of their symbols.
pub open spec fn increasing(row: Seq<(SymbolId, usize)>) -> bool {
    forall|j: int, k: int| 0 <= j < k < row.len() ==> (#[trigger] row[j]).0 < (#[trigger] row[k]).0
}

/// The state that `row` gives for `symbol`, if it gives one.
pub open spec fn successor(row: Seq<(SymbolId, usize)>, symbol: SymbolId) -> Option<usize> {
    if exists|k: int| 0 <= k < row.len() && (#[trigger] row[k]).0 == symbol {
        Some(row[choose|k: int| 0 <= k < row.len() && (#[trigger] row[k]).0 == symbol].1)
    } else {
        None
    }
}

impl GrammarView {
    /// The item set reached from state 0 along `path`.
    pub open spec fn goto_along(self, path: Seq<SymbolId>) -> Set<Item>
        decreases path.len(),
    {
        if path.len() == 0 {
            self.initial()
        } else {
            self.goto(self.goto_along(path.drop_last()), path.last())
        }
    }

    /// State `target` is the successor of state `from` on `symbol`, which
    /// stands after a dot of `from`.
    pub open spec fn discovers(
        self,
        states: Seq<Set<Item>>,
        from: int,
        symbol: SymbolId,
        target: int,
    ) -> bool {
        &&& 0 <= from < states.len()
        &&& 0 <= target < states.len()
        &&& self.follows_dot(states[from], symbol)
        &&& self.goto(states[from], symbol) == states[target]
    }

    /// `row` holds the transitions of state `from`: one for each symbol
    /// that stands after a dot of the state, in increasing order of the
    /// symbols, each to the state whose item set is GOTO of the two.
    pub open spec fn row_wf(
        self,
        states: Seq<Set<Item>>,
        row: Seq<(SymbolId, usize)>,
        from: int,
    ) -> bool {
        &&& increasing(row)
        &&& forall|k: int|
            0 <= k < row.len() ==> self.discovers(
                states,
                from,
                (#[trigger] row[k]).0,
                row[k].1 as int,
            )
        &&& forall|symbol: SymbolId| #[trigger]
            self.follows_dot(states[from], symbol) ==> lists(row, symbol)
    }

    /// `origin` is the first pair of a state and a symbol, in the order of
    /// visits, that has state `target` as successor; its state comes before
    /// `target`.
    pub open spec fn first_discovery(
        self,
        states: Seq<Set<Item>>,
        target: int,
        origin: (int, SymbolId),
    ) -> bool {
        &&& origin.0 < target
        &&& self.discovers(states, origin.0, origin.1, target)
        &&& forall|from: int, symbol: SymbolId|
            visited_before((from, symbol), origin) ==> !#[trigger] self.discovers(
                states,
                from,
                symbol,
                target,
            )
    }

    /// The states are numbered in the order in which a visit of the states
    /// by number, and of their symbols in increasing order, discovers them:
    /// `origins` gives the first discovery of every state but state 0, and
    /// later states are discovered later.
    pub open spec fn numbered_by(
        self,
        states: Seq<Set<Item>>,
        origins: Seq<(int, SymbolId)>,
    ) -> bool {
        &&& origins.len() == states.len()
        &&& forall|j: int|
            1 <= j < states.len() ==> self.first_discovery(states, j, #[trigger] origins[j])
        &&& forall|j: int, k: int|
            1 <= j < k < states.len() ==> visited_before(
                #[trigger] origins[j],
                #[trigger] origins[k],
            )
    }

    /// `automaton` is the canonical collection of LR(1) item sets of this
    /// grammar: state 0 is the closure of the initial item; no two states
    /// hold the same items; every state has its transitions, and with them
    /// all its successors are states; and the states are numbered in the
    /// order of their discovery.
    pub open spec fn canonical_collection(self, automaton: AutomatonView) -> bool {
        let states = automaton.states;
        &&& states.len() >= 1
        &&& states[0] == self.initial()
        &&& forall|i: int, j: int|
            0 <= i < j < states.len() ==> #[trigger] states[i] != #[trigger] states[j]
        &&& automaton.transitions.len() == states.len()
        &&& forall|i: int|
            0 <= i < states.len() ==> self.row_wf(states, #[trigger] automaton.transitions[i], i)
        &&& exists|origins: Seq<(int, SymbolId)>| self.numbered_by(states, origins)
    }
}

/// The index of the state that holds the items of `set`, if there is one.
fn find_state(states: &Vec<ItemSet>, set: &ItemSet) -> (found: Option<usize>)
    requires
        set.wf(),
        forall|i: int| 0 <= i < states@.len() ==> (#[trigger] states@[i]).wf(),
    ensures
        match found {
            Some(index) => index < states@.len() && states@[index as int]@ == set@,
            None => forall|i: int| 0 <= i < states@.len() ==> (#[trigger] states@[i])@ != set@,
        },
{
    let mut i: usize = 0;
    while i < states.len()
        invariant
            set.wf(),
            forall|j: int| 0 <= j < states@.len() ==> (#[trigger] states@[j]).wf(),
            i <= states@.len(),
            forall|j: int| 0 <= j < i ==> (#[trigger] states@[j])@ != set@,
        decreases states.len() - i,
    {
        if states[i].equals(set) {
            return Some(i);
        }
        i += 1;
    }
    None
}

/// The sets of items that `states` holds.
pub open spec fn item_sets(states: Seq<ItemSet>) -> Seq<Set<Item>> {
    states.map_values(|set: ItemSet| set@)
}

/// What is known of a collection stays known when a state is added to it.
proof fn lemma_extend(grammar: GrammarView, states: Seq<Set<Item>>, added: Set<Item>)
    ensures
        forall|from: int, symbol: SymbolId, target: int| #[trigger]
            grammar.discovers(states, from, symbol, target) ==> grammar.discovers(
                states.push(added),
                from,
                symbol,
                target,
            ),
        forall|from: int, symbol: SymbolId, target: int|
            0 <= from < states.len() && 0 <= target < states.len() && #[trigger] grammar.discovers(
                states.push(added),
                from,
                symbol,
                target,
            ) ==> grammar.discovers(states, from, symbol, target),
        forall|row: Seq<(SymbolId, usize)>, from: int|
            0 <= from < states.len() && #[trigger] grammar.row_wf(states, row, from)
                ==> grammar.row_wf(states.push(added), row, from),
        forall|target: int, origin: (int, SymbolId)|
            0 <= target < states.len() && #[trigger] grammar.first_discovery(
                states,
                target,
                origin,
            ) ==> grammar.first_discovery(states.push(added), target, origin),
{
    let extended = states.push(added);
    assert forall|from: int, symbol: SymbolId, target: int| #[trigger]
        grammar.discovers(states, from, symbol, target) implies grammar.discovers(
        extended,
        from,
        symbol,
        target,
    ) by {
        assert(extended[from] == states[from]);
        assert(extended[target] == states[target]);
    }
    assert forall|from: int, symbol: SymbolId, target: int|
        0 <= from < states.len() && 0 <= target < states.len() && #[trigger] grammar.discovers(
            extended,
            from,
            symbol,
            target,
        ) implies grammar.discovers(states, from, symbol, target) by {
        assert(extended[from] == states[from]);
        assert(extended[target] == states[target]);
    }
    assert forall|row: Seq<(SymbolId, usize)>, from: int|
        0 <= from < states.len() && #[trigger] grammar.row_wf(
            states,
            row,
            from,
        ) implies grammar.row_wf(extended, row, from) by {
        assert(extended[from] == states[from]);
        assert forall|k: int| 0 <= k < row.len() implies grammar.discovers(
            extended,
            from,
            (#[trigger] row[k]).0,
            row[k].1 as int,
        ) by {
            assert(grammar.discovers(states, from, row[k].0, row[k].1 as int));
        }
    }
    assert forall|target: int, origin: (int, SymbolId)|
        0 <= target < states.len() && #[trigger] grammar.first_discovery(
            states,
            target,
            origin,
        ) implies grammar.first_discovery(extended, target, origin) by {
        assert(grammar.discovers(states, origin.0, origin.1, target));
        assert forall|from: int, symbol: SymbolId|
            visited_before((from, symbol), origin) implies !#[trigger] grammar.discovers(
            extended,
            from,
            symbol,
            target,
        ) by {
            if grammar.discovers(extended, from, symbol, target) {
                assert(grammar.discovers(states, from, symbol, target));
            }
        }
    }
}

impl Grammar {
    /// Builds the canonical collection of LR(1) item sets. State 0 is the
    /// closure of the initial item. The states are visited in the order of
    /// their numbers, and the symbols after the dots of each in increasing
    /// order; a successor that is no state yet becomes the next state.
    pub fn automaton(&self, analysis: &Analysis) -> (automaton: Automaton)
        requires
            self.wf(),
            analysis.wf(),
            analysis.grammar() == self@,
        ensures
            automaton.wf(),
            self@.canonical_collection(automaton@),
    {
        let ghost grammar = self@;
        let mut kernel = ItemSet::new();
        kernel.insert(Item { rule: 0, position: 0, lookahead: crate::symbols::END_OF_INPUT });
        proof {
            assert(kernel@ =~= set![initial_item()]);
        }
        let initial = self.closure_with(analysis, kernel);
        let mut states: Vec<ItemSet> = Vec::new();
        states.push(initial);
        let mut transitions: Vec<Vec<(SymbolId, usize)>> = Vec::new();
        let ghost mut origins: Seq<(int, SymbolId)> = seq![(0int, 0usize)];
        let ghost universe = grammar.all_items();
        let ghost bound = subsets(universe).len();
        proof {
            assert(grammar.production_wf(0));
            assert(grammar.items_wf(set![initial_item()]));
            lemma_closure_wf(grammar, set![initial_item()]);
            lemma_all_items_finite(grammar);
            lemma_items_within(grammar, item_sets(states@)[0]);
            lemma_distinct_sets_bounded(item_sets(states@), universe);
        }
        let mut i: usize = 0;
        while i < states.len()
            invariant
                self.wf(),
                analysis.wf(),
                analysis.grammar() == self@,
                grammar == self@,
                universe == grammar.all_items(),
                universe.finite(),
                bound == subsets(universe).len(),
                states@.len() <= bound,
                forall|k: int|
                    0 <= k < states@.len() ==> grammar.items_wf((#[trigger] states@[k])@),
                states@.len() >= 1,
                item_sets(states@)[0] == grammar.initial(),
                forall|k: int| 0 <= k < states@.len() ==> (#[trigger] states@[k]).wf(),
                forall|j: int, k: int|
                    0 <= j < k < states@.len() ==> (#[trigger] states@[j])@ != (
                    #[trigger] states@[k])@,
                transitions@.len() == i,
                i <= states@.len(),
                forall|from: int|
                    0 <= from < i ==> grammar.row_wf(
                        item_sets(states@),
                        (#[trigger] transitions@[from])@,
                        from,
                    ),
                origins.len() == states@.len(),
                forall|j: int|
                    1 <= j < states@.len() ==> grammar.first_discovery(
                        item_sets(states@),
                        j,
                        #[trigger] origins[j],
                    ) && origins[j].0 < i,
                forall|j: int, k: int|
                    1 <= j < k < states@.len() ==> visited_before(
                        #[trigger] origins[j],
                        #[trigger] origins[k],
                    ),
            decreases bound - states.len(), states.len() - i,
        {
            let successors = get_new_states(self, &states[i]);
            let mut row: Vec<(SymbolId, usize)> = Vec::new();
            let ghost count = states@.len();
            let mut k: usize = 0;
            while k < successors.len()
                invariant
                    count <= states@.len(),
                    universe == grammar.all_items(),
                    universe.finite(),
                    bound == subsets(universe).len(),
                    states@.len() <= bound,
                    forall|m: int|
                        0 <= m < states@.len() ==> grammar.items_wf((#[trigger] states@[m])@),
                    self.wf(),
                    analysis.wf(),
                    analysis.grammar() == self@,
                    grammar == self@,
                    states@.len() >= 1,
                    i < states@.len(),
                    item_sets(states@)[0] == grammar.initial(),
                    forall|m: int| 0 <= m < states@.len() ==> (#[trigger] states@[m]).wf(),
                    forall|j: int, m: int|
                        0 <= j < m < states@.len() ==> (#[trigger] states@[j])@ != (
                        #[trigger] states@[m])@,
                    transitions@.len() == i,
                    forall|from: int|
                        0 <= from < i ==> grammar.row_wf(
                            item_sets(states@),
                            (#[trigger] transitions@[from])@,
                            from,
                        ),
                    origins.len() == states@.len(),
                    forall|j: int|
                        1 <= j < states@.len() ==> grammar.first_discovery(
                            item_sets(states@),
                            j,
                            #[trigger] origins[j],
                        ),
                    forall|j: int|
                        1 <= j < states@.len() ==> (#[trigger] origins[j]).0 < i || (origins[j].0
                            == i && exists|m: int|
                            0 <= m < k && (#[trigger] successors@[m]).0 == origins[j].1),
                    forall|j: int, m: int|
                        1 <= j < m < states@.len() ==> visited_before(
                            #[trigger] origins[j],
                            #[trigger] origins[m],
                        ),
                    forall|m: int|
                        0 <= m < successors@.len() ==> {
                            &&& (#[trigger] successors@[m]).1.wf()
                            &&& successors@[m].1@ == grammar.advanced_over(
                                states@[i as int]@,
                                successors@[m].0,
                            )
                        },
                    forall|j: int, m: int|
                        0 <= j < m < successors@.len() ==> (#[trigger] successors@[j]).0 < (
                        #[trigger] successors@[m]).0,
                    forall|symbol: SymbolId|
                        grammar.follows_dot(states@[i as int]@, symbol) <==> exists|m: int|
                            0 <= m < successors@.len() && (#[trigger] successors@[m]).0 == symbol,
                    k <= successors@.len(),
                    row@.len() == k,
                    forall|m: int|
                        0 <= m < k ==> (#[trigger] row@[m]).0 == successors@[m].0
                            && grammar.discovers(
                            item_sets(states@),
                            i as int,
                            row@[m].0,
                            row@[m].1 as int,
                        ),
                decreases successors@.len() - k,
            {
                let symbol = successors[k].0;
                let set = self.closure_with(analysis, successors[k].1.duplicate());
                let ghost before = item_sets(states@);
                proof {
                    assert(set@ == grammar.goto(before[i as int], symbol));
                    assert(grammar.follows_dot(before[i as int], symbol));
                }
                let target = match find_state(&states, &set) {
                    Some(target) => target,
                    None => {
                        let target = states.len();
                        proof {
                            lemma_extend(grammar, before, set@);
                            // No pair visited before this one has `set` as
                            // successor: all their successors are states.
                            assert forall|from: int, other: SymbolId|
                                visited_before(
                                    (from, other),
                                    (i as int, symbol),
                                ) implies !#[trigger] grammar.discovers(
                                before.push(set@),
                                from,
                                other,
                                target as int,
                            ) by {
                                if grammar.discovers(before.push(set@), from, other, target as int) {
                                    assert(before.push(set@)[from] == before[from]);
                                    assert(grammar.follows_dot(before[from], other));
                                    if from < i {
                                        let held = transitions@[from]@;
                                        assert(grammar.row_wf(before, held, from));
                                        assert(lists(held, other));
                                        let m = choose|m: int|
                                            0 <= m < held.len() && (#[trigger] held[m]).0 == other;
                                        assert(grammar.discovers(
                                            before,
                                            from,
                                            held[m].0,
                                            held[m].1 as int,
                                        ));
                                        assert(states@[held[m].1 as int]@ == set@);
                                    } else {
                                        let m = choose|m: int|
                                            0 <= m < successors@.len() && (
                                            #[trigger] successors@[m]).0 == other;
                                        if m >= k {
                                            if m > k {
                                                assert(successors@[k as int].0 < successors@[m].0);
                                            }
                                        }
                                        assert(grammar.discovers(
                                            before,
                                            i as int,
                                            row@[m].0,
                                            row@[m].1 as int,
                                        ));
                                        assert(states@[row@[m].1 as int]@ == set@);
                                    }
                                }
                            }
                        }
                        let ghost earlier = states@;
                        let ghost added = set@;
                        proof {
                            assert(grammar.items_wf(earlier[i as int]@));
                            lemma_goto_wf(grammar, before[i as int], symbol);
                            assert(grammar.items_wf(added));
                        }
                        states.push(set);
                        proof {
                            origins = origins.push((i as int, symbol));
                            assert(item_sets(states@) =~= before.push(set@));
                            assert forall|m: int| 0 <= m < states@.len() implies grammar.items_wf(
                                (#[trigger] states@[m])@,
                            ) by {
                                if m < earlier.len() {
                                    assert(states@[m] == earlier[m]);
                                } else {
                                    assert(states@[m]@ == added);
                                }
                            }
                            assert forall|m: int| 0 <= m < item_sets(states@).len() implies (
                            #[trigger] item_sets(states@)[m]).subset_of(universe) by {
                                assert(grammar.items_wf(states@[m]@));
                                lemma_items_within(grammar, states@[m]@);
                            }
                            lemma_distinct_sets_bounded(item_sets(states@), universe);
                            assert(grammar.discovers(
                                item_sets(states@),
                                i as int,
                                symbol,
                                target as int,
                            ));
                            assert forall|j: int| 1 <= j < states@.len() implies (
                            #[trigger] origins[j]).0 < i || (origins[j].0 == i && exists|m: int|
                                0 <= m < k + 1 && (#[trigger] successors@[m]).0 == origins[j].1) by {
                                if j < target {
                                    if !(origins[j].0 < i) {
                                        let m = choose|m: int|
                                            0 <= m < k && (#[trigger] successors@[m]).0
                                                == origins[j].1;
                                        assert(0 <= m < k + 1);
                                    }
                                } else {
                                    assert(successors@[k as int].0 == origins[j].1);
                                }
                            }
                            assert forall|j: int, m: int|
                                1 <= j < m < states@.len() implies visited_before(
                                #[trigger] origins[j],
                                #[trigger] origins[m],
                            ) by {
                                if m == target {
                                    if !(origins[j].0 < i) {
                                        let n = choose|n: int|
                                            0 <= n < k && (#[trigger] successors@[n]).0
                                                == origins[j].1;
                                        assert(successors@[n].0 < successors@[k as int].0);
                                    }
                                }
                            }
                        }
                        target
                    },
                };
                proof {
                    assert(grammar.discovers(
                        item_sets(states@),
                        i as int,
                        symbol,
                        target as int,
                    ));
                    assert forall|j: int| 1 <= j < states@.len() implies (
                    #[trigger] origins[j]).0 < i || (origins[j].0 == i && exists|m: int|
                        0 <= m < k + 1 && (#[trigger] successors@[m]).0 == origins[j].1) by {
                        if !(origins[j].0 < i) {
                            let m = choose|m: int|
                                0 <= m < k + 1 && (#[trigger] successors@[m]).0 == origins[j].1;
                            assert(0 <= m < k + 1);
                        }
                    }
                }
                row.push((symbol, target));
                k += 1;
            }
            proof {
                let sets = item_sets(states@);
                assert(grammar.row_wf(sets, row@, i as int)) by {
                    assert forall|symbol: SymbolId| #[trigger]
                        grammar.follows_dot(sets[i as int], symbol) implies lists(
                        row@,
                        symbol,
                    ) by {
                        let m = choose|m: int|
                            0 <= m < successors@.len() && (#[trigger] successors@[m]).0 == symbol;
                        assert(row@[m].0 == symbol);
                    }
                }
                assert forall|j: int| 1 <= j < states@.len() implies (#[trigger] origins[j]).0 < i
                    + 1 by {}
            }
            transitions.push(row);
            i += 1;
        }
        let automaton = Automaton { states, transitions };
        proof {
            assert(automaton@.states == item_sets(automaton.states@));
            assert(grammar.numbered_by(automaton@.states, origins));
            assert forall|from: int| 0 <= from < automaton@.states.len() implies grammar.row_wf(
                automaton@.states,
                #[trigger] automaton@.transitions[from],
                from,
            ) by {
                assert(automaton@.transitions[from] == automaton.transitions@[from]@);
            }
        }
        automaton
    }
}

/// No two states of a canonical collection hold the same items.
pub proof fn lemma_states_distinct(grammar: GrammarView, automaton: AutomatonView, i: int, j: int)
    requires
        grammar.canonical_collection(automaton),
        0 <= i < automaton.states.len(),
        0 <= j < automaton.states.len(),
        i != j,
    ensures
        automaton.states[i] != automaton.states[j],
{
    if i < j {
        assert(automaton.states[i] != automaton.states[j]);
    } else {
        assert(automaton.states[j] != automaton.states[i]);
    }
}

/// Every state of a canonical collection is reached from state 0 along
/// some path of symbols.
pub proof fn lemma_reachable(grammar: GrammarView, automaton: AutomatonView, state: int) -> (path:
    Seq<SymbolId>)
    requires
        grammar.canonical_collection(automaton),
        0 <= state < automaton.states.len(),
    ensures
        grammar.goto_along(path) == automaton.states[state],
    decreases state,
{
    if state == 0 {
        Seq::empty()
    } else {
        let origins = choose|origins: Seq<(int, SymbolId)>|
            grammar.numbered_by(automaton.states, origins);
        let origin = origins[state];
        assert(grammar.first_discovery(automaton.states, state, origin));
        let before = lemma_reachable(grammar, automaton, origin.0);
        let path = before.push(origin.1);
        assert(path.drop_last() =~= before);
        path
    }
}

/// A canonical collection holds every item set that is reached from state
/// 0 along a path of symbols and is not empty.
pub proof fn lemma_complete(grammar: GrammarView, automaton: AutomatonView, path: Seq<SymbolId>) -> (state:
    int)
    requires
        grammar.canonical_collection(automaton),
        grammar.goto_along(path) != Set::<Item>::empty(),
    ensures
        0 <= state < automaton.states.len(),
        automaton.states[state] == grammar.goto_along(path),
    decreases path.len(),
{
    if path.len() == 0 {
        0
    } else {
        let before = grammar.goto_along(path.drop_last());
        let symbol = path.last();
        if !grammar.follows_dot(before, symbol) {
            crate::closure::lemma_goto_empty(grammar, before, symbol);
        }
        let witness = choose|item: Item|
            before.contains(item) && #[trigger] grammar.next_symbol(item) == Some(symbol);
        assert(before.contains(witness));
        assert(before != Set::<Item>::empty());
        let from = lemma_complete(grammar, automaton, path.drop_last());
        let row = automaton.transitions[from];
        assert(grammar.row_wf(automaton.states, row, from));
        assert(lists(row, symbol));
        let k = choose|k: int| 0 <= k < row.len() && (#[trigger] row[k]).0 == symbol;
        assert(grammar.discovers(automaton.states, from, row[k].0, row[k].1 as int));
        row[k].1 as int
    }
}

/// Two lists of transitions in increasing order of the symbols, over the
/// same symbols and with the same state for each, are the same list.
proof fn lemma_rows_equal(left: Seq<(SymbolId, usize)>, right: Seq<(SymbolId, usize)>)
    requires
        increasing(left),
        increasing(right),
        forall|symbol: SymbolId| #[trigger] lists(left, symbol) == lists(right, symbol),
        forall|j: int, k: int|
            0 <= j < left.len() && 0 <= k < right.len() && (#[trigger] left[j]).0 == (
            #[trigger] right[k]).0 ==> left[j].1 == right[k].1,
    ensures
        left == right,
    decreases left.len(),
{
    if left.len() == 0 {
        if right.len() > 0 {
            assert(lists(right, right[0].0));
            assert(lists(left, right[0].0));
        }
        assert(left =~= right);
    } else if right.len() == 0 {
        assert(lists(left, left[0].0));
        assert(lists(right, left[0].0));
    } else {
        let a = left.last();
        let b = right.last();
        assert(lists(left, left[left.len() - 1].0));
        assert(lists(right, a.0));
        assert(lists(right, right[right.len() - 1].0));
        assert(lists(left, b.0));
        let k = choose|k: int| 0 <= k < right.len() && (#[trigger] right[k]).0 == a.0;
        let j = choose|j: int| 0 <= j < left.len() && (#[trigger] left[j]).0 == b.0;
        assert(a.0 == b.0) by {
            if k < right.len() - 1 {
                assert(right[k].0 < right[right.len() - 1].0);
            }
            if j < left.len() - 1 {
                assert(left[j].0 < left[left.len() - 1].0);
            }
        }
        assert(left[left.len() - 1].0 == right[right.len() - 1].0);
        assert(a == b);
        let left_rest = left.drop_last();
        let right_rest = right.drop_last();
        assert forall|symbol: SymbolId| #[trigger]
            lists(left_rest, symbol) == lists(right_rest, symbol) by {
            if lists(left_rest, symbol) {
                let j = choose|j: int|
                    0 <= j < left_rest.len() && (#[trigger] left_rest[j]).0 == symbol;
                assert(left[j].0 < left[left.len() - 1].0);
                assert(lists(left, symbol));
                let k = choose|k: int| 0 <= k < right.len() && (#[trigger] right[k]).0 == symbol;
                assert(right_rest[k].0 == symbol);
            }
            if lists(right_rest, symbol) {
                let k = choose|k: int|
                    0 <= k < right_rest.len() && (#[trigger] right_rest[k]).0 == symbol;
                assert(right[k].0 < right[right.len() - 1].0);
                assert(lists(right, symbol));
                assert(lists(left, symbol));
                let j = choose|j: int| 0 <= j < left.len() && (#[trigger] left[j]).0 == symbol;
                assert(left_rest[j].0 == symbol);
            }
        }
        assert forall|j: int, k: int|
            0 <= j < left_rest.len() && 0 <= k < right_rest.len() && (#[trigger] left_rest[j]).0
                == (#[trigger] right_rest[k]).0 implies left_rest[j].1 == right_rest[k].1 by {
            assert(left[j].0 == right[k].0);
        }
        assert(increasing(left_rest)) by {
            assert forall|j: int, k: int| 0 <= j < k < left_rest.len() implies (
            #[trigger] left_rest[j]).0 < (#[trigger] left_rest[k]).0 by {
                assert(left[j].0 < left[k].0);
            }
        }
        assert(increasing(right_rest)) by {
            assert forall|j: int, k: int| 0 <= j < k < right_rest.len() implies (
            #[trigger] right_rest[j]).0 < (#[trigger] right_rest[k]).0 by {
                assert(right[j].0 < right[k].0);
            }
        }
        lemma_rows_equal(left_rest, right_rest);
        assert(left =~= left_rest.push(a));
        assert(right =~= right_rest.push(b));
    }
}

/// A pair that discovers a state in one collection is not visited before
/// the first discovery of that state in a second collection that agrees
/// with the first on all earlier states.
proof fn lemma_not_discovered_earlier(
    grammar: GrammarView,
    first: AutomatonView,
    second: AutomatonView,
    origins: Seq<(int, SymbolId)>,
    state: int,
    pair: (int, SymbolId),
)
    requires
        grammar.canonical_collection(first),
        grammar.canonical_collection(second),
        grammar.numbered_by(second.states, origins),
        1 <= state < first.states.len(),
        state < second.states.len(),
        forall|i: int| 0 <= i < state ==> first.states[i] == second.states[i],
        0 <= pair.0 < state,
        grammar.discovers(first.states, pair.0, pair.1, state),
    ensures
        !visited_before(pair, origins[state]),
{
    if !visited_before(pair, origins[state]) {
        return ;
    }
    let row = second.transitions[pair.0];
    assert(grammar.row_wf(second.states, row, pair.0));
    assert(first.states[pair.0] == second.states[pair.0]);
    assert(grammar.follows_dot(second.states[pair.0], pair.1));
    assert(lists(row, pair.1));
    let k = choose|k: int| 0 <= k < row.len() && (#[trigger] row[k]).0 == pair.1;
    let target = row[k].1 as int;
    assert(grammar.discovers(second.states, pair.0, row[k].0, row[k].1 as int));
    assert(second.states[target] == first.states[state]);
    assert(grammar.first_discovery(second.states, state, origins[state]));
    if target == state {
        assert(grammar.discovers(second.states, pair.0, pair.1, state));
    } else if target < state {
        assert(first.states[target] == second.states[target]);
        assert(first.states[target] != first.states[state]);
    } else {
        assert(grammar.first_discovery(second.states, target, origins[target]));
        assert(grammar.discovers(second.states, pair.0, pair.1, target));
        assert(!visited_before(pair, origins[target]));
        assert(visited_before(origins[state], origins[target]));
    }
}

/// Two canonical collections of a grammar agree on their first states.
proof fn lemma_states_agree(
    grammar: GrammarView,
    first: AutomatonView,
    second: AutomatonView,
    count: int,
)
    requires
        grammar.canonical_collection(first),
        grammar.canonical_collection(second),
        0 <= count <= first.states.len(),
        count <= second.states.len(),
    ensures
        forall|i: int| 0 <= i < count ==> first.states[i] == second.states[i],
    decreases count,
{
    if count > 1 {
        lemma_states_agree(grammar, first, second, count - 1);
        let state = count - 1;
        let first_origins = choose|origins: Seq<(int, SymbolId)>|
            grammar.numbered_by(first.states, origins);
        let second_origins = choose|origins: Seq<(int, SymbolId)>|
            grammar.numbered_by(second.states, origins);
        let left = first_origins[state];
        let right = second_origins[state];
        assert(grammar.first_discovery(first.states, state, left));
        assert(grammar.first_discovery(second.states, state, right));
        assert(grammar.discovers(first.states, left.0, left.1, state));
        assert(grammar.discovers(second.states, right.0, right.1, state));
        if visited_before(left, right) {
            lemma_not_discovered_earlier(grammar, first, second, second_origins, state, left);
        } else if visited_before(right, left) {
            lemma_not_discovered_earlier(grammar, second, first, first_origins, state, right);
        } else {
            assert(left == right);
            assert(first.states[left.0] == second.states[left.0]);
        }
    }
}

/// Of two canonical collections of a grammar the second has no more states
/// than the first.
proof fn lemma_no_more_states(grammar: GrammarView, first: AutomatonView, second: AutomatonView)
    requires
        grammar.canonical_collection(first),
        grammar.canonical_collection(second),
    ensures
        second.states.len() <= first.states.len(),
{
    let count = first.states.len() as int;
    if count < second.states.len() {
        lemma_states_agree(grammar, first, second, count);
        let origins = choose|origins: Seq<(int, SymbolId)>|
            grammar.numbered_by(second.states, origins);
        let origin = origins[count];
        assert(grammar.first_discovery(second.states, count, origin));
        assert(grammar.discovers(second.states, origin.0, origin.1, count));
        let row = first.transitions[origin.0];
        assert(grammar.row_wf(first.states, row, origin.0));
        assert(first.states[origin.0] == second.states[origin.0]);
        assert(grammar.follows_dot(first.states[origin.0], origin.1));
        assert(lists(row, origin.1));
        let k = choose|k: int| 0 <= k < row.len() && (#[trigger] row[k]).0 == origin.1;
        let target = row[k].1 as int;
        assert(grammar.discovers(first.states, origin.0, row[k].0, row[k].1 as int));
        assert(first.states[target] == second.states[target]);
        assert(second.states[target] != second.states[count]);
    }
}

/// The canonical collection of a grammar is unique: two automata that are
/// canonical collections of one grammar have the same states, under the
/// same numbers, and the same transitions. Building the automaton twice
/// gives the same automaton.
pub proof fn lemma_collection_unique(
    grammar: GrammarView,
    first: AutomatonView,
    second: AutomatonView,
)
    requires
        grammar.canonical_collection(first),
        grammar.canonical_collection(second),
    ensures
        first == second,
{
    lemma_no_more_states(grammar, first, second);
    lemma_no_more_states(grammar, second, first);
    let count = first.states.len() as int;
    lemma_states_agree(grammar, first, second, count);
    assert(first.states =~= second.states);
    let states = first.states;
    assert forall|from: int| 0 <= from < count implies first.transitions[from]
        == second.transitions[from] by {
        let left = first.transitions[from];
        let right = second.transitions[from];
        assert(grammar.row_wf(states, left, from));
        assert(grammar.row_wf(states, right, from));
        assert forall|symbol: SymbolId| #[trigger] lists(left, symbol) == lists(right, symbol) by {
            if lists(left, symbol) {
                let j = choose|j: int| 0 <= j < left.len() && (#[trigger] left[j]).0 == symbol;
                assert(grammar.discovers(states, from, left[j].0, left[j].1 as int));
                assert(grammar.follows_dot(states[from], symbol));
            }
            if lists(right, symbol) {
                let k = choose|k: int| 0 <= k < right.len() && (#[trigger] right[k]).0 == symbol;
                assert(grammar.discovers(states, from, right[k].0, right[k].1 as int));
                assert(grammar.follows_dot(states[from], symbol));
            }
        }
        assert forall|j: int, k: int|
            0 <= j < left.len() && 0 <= k < right.len() && (#[trigger] left[j]).0 == (
            #[trigger] right[k]).0 implies left[j].1 == right[k].1 by {
            assert(grammar.discovers(states, from, left[j].0, left[j].1 as int));
            assert(grammar.discovers(states, from, right[k].0, right[k].1 as int));
            if left[j].1 != right[k].1 {
                lemma_states_distinct(grammar, first, left[j].1 as int, right[k].1 as int);
            }
        }
        lemma_rows_equal(left, right);
    }
    assert(first.transitions =~= second.transitions);
}

} // verus!
