//! The item algebra: CLOSURE and GOTO on sets of LR(1) items.

use crate::first::Analysis;
use crate::grammar::{lemma_headed_by, Grammar, GrammarView};
use crate::item::{Item, ItemSet};
use crate::symbols::{SymbolId, END_OF_INPUT};
use vstd::prelude::*;
use vstd::set_lib::{lemma_int_range, lemma_len_subset, set_int_range};

verus! {

impl Item {
    /// This item with the dot moved back over one symbol.
    pub open spec fn retreat(self) -> Item {
        Item { rule: self.rule, position: (self.position - 1) as usize, lookahead: self.lookahead }
    }
}

/// The item `[S' -> · S, $]` from which the automaton starts.
pub open spec fn initial_item() -> Item {
    Item { rule: 0, position: 0, lookahead: END_OF_INPUT }
}

impl GrammarView {
    /// CLOSURE adds `child` because of `parent`: `parent` is
    /// `[A -> α · B β, a]` with a non-terminal `B`, and `child` is
    /// `[B -> · γ, b]` for a production of `B` and a `b` in FIRST(β a).
    pub open spec fn spawns(self, parent: Item, child: Item) -> bool {
        &&& self.next_symbol(parent) matches Some(symbol)
        &&& self.is_nonterminal(symbol)
        &&& child.rule < self.productions.len()
        &&& self.productions[child.rule as int].lhs == symbol
        &&& child.position == 0
        &&& self.first_of_tail(
            self.rhs(parent.rule),
            parent.position + 1,
            parent.lookahead,
            child.lookahead,
        )
    }

    /// `item` is reached from `kernel` by at most `steps` additions.
    pub open spec fn closure_within(self, kernel: Set<Item>, item: Item, steps: nat) -> bool
        decreases steps,
    {
        kernel.contains(item) || (steps > 0 && exists|parent: Item|
            self.closure_within(kernel, parent, (steps - 1) as nat) && #[trigger] self.spawns(
                parent,
                item,
            ))
    }

    /// CLOSURE(`kernel`): the items reached from `kernel` by additions.
    pub open spec fn closure(self, kernel: Set<Item>) -> Set<Item> {
        Set::new(|item: Item| exists|steps: nat| self.closure_within(kernel, item, steps))
    }

    /// `items` holds every item that CLOSURE adds because of one of its own.
    pub open spec fn closed(self, items: Set<Item>) -> bool {
        forall|parent: Item, child: Item|
            items.contains(parent) && #[trigger] self.spawns(parent, child) ==> items.contains(
                child,
            )
    }

    /// The items of `items` that have `symbol` after the dot, with the dot
    /// moved over it.
    pub open spec fn advanced_over(self, items: Set<Item>, symbol: SymbolId) -> Set<Item> {
        Set::new(
            |item: Item|
                item.position > 0 && items.contains(item.retreat()) && self.next_symbol(
                    item.retreat(),
                ) == Some(symbol),
        )
    }

    /// `symbol` stands after the dot of some item of `items`.
    pub open spec fn follows_dot(self, items: Set<Item>, symbol: SymbolId) -> bool {
        exists|item: Item| items.contains(item) && #[trigger] self.next_symbol(item) == Some(symbol)
    }

    /// GOTO(`items`, `symbol`).
    pub open spec fn goto(self, items: Set<Item>, symbol: SymbolId) -> Set<Item> {
        self.closure(self.advanced_over(items, symbol))
    }

    /// The item set of state 0.
    pub open spec fn initial(self) -> Set<Item> {
        self.closure(set![initial_item()])
    }
}

/// CLOSURE holds its argument.
pub proof fn lemma_closure_extensive(grammar: GrammarView, kernel: Set<Item>)
    ensures
        kernel.subset_of(grammar.closure(kernel)),
{
    assert forall|item: Item| kernel.contains(item) implies grammar.closure(kernel).contains(
        item,
    ) by {
        assert(grammar.closure_within(kernel, item, 0));
    }
}

/// CLOSURE yields a closed set.
pub proof fn lemma_closure_closed(grammar: GrammarView, kernel: Set<Item>)
    ensures
        grammar.closed(grammar.closure(kernel)),
{
    assert forall|parent: Item, child: Item|
        grammar.closure(kernel).contains(parent) && #[trigger] grammar.spawns(
            parent,
            child,
        ) implies grammar.closure(kernel).contains(child) by {
        let steps = choose|steps: nat| grammar.closure_within(kernel, parent, steps);
        assert(grammar.closure_within(kernel, child, steps + 1));
    }
}

/// What is reached from `kernel` lies in every closed set that holds
/// `kernel`.
proof fn lemma_closure_within_least(
    grammar: GrammarView,
    kernel: Set<Item>,
    items: Set<Item>,
    item: Item,
    steps: nat,
)
    requires
        kernel.subset_of(items),
        grammar.closed(items),
        grammar.closure_within(kernel, item, steps),
    ensures
        items.contains(item),
    decreases steps,
{
    if !kernel.contains(item) {
        let parent = choose|parent: Item|
            grammar.closure_within(kernel, parent, (steps - 1) as nat) && #[trigger] grammar.spawns(
                parent,
                item,
            );
        lemma_closure_within_least(grammar, kernel, items, parent, (steps - 1) as nat);
    }
}

/// CLOSURE(`kernel`) is the least closed set that holds `kernel`.
pub proof fn lemma_closure_least(grammar: GrammarView, kernel: Set<Item>, items: Set<Item>)
    requires
        kernel.subset_of(items),
        grammar.closed(items),
    ensures
        grammar.closure(kernel).subset_of(items),
{
    assert forall|item: Item| grammar.closure(kernel).contains(item) implies items.contains(
        item,
    ) by {
        let steps = choose|steps: nat| grammar.closure_within(kernel, item, steps);
        lemma_closure_within_least(grammar, kernel, items, item, steps);
    }
}

/// CLOSURE is idempotent: closing a closure adds nothing.
pub proof fn lemma_closure_idempotent(grammar: GrammarView, items: Set<Item>)
    ensures
        grammar.closure(grammar.closure(items)) == grammar.closure(items),
{
    let once = grammar.closure(items);
    lemma_closure_closed(grammar, items);
    lemma_closure_least(grammar, once, once);
    lemma_closure_extensive(grammar, once);
    assert(grammar.closure(once) =~= once);
}

/// CLOSURE is monotone: a larger set has a larger closure.
pub proof fn lemma_closure_monotone(grammar: GrammarView, smaller: Set<Item>, larger: Set<Item>)
    requires
        smaller.subset_of(larger),
    ensures
        grammar.closure(smaller).subset_of(grammar.closure(larger)),
{
    lemma_closure_extensive(grammar, larger);
    lemma_closure_closed(grammar, larger);
    lemma_closure_least(grammar, smaller, grammar.closure(larger));
}

/// CLOSURE adds only items with the dot at the start.
pub proof fn lemma_closure_adds_at_start(grammar: GrammarView, kernel: Set<Item>, item: Item)
    requires
        grammar.closure(kernel).contains(item),
        !kernel.contains(item),
    ensures
        item.position == 0,
        exists|parent: Item|
            grammar.closure(kernel).contains(parent) && #[trigger] grammar.spawns(parent, item),
{
    let steps = choose|steps: nat| grammar.closure_within(kernel, item, steps);
    let parent = choose|parent: Item|
        grammar.closure_within(kernel, parent, (steps - 1) as nat) && #[trigger] grammar.spawns(
            parent,
            item,
        );
    assert(grammar.closure(kernel).contains(parent));
}

impl GrammarView {
    /// The lookaheads that an item added to `kernel` can have: the symbols
    /// of the grammar and the lookaheads of the items of `kernel`.
    pub open spec fn lookaheads(self, kernel: Set<Item>) -> Set<SymbolId> {
        set_int_range(0, self.symbols.len() as int).map(|symbol: int| symbol as usize)
            + kernel.map(|item: Item| item.lookahead)
    }

    /// The items that CLOSURE can add to `kernel` for the first `rules`
    /// productions: the dot at the start, and one of the possible
    /// lookaheads.
    pub open spec fn addable(self, kernel: Set<Item>, rules: int) -> Set<Item> {
        Set::new(
            |item: Item|
                item.position == 0 && item.rule < rules && self.lookaheads(kernel).contains(
                    item.lookahead,
                ),
        )
    }
}

/// The possible lookaheads are finitely many.
proof fn lemma_lookaheads_finite(grammar: GrammarView, kernel: Set<Item>)
    requires
        kernel.finite(),
    ensures
        grammar.lookaheads(kernel).finite(),
{
    lemma_int_range(0, grammar.symbols.len() as int);
    set_int_range(0, grammar.symbols.len() as int).lemma_map_finite(|symbol: int| symbol as usize);
    kernel.lemma_map_finite(|item: Item| item.lookahead);
    vstd::set::axiom_set_union_finite(
        set_int_range(0, grammar.symbols.len() as int).map(|symbol: int| symbol as usize),
        kernel.map(|item: Item| item.lookahead),
    );
}

/// The items that CLOSURE can add are finitely many.
proof fn lemma_addable_finite(grammar: GrammarView, kernel: Set<Item>, rules: int)
    requires
        kernel.finite(),
        0 <= rules <= usize::MAX + 1,
    ensures
        grammar.addable(kernel, rules).finite(),
    decreases rules,
{
    if rules == 0 {
        assert(grammar.addable(kernel, rules) =~= Set::<Item>::empty());
    } else {
        lemma_addable_finite(grammar, kernel, rules - 1);
        lemma_lookaheads_finite(grammar, kernel);
        let last = (rules - 1) as usize;
        let with = |lookahead: SymbolId| Item { rule: last, position: 0, lookahead };
        let column = grammar.lookaheads(kernel).map(with);
        grammar.lookaheads(kernel).lemma_map_finite(with);
        let earlier = grammar.addable(kernel, rules - 1);
        assert forall|item: Item| grammar.addable(kernel, rules).contains(item) <==> (earlier
            + column).contains(item) by {
            if grammar.addable(kernel, rules).contains(item) && item.rule == last {
                assert(item == with(item.lookahead));
                assert(column.contains(item));
            }
            if column.contains(item) {
                let lookahead = choose|lookahead: SymbolId|
                    grammar.lookaheads(kernel).contains(lookahead) && item == with(lookahead);
                assert(item.lookahead == lookahead);
            }
        }
        assert(grammar.addable(kernel, rules) =~= earlier + column);
        vstd::set::axiom_set_union_finite(earlier, column);
    }
}

/// What is reached from `kernel` is an item of `kernel` or one that
/// CLOSURE can add.
proof fn lemma_closure_within_bounded(
    grammar: GrammarView,
    kernel: Set<Item>,
    item: Item,
    steps: nat,
)
    requires
        grammar.wf(),
        grammar.closure_within(kernel, item, steps),
    ensures
        kernel.contains(item) || grammar.addable(kernel, grammar.productions.len() as int).contains(
            item,
        ),
        grammar.lookaheads(kernel).contains(item.lookahead),
    decreases steps,
{
    let symbols = set_int_range(0, grammar.symbols.len() as int).map(|symbol: int| symbol as usize);
    let carried = kernel.map(|from: Item| from.lookahead);
    if kernel.contains(item) {
        assert(carried.contains(item.lookahead));
    } else {
        let parent = choose|parent: Item|
            grammar.closure_within(kernel, parent, (steps - 1) as nat) && #[trigger] grammar.spawns(
                parent,
                item,
            );
        lemma_closure_within_bounded(grammar, kernel, parent, (steps - 1) as nat);
        let rhs = grammar.rhs(parent.rule);
        let from = parent.position + 1;
        if exists|i: int|
            from <= i < rhs.len() && 0 <= i && grammar.span_nullable(rhs, from, i) && grammar.first(
                #[trigger] rhs[i],
                item.lookahead,
            ) {
            let i = choose|i: int|
                from <= i < rhs.len() && 0 <= i && grammar.span_nullable(rhs, from, i)
                    && grammar.first(#[trigger] rhs[i], item.lookahead);
            crate::first::lemma_first_terminal_only(grammar, rhs[i], item.lookahead);
            let symbol = item.lookahead as int;
            assert(set_int_range(0, grammar.symbols.len() as int).contains(symbol));
            assert(item.lookahead == symbol as usize);
            assert(symbols.contains(item.lookahead));
        }
    }
}

/// CLOSURE of finitely many items holds finitely many items: beside its
/// argument only items with the dot at the start, of which there is one for
/// each production and each possible lookahead.
pub proof fn lemma_closure_finite(grammar: GrammarView, kernel: Set<Item>)
    requires
        grammar.wf(),
        kernel.finite(),
    ensures
        grammar.closure(kernel).finite(),
{
    let added = grammar.addable(kernel, grammar.productions.len() as int);
    lemma_addable_finite(grammar, kernel, grammar.productions.len() as int);
    vstd::set::axiom_set_union_finite(kernel, added);
    assert forall|item: Item| grammar.closure(kernel).contains(item) implies (kernel
        + added).contains(item) by {
        let steps = choose|steps: nat| grammar.closure_within(kernel, item, steps);
        lemma_closure_within_bounded(grammar, kernel, item, steps);
    }
    lemma_len_subset(grammar.closure(kernel), kernel + added);
}

/// GOTO on a symbol that follows a dot: moving the dot of `item` over
/// `symbol` gives an item of GOTO(`items`, `symbol`), which is therefore
/// not empty, and GOTO(`items`, `symbol`) is closed.
pub proof fn lemma_goto_total(grammar: GrammarView, items: Set<Item>, item: Item, symbol: SymbolId)
    requires
        grammar.wf(),
        items.contains(item),
        grammar.next_symbol(item) == Some(symbol),
    ensures
        grammar.goto(items, symbol).contains(item.advance()),
        grammar.goto(items, symbol) != Set::<Item>::empty(),
        grammar.closed(grammar.goto(items, symbol)),
{
    assert(grammar.production_wf(item.rule as int));
    assert(item.advance().retreat() == item);
    assert(grammar.advanced_over(items, symbol).contains(item.advance()));
    lemma_closure_extensive(grammar, grammar.advanced_over(items, symbol));
    lemma_closure_closed(grammar, grammar.advanced_over(items, symbol));
}

/// GOTO on a symbol that follows no dot is empty.
pub proof fn lemma_goto_empty(grammar: GrammarView, items: Set<Item>, symbol: SymbolId)
    requires
        forall|item: Item| items.contains(item) ==> grammar.next_symbol(item) != Some(symbol),
    ensures
        grammar.goto(items, symbol) == Set::<Item>::empty(),
{
    let kernel = grammar.advanced_over(items, symbol);
    assert(kernel =~= Set::<Item>::empty());
    assert(grammar.closed(Set::<Item>::empty()));
    lemma_closure_least(grammar, kernel, Set::<Item>::empty());
    assert(grammar.goto(items, symbol) =~= Set::<Item>::empty());
}

impl Item {
    /// The lookaheads of the items that CLOSURE adds because of this item
    /// `[A -> α · B β, a]`: the members of FIRST(β a), in increasing order.
    /// With the dot at the end there is no β, and `a` alone is answered.
    pub fn lookahead(&self, grammar: &Grammar) -> (members: Vec<SymbolId>)
        requires
            grammar.wf(),
        ensures
            forall|i: int, j: int| 0 <= i < j < members@.len() ==> members@[i] < members@[j],
            forall|terminal: SymbolId|
                members@.contains(terminal) <==> grammar@.first_of_tail(
                    grammar@.rhs(self.rule),
                    self.position + 1,
                    self.lookahead,
                    terminal,
                ),
    {
        if self.rule < grammar.num_rules() {
            let rhs = &grammar.production(self.rule).rhs;
            if self.position < rhs.len() {
                let analysis = grammar.analyze();
                return analysis.first_of_tail(rhs, self.position + 1, self.lookahead);
            }
        }
        let mut members: Vec<SymbolId> = Vec::new();
        members.push(self.lookahead);
        proof {
            assert(members@[0] == self.lookahead);
        }
        members
    }
}

impl Grammar {
    /// Adds to `result` the items that CLOSURE adds because of `parent`,
    /// and appends those that are new to `pending`.
    fn expand(
        &self,
        analysis: &Analysis,
        parent: Item,
        result: &mut ItemSet,
        pending: &mut Vec<Item>,
        Ghost(kernel): Ghost<Set<Item>>,
    )
        requires
            self.wf(),
            analysis.wf(),
            analysis.grammar() == self@,
            old(result).wf(),
            old(result)@.contains(parent),
            old(result)@.subset_of(self@.closure(kernel)),
        ensures
            final(result).wf(),
            final(result).seq().len() <= usize::MAX,
            old(result)@.subset_of(final(result)@),
            final(result)@.subset_of(self@.closure(kernel)),
            forall|child: Item| #[trigger]
                self@.spawns(parent, child) ==> final(result)@.contains(child),
            final(pending)@.len() - old(pending)@.len() == final(result).seq().len()
                - old(result).seq().len(),
            old(pending)@.len() <= final(pending)@.len(),
            forall|i: int| 0 <= i < old(pending)@.len() ==> final(pending)@[i] == old(pending)@[i],
            forall|i: int|
                old(pending)@.len() <= i < final(pending)@.len() ==> final(result)@.contains(
                    #[trigger] final(pending)@[i],
                ),
            forall|item: Item|
                final(result)@.contains(item) ==> old(result)@.contains(item)
                    || final(pending)@.contains(item),
    {
        proof {
            result.lemma_len_bound();
        }
        let symbol = match parent.next_symbol(self) {
            Some(symbol) => symbol,
            None => {
                return ;
            },
        };
        if !self.is_nonterminal(symbol) {
            return ;
        }
        let rhs = &self.production(parent.rule).rhs;
        proof {
            assert(rhs@ == self@.rhs(parent.rule));
            assert(parent.position < rhs@.len());
            assert(rhs@.len() == rhs.len());
        }
        let lookaheads = analysis.first_of_tail(rhs, parent.position + 1, parent.lookahead);
        let rules = self.rules_of(symbol);
        let ghost grammar = self@;
        let ghost result_before = result@;
        let ghost pending_before = pending@;
        let ghost size_before = result.seq().len();
        proof {
            lemma_headed_by(grammar.productions, symbol);
            lemma_closure_closed(grammar, kernel);
        }
        let mut r: usize = 0;
        while r < rules.len()
            invariant
                grammar == self@,
                grammar.next_symbol(parent) == Some(symbol),
                grammar.is_nonterminal(symbol),
                grammar.closed(grammar.closure(kernel)),
                rules@ == grammar.productions_of(symbol),
                forall|k: int|
                    0 <= k < rules@.len() ==> (#[trigger] rules@[k]) < grammar.productions.len()
                        && grammar.productions[rules@[k] as int].lhs == symbol,
                forall|terminal: SymbolId|
                    lookaheads@.contains(terminal) <==> grammar.first_of_tail(
                        grammar.rhs(parent.rule),
                        parent.position + 1,
                        parent.lookahead,
                        terminal,
                    ),
                result.wf(),
                result.seq().len() <= usize::MAX,
                result_before.contains(parent),
                result_before.subset_of(result@),
                result@.subset_of(grammar.closure(kernel)),
                pending@.len() - pending_before.len() == result.seq().len() - size_before,
                pending_before.len() <= pending@.len(),
                forall|i: int| 0 <= i < pending_before.len() ==> pending@[i] == pending_before[i],
                forall|i: int|
                    pending_before.len() <= i < pending@.len() ==> result@.contains(
                        #[trigger] pending@[i],
                    ),
                forall|item: Item|
                    result@.contains(item) ==> result_before.contains(item) || pending@.contains(
                        item,
                    ),
                r <= rules.len(),
                forall|k: int, l: int|
                    0 <= k < r && 0 <= l < lookaheads@.len() ==> result@.contains(
                        Item {
                            rule: #[trigger] rules@[k],
                            position: 0,
                            lookahead: #[trigger] lookaheads@[l],
                        },
                    ),
            decreases rules.len() - r,
        {
            let rule = rules[r];
            let mut l: usize = 0;
            while l < lookaheads.len()
                invariant
                    grammar == self@,
                    grammar.next_symbol(parent) == Some(symbol),
                    grammar.is_nonterminal(symbol),
                    grammar.closed(grammar.closure(kernel)),
                    r < rules@.len(),
                    rule == rules@[r as int],
                    rule < grammar.productions.len(),
                    grammar.productions[rule as int].lhs == symbol,
                    forall|terminal: SymbolId|
                        lookaheads@.contains(terminal) <==> grammar.first_of_tail(
                            grammar.rhs(parent.rule),
                            parent.position + 1,
                            parent.lookahead,
                            terminal,
                        ),
                    result.wf(),
                    result.seq().len() <= usize::MAX,
                    result_before.contains(parent),
                    result_before.subset_of(result@),
                    result@.subset_of(grammar.closure(kernel)),
                    pending@.len() - pending_before.len() == result.seq().len() - size_before,
                    pending_before.len() <= pending@.len(),
                    forall|i: int|
                        0 <= i < pending_before.len() ==> pending@[i] == pending_before[i],
                    forall|i: int|
                        pending_before.len() <= i < pending@.len() ==> result@.contains(
                            #[trigger] pending@[i],
                        ),
                    forall|item: Item|
                        result@.contains(item) ==> result_before.contains(item)
                            || pending@.contains(item),
                    l <= lookaheads.len(),
                    forall|k: int, m: int|
                        0 <= k < r && 0 <= m < lookaheads@.len() ==> result@.contains(
                            Item {
                                rule: #[trigger] rules@[k],
                                position: 0,
                                lookahead: #[trigger] lookaheads@[m],
                            },
                        ),
                    forall|m: int|
                        0 <= m < l ==> result@.contains(
                            Item { rule, position: 0, lookahead: #[trigger] lookaheads@[m] },
                        ),
                decreases lookaheads.len() - l,
            {
                let child = Item { rule, position: 0, lookahead: lookaheads[l] };
                let ghost result_earlier = result@;
                let ghost pending_earlier = pending@;
                proof {
                    assert(lookaheads@.contains(lookaheads@[l as int]));
                    assert(grammar.spawns(parent, child));
                    assert(grammar.closure(kernel).contains(parent));
                }
                if result.insert(child) {
                    pending.push(child);
                    proof {
                        assert(pending@[pending@.len() - 1] == child);
                    }
                }
                proof {
                    assert forall|item: Item| result@.contains(item) implies result_before.contains(
                        item,
                    ) || pending@.contains(item) by {
                        if item != child && !result_before.contains(item) {
                            assert(result_earlier.contains(item));
                            let i = choose|i: int|
                                0 <= i < pending_earlier.len() && pending_earlier[i] == item;
                            assert(pending@[i] == item);
                        }
                        if item == child && result_earlier.contains(child)
                            && !result_before.contains(item) {
                            let i = choose|i: int|
                                0 <= i < pending_earlier.len() && pending_earlier[i] == item;
                            assert(pending@[i] == item);
                        }
                    }
                }
                l += 1;
            }
            r += 1;
        }
        proof {
            assert forall|child: Item| #[trigger] grammar.spawns(parent, child) implies result@.contains(
                child,
            ) by {
                assert(grammar.productions_of(symbol).contains(child.rule));
                let k = choose|k: int| 0 <= k < rules@.len() && rules@[k] == child.rule;
                assert(lookaheads@.contains(child.lookahead));
                let l = choose|l: int|
                    0 <= l < lookaheads@.len() && lookaheads@[l] == child.lookahead;
                assert(child == Item {
                    rule: rules@[k],
                    position: 0,
                    lookahead: lookaheads@[l],
                });
            }
        }
    }

    /// CLOSURE(`set`), computed with the tables of `analysis`.
    pub fn closure_with(&self, analysis: &Analysis, set: ItemSet) -> (closed: ItemSet)
        requires
            self.wf(),
            analysis.wf(),
            analysis.grammar() == self@,
            set.wf(),
        ensures
            closed.wf(),
            closed@ == self@.closure(set@),
    {
        let ghost kernel = set@;
        let ghost bound = self@.closure(kernel).len();
        let mut pending = set.to_vec();
        let mut result = set;
        proof {
            lemma_closure_extensive(self@, kernel);
            result.lemma_len();
            lemma_closure_finite(self@, kernel);
            lemma_len_subset(result@, self@.closure(kernel));
        }
        while pending.len() > 0
            invariant
                self.wf(),
                analysis.wf(),
                analysis.grammar() == self@,
                result.wf(),
                self@.closure(kernel).finite(),
                bound == self@.closure(kernel).len(),
                result.seq().len() <= bound,
                kernel.subset_of(result@),
                result@.subset_of(self@.closure(kernel)),
                forall|i: int| 0 <= i < pending@.len() ==> result@.contains(#[trigger] pending@[i]),
                forall|parent: Item, child: Item|
                    result@.contains(parent) && !pending@.contains(parent)
                        && #[trigger] self@.spawns(parent, child) ==> result@.contains(child),
            decreases bound - result.seq().len(), pending@.len(),
        {
            let ghost result_before = result@;
            let ghost pending_before = pending@;
            let parent = pending.pop().unwrap();
            let ghost pending_popped = pending@;
            proof {
                assert(parent == pending_before[pending_before.len() - 1]);
            }
            self.expand(analysis, parent, &mut result, &mut pending, Ghost(kernel));
            proof {
                result.lemma_len();
                lemma_len_subset(result@, self@.closure(kernel));
                assert forall|i: int| 0 <= i < pending@.len() implies result@.contains(
                    #[trigger] pending@[i],
                ) by {
                    if i < pending_popped.len() {
                        assert(pending@[i] == pending_before[i]);
                        assert(result_before.contains(pending_before[i]));
                    }
                }
                assert forall|item: Item, child: Item|
                    result@.contains(item) && !pending@.contains(item) && #[trigger] self@.spawns(
                        item,
                        child,
                    ) implies result@.contains(child) by {
                    if item != parent {
                        assert(result_before.contains(item));
                        if pending_before.contains(item) {
                            let i = choose|i: int|
                                0 <= i < pending_before.len() && pending_before[i] == item;
                            assert(pending@[i] == item);
                        }
                    }
                }
            }
        }
        proof {
            assert(self@.closed(result@)) by {
                assert forall|parent: Item, child: Item|
                    result@.contains(parent) && #[trigger] self@.spawns(
                        parent,
                        child,
                    ) implies result@.contains(child) by {
                    assert(!pending@.contains(parent));
                }
            }
            lemma_closure_least(self@, kernel, result@);
            assert(result@ =~= self@.closure(kernel));
        }
        result
    }

    /// CLOSURE(`set`): the least set that holds `set` and, for every item
    /// `[A -> α · B β, a]` of it with a non-terminal `B`, every item
    /// `[B -> · γ, b]` with `b` in FIRST(β a).
    pub fn closure(&self, set: ItemSet) -> (closed: ItemSet)
        requires
            self.wf(),
            set.wf(),
        ensures
            closed.wf(),
            closed@ == self@.closure(set@),
    {
        let analysis = self.analyze();
        self.closure_with(&analysis, set)
    }
}

/// The items of `set` that have `symbol` after the dot, with the dot moved
/// over it.
pub fn advance_over(grammar: &Grammar, set: &ItemSet, symbol: SymbolId) -> (kernel: ItemSet)
    requires
        grammar.wf(),
        set.wf(),
    ensures
        kernel.wf(),
        kernel@ == grammar@.advanced_over(set@, symbol),
        kernel.seq().len() > 0 <==> grammar@.follows_dot(set@, symbol),
{
    let mut kernel = ItemSet::new();
    let mut i: usize = 0;
    while i < set.len()
        invariant
            grammar.wf(),
            set.wf(),
            kernel.wf(),
            i <= set.seq().len(),
            forall|item: Item|
                kernel@.contains(item) <==> item.position > 0 && grammar@.next_symbol(
                    item.retreat(),
                ) == Some(symbol) && exists|j: int|
                    0 <= j < i && #[trigger] set.seq()[j] == item.retreat(),
        decreases set.seq().len() - i,
    {
        let from = set.get(i);
        let ghost before = kernel@;
        if from.next_symbol(grammar) == Some(symbol) {
            proof {
                assert(grammar@.production_wf(from.rule as int));
            }
            kernel.insert(from.advanced());
            proof {
                assert(from.advance().retreat() == from);
            }
        }
        proof {
            assert forall|item: Item|
                kernel@.contains(item) <==> item.position > 0 && grammar@.next_symbol(
                    item.retreat(),
                ) == Some(symbol) && exists|j: int|
                    0 <= j < i + 1 && #[trigger] set.seq()[j] == item.retreat() by {
                if before.contains(item) {
                    let j = choose|j: int| 0 <= j < i && #[trigger] set.seq()[j] == item.retreat();
                    assert(0 <= j < i + 1);
                }
                if item.position > 0 && grammar@.next_symbol(item.retreat()) == Some(symbol)
                    && exists|j: int| 0 <= j < i + 1 && #[trigger] set.seq()[j] == item.retreat() {
                    let j = choose|j: int|
                        0 <= j < i + 1 && #[trigger] set.seq()[j] == item.retreat();
                    if j == i {
                        assert(item == from.advance());
                    }
                }
            }
        }
        i += 1;
    }
    proof {
        assert forall|item: Item| kernel@.contains(item) <==> grammar@.advanced_over(
            set@,
            symbol,
        ).contains(item) by {
            if set@.contains(item.retreat()) {
                let j = choose|j: int|
                    0 <= j < set.seq().len() && set.seq()[j] == item.retreat();
                assert(set.seq()[j] == item.retreat());
            }
        }
        assert(kernel@ =~= grammar@.advanced_over(set@, symbol));
        if kernel.seq().len() > 0 {
            let item = kernel.seq()[0];
            assert(kernel.seq().contains(item));
            assert(kernel@.contains(item));
            assert(grammar@.advanced_over(set@, symbol).contains(item));
            assert(set@.contains(item.retreat()));
            assert(grammar@.next_symbol(item.retreat()) == Some(symbol));
        }
        if grammar@.follows_dot(set@, symbol) {
            let from = choose|item: Item|
                set@.contains(item) && #[trigger] grammar@.next_symbol(item) == Some(symbol);
            assert(grammar@.production_wf(from.rule as int));
            assert(from.advance().retreat() == from);
            assert(grammar@.advanced_over(set@, symbol).contains(from.advance()));
            assert(kernel@.contains(from.advance()));
            assert(kernel.seq().contains(from.advance()));
        }
    }
    kernel
}

/// The successors of `set` before they are closed: for every symbol that
/// stands after a dot, in increasing order of the symbols, the items that
/// have it after the dot, with the dot moved over it.
pub fn get_new_states(grammar: &Grammar, set: &ItemSet) -> (successors: Vec<(SymbolId, ItemSet)>)
    requires
        grammar.wf(),
        set.wf(),
    ensures
        forall|k: int|
            0 <= k < successors@.len() ==> {
                &&& (#[trigger] successors@[k]).1.wf()
                &&& successors@[k].1@ == grammar@.advanced_over(set@, successors@[k].0)
                &&& successors@[k].1.seq().len() > 0
            },
        forall|j: int, k: int|
            0 <= j < k < successors@.len() ==> (#[trigger] successors@[j]).0 < (
            #[trigger] successors@[k]).0,
        forall|symbol: SymbolId|
            grammar@.follows_dot(set@, symbol) <==> exists|k: int|
                0 <= k < successors@.len() && (#[trigger] successors@[k]).0 == symbol,
{
    let count = grammar.num_symbols();
    let mut successors: Vec<(SymbolId, ItemSet)> = Vec::new();
    let mut symbol: usize = 0;
    while symbol < count
        invariant
            grammar.wf(),
            set.wf(),
            count == grammar@.symbols.len(),
            symbol <= count,
            forall|k: int|
                0 <= k < successors@.len() ==> {
                    &&& (#[trigger] successors@[k]).1.wf()
                    &&& successors@[k].1@ == grammar@.advanced_over(set@, successors@[k].0)
                    &&& successors@[k].1.seq().len() > 0
                    &&& successors@[k].0 < symbol
                },
            forall|j: int, k: int|
                0 <= j < k < successors@.len() ==> (#[trigger] successors@[j]).0 < (
                #[trigger] successors@[k]).0,
            forall|other: SymbolId|
                other < symbol ==> (grammar@.follows_dot(set@, other) <==> exists|k: int|
                    0 <= k < successors@.len() && (#[trigger] successors@[k]).0 == other),
        decreases count - symbol,
    {
        let kernel = advance_over(grammar, set, symbol);
        let ghost before = successors@;
        if kernel.len() > 0 {
            successors.push((symbol, kernel));
        }
        proof {
            assert forall|other: SymbolId| other < symbol + 1 implies (grammar@.follows_dot(
                set@,
                other,
            ) <==> exists|k: int|
                0 <= k < successors@.len() && (#[trigger] successors@[k]).0 == other) by {
                if other < symbol {
                    if grammar@.follows_dot(set@, other) {
                        let k = choose|k: int|
                            0 <= k < before.len() && (#[trigger] before[k]).0 == other;
                        assert(successors@[k].0 == other);
                    }
                    if exists|k: int|
                        0 <= k < successors@.len() && (#[trigger] successors@[k]).0 == other {
                        let k = choose|k: int|
                            0 <= k < successors@.len() && (#[trigger] successors@[k]).0 == other;
                        assert(before[k].0 == other);
                    }
                } else {
                    if grammar@.follows_dot(set@, other) {
                        assert(successors@[successors@.len() - 1].0 == other);
                    }
                    if exists|k: int|
                        0 <= k < successors@.len() && (#[trigger] successors@[k]).0 == other {
                        let k = choose|k: int|
                            0 <= k < successors@.len() && (#[trigger] successors@[k]).0 == other;
                        if k < before.len() {
                            assert(before[k].0 < symbol);
                        }
                    }
                }
            }
        }
        symbol += 1;
    }
    proof {
        assert forall|other: SymbolId|
            grammar@.follows_dot(set@, other) <==> exists|k: int|
                0 <= k < successors@.len() && (#[trigger] successors@[k]).0 == other by {
            if grammar@.follows_dot(set@, other) {
                let from = choose|item: Item|
                    set@.contains(item) && #[trigger] grammar@.next_symbol(item) == Some(other);
                assert(grammar@.production_wf(from.rule as int));
            }
            if exists|k: int| 0 <= k < successors@.len() && (#[trigger] successors@[k]).0 == other {
                let k = choose|k: int|
                    0 <= k < successors@.len() && (#[trigger] successors@[k]).0 == other;
                assert(successors@[k].0 < count);
            }
        }
    }
    successors
}

impl Grammar {
    /// GOTO(`set`, `symbol`): the closure of the items of `set` that have
    /// `symbol` after the dot, with the dot moved over it. It is empty
    /// where no item of `set` has `symbol` after the dot.
    pub fn goto(&self, set: &ItemSet, symbol: SymbolId) -> (successor: ItemSet)
        requires
            self.wf(),
            set.wf(),
        ensures
            successor.wf(),
            successor@ == self@.goto(set@, symbol),
    {
        let kernel = advance_over(self, set, symbol);
        self.closure(kernel)
    }
}

} // verus!
