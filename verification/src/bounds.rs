//! Why the construction ends: a grammar has finitely many items, and so
//! finitely many sets of items.

use crate::grammar::{GrammarView, RuleId};
use crate::item::Item;
use vstd::prelude::*;
use vstd::set_lib::{lemma_int_range, lemma_len_subset, set_int_range};

verus! {

impl GrammarView {
    /// The items of production `rule` with the dot at `position`: one for
    /// each symbol as lookahead.
    pub open spec fn items_at(self, rule: RuleId, position: usize) -> Set<Item> {
        set_int_range(0, self.symbols.len() as int).map(
            |lookahead: int| Item { rule, position, lookahead: lookahead as usize },
        )
    }

    /// The items of production `rule` with the dot before position
    /// `positions`.
    pub open spec fn items_before(self, rule: RuleId, positions: int) -> Set<Item> {
        Set::new(
            |item: Item|
                item.rule == rule && item.position < positions && item.lookahead
                    < self.symbols.len(),
        )
    }

    /// The items of the first `rules` productions that belong to the
    /// grammar.
    pub open spec fn items_upto(self, rules: int) -> Set<Item> {
        Set::new(|item: Item| item.rule < rules && self.item_wf(item))
    }

    /// The items that belong to the grammar.
    pub open spec fn all_items(self) -> Set<Item> {
        self.items_upto(self.productions.len() as int)
    }
}

/// The sets of items of `universe`.
pub open spec fn subsets(universe: Set<Item>) -> Set<Set<Item>> {
    Set::new(|items: Set<Item>| items.subset_of(universe))
}

/// A production has finitely many items with the dot before a position.
proof fn lemma_items_before_finite(grammar: GrammarView, rule: RuleId, positions: int)
    requires
        0 <= positions <= usize::MAX + 1,
    ensures
        grammar.items_before(rule, positions).finite(),
    decreases positions,
{
    if positions == 0 {
        assert(grammar.items_before(rule, positions) =~= Set::<Item>::empty());
    } else {
        lemma_items_before_finite(grammar, rule, positions - 1);
        let position = (positions - 1) as usize;
        let range = set_int_range(0, grammar.symbols.len() as int);
        let with = |lookahead: int| Item { rule, position, lookahead: lookahead as usize };
        lemma_int_range(0, grammar.symbols.len() as int);
        range.lemma_map_finite(with);
        let earlier = grammar.items_before(rule, positions - 1);
        let column = grammar.items_at(rule, position);
        assert forall|item: Item| grammar.items_before(rule, positions).contains(item) <==> (earlier
            + column).contains(item) by {
            if grammar.items_before(rule, positions).contains(item) && item.position == position {
                let lookahead = item.lookahead as int;
                assert(range.contains(lookahead));
                assert(item == with(lookahead));
                assert(column.contains(item));
            }
            if column.contains(item) {
                let lookahead = choose|lookahead: int|
                    range.contains(lookahead) && item == with(lookahead);
                assert(item.lookahead == lookahead as usize);
            }
        }
        assert(grammar.items_before(rule, positions) =~= earlier + column);
        vstd::set::axiom_set_union_finite(earlier, column);
    }
}

/// The first productions of a grammar have finitely many items.
proof fn lemma_items_upto_finite(grammar: GrammarView, rules: int)
    requires
        grammar.wf(),
        0 <= rules <= grammar.productions.len(),
    ensures
        grammar.items_upto(rules).finite(),
    decreases rules,
{
    if rules == 0 {
        assert(grammar.items_upto(rules) =~= Set::<Item>::empty());
    } else {
        lemma_items_upto_finite(grammar, rules - 1);
        let rule = (rules - 1) as usize;
        assert(grammar.production_wf(rule as int));
        let positions = grammar.productions[rule as int].rhs.len() as int + 1;
        lemma_items_before_finite(grammar, rule, positions);
        let earlier = grammar.items_upto(rules - 1);
        let last = grammar.items_before(rule, positions);
        vstd::set::axiom_set_union_finite(earlier, last);
        assert(grammar.items_upto(rules).subset_of(earlier + last));
        lemma_len_subset(grammar.items_upto(rules), earlier + last);
    }
}

/// Items that belong to the grammar are among all its items.
pub proof fn lemma_items_within(grammar: GrammarView, items: Set<Item>)
    requires
        forall|item: Item| items.contains(item) ==> #[trigger] grammar.item_wf(item),
    ensures
        items.subset_of(grammar.all_items()),
{
    assert forall|item: Item| items.contains(item) implies grammar.all_items().contains(item) by {
        assert(grammar.item_wf(item));
    }
}

/// A grammar has finitely many items.
pub proof fn lemma_all_items_finite(grammar: GrammarView)
    requires
        grammar.wf(),
    ensures
        grammar.all_items().finite(),
{
    lemma_items_upto_finite(grammar, grammar.productions.len() as int);
}

/// Finitely many items have finitely many sets.
pub proof fn lemma_subsets_finite(universe: Set<Item>)
    requires
        universe.finite(),
    ensures
        subsets(universe).finite(),
    decreases universe.len(),
{
    if universe.len() == 0 {
        assert(universe =~= Set::<Item>::empty());
        assert forall|items: Set<Item>| subsets(universe).contains(items) <==> set![
            Set::<Item>::empty(),
        ].contains(items) by {
            if items.subset_of(universe) {
                assert(items =~= Set::<Item>::empty());
            }
        }
        assert(subsets(universe) =~= set![Set::<Item>::empty()]);
    } else {
        let item = universe.choose();
        let rest = universe.remove(item);
        lemma_subsets_finite(rest);
        let with = |items: Set<Item>| items.insert(item);
        let without = subsets(rest);
        let holding = without.map(with);
        without.lemma_map_finite(with);
        assert forall|items: Set<Item>| subsets(universe).contains(items) <==> (without
            + holding).contains(items) by {
            if items.subset_of(universe) {
                if items.contains(item) {
                    let smaller = items.remove(item);
                    assert(smaller.subset_of(rest));
                    assert(items =~= with(smaller));
                    assert(without.contains(smaller));
                    assert(holding.contains(items));
                } else {
                    assert(items.subset_of(rest));
                }
            }
            if holding.contains(items) {
                let smaller = choose|smaller: Set<Item>|
                    without.contains(smaller) && items == with(smaller);
                assert(items.subset_of(universe));
            }
            if without.contains(items) {
                assert(items.subset_of(universe));
            }
        }
        assert(subsets(universe) =~= without + holding);
        vstd::set::axiom_set_union_finite(without, holding);
    }
}

/// Sets of items of a finite universe, no two of them the same, are no
/// more than the universe has sets.
pub proof fn lemma_distinct_sets_bounded(sets: Seq<Set<Item>>, universe: Set<Item>)
    requires
        universe.finite(),
        forall|i: int| 0 <= i < sets.len() ==> (#[trigger] sets[i]).subset_of(universe),
        forall|i: int, j: int| 0 <= i < j < sets.len() ==> #[trigger] sets[i] != #[trigger] sets[j],
    ensures
        sets.len() <= subsets(universe).len(),
{
    lemma_subsets_finite(universe);
    assert(sets.no_duplicates());
    sets.unique_seq_to_set();
    assert forall|items: Set<Item>| sets.to_set().contains(items) implies subsets(
        universe,
    ).contains(items) by {
        let i = choose|i: int| 0 <= i < sets.len() && sets[i] == items;
        assert(sets[i].subset_of(universe));
    }
    lemma_len_subset(sets.to_set(), subsets(universe));
}

} // verus!
