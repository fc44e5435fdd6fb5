//! LR(1) items and canonical item sets.

use crate::grammar::{Grammar, GrammarView, RuleId};
use crate::symbols::SymbolId;
use vstd::prelude::*;

verus! {

/// An LR(1) item `[A -> α · β, a]`: a production, the position of the dot
/// in its right-hand side, and a lookahead terminal. Items are values: two
/// items are the same item when all three fields agree.
#[derive(Clone, Copy, Debug, PartialEq, Eq, Hash, Structural)]
pub struct Item {
    pub rule: RuleId,
    pub position: usize,
    pub lookahead: SymbolId,
}

impl GrammarView {
    /// The symbol after the dot of `item`, where the dot is not at the end.
    pub open spec fn next_symbol(self, item: Item) -> Option<SymbolId> {
        if item.position < self.rhs(item.rule).len() {
            Some(self.rhs(item.rule)[item.position as int])
        } else {
            None
        }
    }

    /// The dot of `item` is at the end of its production.
    pub open spec fn completed(self, item: Item) -> bool {
        item.position >= self.rhs(item.rule).len()
    }

    /// `item` belongs to this grammar: a production of it, a dot within the
    /// right-hand side, a terminal as lookahead. Production 0 is followed by
    /// the end of input only.
    pub open spec fn item_wf(self, item: Item) -> bool {
        &&& item.rule < self.productions.len()
        &&& item.position <= self.productions[item.rule as int].rhs.len()
        &&& self.is_terminal(item.lookahead)
        &&& (item.rule == 0 ==> item.lookahead == crate::symbols::END_OF_INPUT)
    }
}

impl Item {
    /// This item with the dot moved over one symbol.
    pub open spec fn advance(self) -> Item {
        Item { rule: self.rule, position: (self.position + 1) as usize, lookahead: self.lookahead }
    }

    /// The order of items: by production, then by position, then by
    /// lookahead.
    pub open spec fn before(self, other: Item) -> bool {
        ||| self.rule < other.rule
        ||| (self.rule == other.rule && self.position < other.position)
        ||| (self.rule == other.rule && self.position == other.position && self.lookahead
            < other.lookahead)
    }

    /// Whether this item comes before `other` in the order of items.
    pub fn precedes(&self, other: &Item) -> (precedes: bool)
        ensures
            precedes == self.before(*other),
    {
        self.rule < other.rule || (self.rule == other.rule && (self.position < other.position || (
        self.position == other.position && self.lookahead < other.lookahead)))
    }

    /// Whether the dot is at the end of the production.
    pub fn end(&self, grammar: &Grammar) -> (end: bool)
        ensures
            end == grammar@.completed(*self),
    {
        if self.rule < grammar.num_rules() {
            self.position >= grammar.production(self.rule).rhs.len()
        } else {
            true
        }
    }

    /// The symbol after the dot, where the dot is not at the end.
    pub fn next_symbol(&self, grammar: &Grammar) -> (next: Option<SymbolId>)
        ensures
            next == grammar@.next_symbol(*self),
    {
        if self.rule < grammar.num_rules() {
            let rhs = &grammar.production(self.rule).rhs;
            if self.position < rhs.len() {
                return Some(rhs[self.position]);
            }
        }
        None
    }

    /// This item with the dot moved over one symbol.
    pub fn advanced(&self) -> (item: Item)
        requires
            self.position < usize::MAX,
        ensures
            item == self.advance(),
    {
        Item { rule: self.rule, position: self.position + 1, lookahead: self.lookahead }
    }
}

/// The items of `items` stand in strictly increasing order.
pub open spec fn strictly_sorted(items: Seq<Item>) -> bool {
    forall|i: int, j: int|
        0 <= i < j < items.len() ==> (#[trigger] items[i]).before(#[trigger] items[j])
}

/// A set of items has one listing in strictly increasing order.
pub proof fn lemma_sorted_canonical(left: Seq<Item>, right: Seq<Item>)
    requires
        strictly_sorted(left),
        strictly_sorted(right),
        left.to_set() == right.to_set(),
    ensures
        left == right,
    decreases left.len(),
{
    if left.len() == 0 {
        if right.len() > 0 {
            assert(right.to_set().contains(right[0]));
            assert(left.contains(right[0]));
        }
        assert(left =~= right);
    } else if right.len() == 0 {
        assert(left.to_set().contains(left[0]));
        assert(right.contains(left[0]));
    } else {
        let a = left.last();
        let b = right.last();
        assert(left.to_set().contains(a));
        assert(right.contains(a));
        assert(right.to_set().contains(b));
        assert(left.contains(b));
        let i = choose|i: int| 0 <= i < right.len() && right[i] == a;
        let j = choose|j: int| 0 <= j < left.len() && left[j] == b;
        assert(a == b) by {
            if i < right.len() - 1 {
                assert(right[i].before(right[right.len() - 1]));
            }
            if j < left.len() - 1 {
                assert(left[j].before(left[left.len() - 1]));
            }
        }
        let left_rest = left.drop_last();
        let right_rest = right.drop_last();
        assert forall|item: Item| left_rest.to_set().contains(item) <==> right_rest.to_set().contains(
            item,
        ) by {
            if left_rest.contains(item) {
                let k = choose|k: int| 0 <= k < left_rest.len() && left_rest[k] == item;
                assert(left[k].before(left[left.len() - 1]));
                assert(left.to_set().contains(left[k]));
                assert(right.contains(item));
                let m = choose|m: int| 0 <= m < right.len() && right[m] == item;
                assert(right_rest[m] == item);
            }
            if right_rest.contains(item) {
                let k = choose|k: int| 0 <= k < right_rest.len() && right_rest[k] == item;
                assert(right[k].before(right[right.len() - 1]));
                assert(right.to_set().contains(right[k]));
                assert(left.contains(item));
                let m = choose|m: int| 0 <= m < left.len() && left[m] == item;
                assert(left_rest[m] == item);
            }
        }
        assert(left_rest.to_set() =~= right_rest.to_set());
        lemma_sorted_canonical(left_rest, right_rest);
        assert(left =~= left_rest.push(a));
        assert(right =~= right_rest.push(b));
    }
}

/// The items of `items` in increasing order.
pub open spec fn listing(items: Set<Item>) -> Seq<Item> {
    choose|listed: Seq<Item>| strictly_sorted(listed) && listed.to_set() == items
}

/// A set of items, kept in the order of items so that equal sets are equal
/// listings.
pub struct ItemSet {
    items: Vec<Item>,
}

impl View for ItemSet {
    type V = Set<Item>;

    open spec fn view(&self) -> Set<Item> {
        self.seq().to_set()
    }
}

impl ItemSet {
    /// The items of the set, in increasing order.
    pub closed spec fn seq(&self) -> Seq<Item> {
        self.items@
    }

    /// The set's invariant: its listing is strictly increasing.
    pub open spec fn wf(&self) -> bool {
        strictly_sorted(self.seq())
    }

    /// The set is kept as the listing of its items.
    pub proof fn lemma_listing(&self)
        requires
            self.wf(),
        ensures
            listing(self@) == self.seq(),
    {
        let listed = self.seq();
        assert(strictly_sorted(listed) && listed.to_set() == self@);
        lemma_sorted_canonical(listing(self@), listed);
    }

    /// The listing holds every item of the set once.
    pub proof fn lemma_len(&self)
        requires
            self.wf(),
        ensures
            self@.finite(),
            self@.len() == self.seq().len(),
    {
        let listed = self.seq();
        assert(listed.no_duplicates()) by {
            assert forall|i: int, j: int|
                0 <= i < listed.len() && 0 <= j < listed.len() && i != j implies listed[i]
                != listed[j] by {
                if i < j {
                    assert(listed[i].before(listed[j]));
                } else {
                    assert(listed[j].before(listed[i]));
                }
            }
        }
        listed.unique_seq_to_set();
        vstd::seq_lib::seq_to_set_is_finite(listed);
    }

    /// A listing fits the machine.
    pub proof fn lemma_len_bound(&self)
        ensures
            self.seq().len() <= usize::MAX,
    {
        assert(self.items@.len() == self.items.len());
    }

    /// The empty set.
    pub fn new() -> (set: ItemSet)
        ensures
            set.wf(),
            set.seq() == Seq::<Item>::empty(),
            set@ == Set::<Item>::empty(),
    {
        let set = ItemSet { items: Vec::new() };
        proof {
            assert(set@ =~= Set::<Item>::empty());
        }
        set
    }

    /// The number of items.
    pub fn len(&self) -> (len: usize)
        ensures
            len == self.seq().len(),
    {
        self.items.len()
    }

    /// The item at `index` of the listing.
    pub fn get(&self, index: usize) -> (item: Item)
        requires
            index < self.seq().len(),
        ensures
            item == self.seq()[index as int],
            self@.contains(item),
    {
        proof {
            assert(self.seq().contains(self.seq()[index as int]));
        }
        self.items[index]
    }

    /// The items in increasing order.
    pub fn to_vec(&self) -> (items: Vec<Item>)
        ensures
            items@ == self.seq(),
    {
        let mut items: Vec<Item> = Vec::new();
        let mut i: usize = 0;
        while i < self.items.len()
            invariant
                i <= self.items.len(),
                items@ == self.items@.take(i as int),
            decreases self.items.len() - i,
        {
            items.push(self.items[i]);
            proof {
                assert(items@ =~= self.items@.take(i + 1));
            }
            i += 1;
        }
        proof {
            assert(items@ =~= self.items@);
        }
        items
    }

    /// A copy of this set.
    pub fn duplicate(&self) -> (copy: ItemSet)
        ensures
            copy.seq() == self.seq(),
            copy@ == self@,
            self.wf() ==> copy.wf(),
    {
        ItemSet { items: self.to_vec() }
    }

    /// The position of the first item that does not come before `item`.
    fn lower_bound(&self, item: &Item) -> (position: usize)
        requires
            self.wf(),
        ensures
            position <= self.seq().len(),
            forall|i: int| 0 <= i < position ==> (#[trigger] self.seq()[i]).before(*item),
            forall|i: int|
                position <= i < self.seq().len() ==> !(#[trigger] self.seq()[i]).before(*item),
    {
        let mut low: usize = 0;
        let mut high: usize = self.items.len();
        while low < high
            invariant
                self.wf(),
                low <= high <= self.items@.len(),
                forall|i: int| 0 <= i < low ==> (#[trigger] self.items@[i]).before(*item),
                forall|i: int|
                    high <= i < self.items@.len() ==> !(#[trigger] self.items@[i]).before(*item),
            decreases high - low,
        {
            let middle = low + (high - low) / 2;
            if self.items[middle].precedes(item) {
                proof {
                    assert forall|i: int| 0 <= i < middle + 1 implies (
                    #[trigger] self.items@[i]).before(*item) by {
                        if i < middle {
                            assert(self.items@[i].before(self.items@[middle as int]));
                        }
                    }
                }
                low = middle + 1;
            } else {
                proof {
                    assert forall|i: int| middle <= i < self.items@.len() implies !(
                    #[trigger] self.items@[i]).before(*item) by {
                        if i > middle {
                            assert(self.items@[middle as int].before(self.items@[i]));
                        }
                    }
                }
                high = middle;
            }
        }
        low
    }

    /// Whether `item` is in the set.
    pub fn contains(&self, item: &Item) -> (member: bool)
        requires
            self.wf(),
        ensures
            member == self@.contains(*item),
    {
        let position = self.lower_bound(item);
        if position < self.items.len() && self.items[position] == *item {
            proof {
                assert(self.seq().contains(self.seq()[position as int]));
            }
            true
        } else {
            proof {
                if self.seq().contains(*item) {
                    let i = choose|i: int| 0 <= i < self.seq().len() && self.seq()[i] == *item;
                    if i > position {
                        assert(self.seq()[position as int].before(self.seq()[i]));
                    }
                }
            }
            false
        }
    }

    /// Adds `item` to the set, and says whether it was new.
    pub fn insert(&mut self, item: Item) -> (added: bool)
        requires
            old(self).wf(),
        ensures
            final(self).wf(),
            final(self)@ == old(self)@.insert(item),
            added == !old(self)@.contains(item),
            final(self).seq().len() == old(self).seq().len() + if added {
                1int
            } else {
                0int
            },
            final(self).seq().len() <= usize::MAX,
    {
        let position = self.lower_bound(&item);
        let ghost before = self.items@;
        if position < self.items.len() && self.items[position] == item {
            proof {
                assert(before.contains(before[position as int]));
                assert(self@ =~= old(self)@.insert(item));
                assert(self.items@.len() == self.items.len());
            }
            return false;
        }
        proof {
            if before.contains(item) {
                let i = choose|i: int| 0 <= i < before.len() && before[i] == item;
                if i > position {
                    assert(before[position as int].before(before[i]));
                }
            }
        }
        self.items.insert(position, item);
        proof {
            let after = self.items@;
            before.insert_ensures(position as int, item);
            assert forall|i: int, j: int| 0 <= i < j < after.len() implies (
            #[trigger] after[i]).before(#[trigger] after[j]) by {
                if i < position {
                    assert(after[i] == before[i]);
                } else if i > position {
                    assert(after[i] == before[i - 1]);
                }
                if j < position {
                    assert(after[j] == before[j]);
                } else if j > position {
                    assert(after[j] == before[j - 1]);
                }
                if i < position && j > position {
                    assert(before[i].before(before[j - 1]));
                }
                if i > position {
                    assert(before[i - 1].before(before[j - 1]));
                }
            }
            assert forall|other: Item| after.to_set().contains(other) <==> before.to_set().insert(
                item,
            ).contains(other) by {
                if after.contains(other) {
                    let i = choose|i: int| 0 <= i < after.len() && after[i] == other;
                    if i < position {
                        assert(before[i] == other);
                    } else if i > position {
                        assert(before[i - 1] == other);
                    }
                }
                if before.contains(other) {
                    let i = choose|i: int| 0 <= i < before.len() && before[i] == other;
                    if i < position {
                        assert(after[i] == other);
                    } else {
                        assert(after[i + 1] == other);
                    }
                }
                if other == item {
                    assert(after[position as int] == other);
                }
            }
            assert(self@ =~= old(self)@.insert(item));
            assert(self.items@.len() == self.items.len());
        }
        true
    }

    /// Whether the two sets hold the same items.
    pub fn equals(&self, other: &ItemSet) -> (same: bool)
        requires
            self.wf(),
            other.wf(),
        ensures
            same == (self@ == other@),
    {
        if self.items.len() != other.items.len() {
            proof {
                if self@ == other@ {
                    lemma_sorted_canonical(self.seq(), other.seq());
                }
            }
            return false;
        }
        let mut i: usize = 0;
        while i < self.items.len()
            invariant
                self.wf(),
                other.wf(),
                self.items@.len() == other.items@.len(),
                i <= self.items@.len(),
                forall|j: int| 0 <= j < i ==> self.items@[j] == other.items@[j],
            decreases self.items.len() - i,
        {
            if self.items[i] != other.items[i] {
                proof {
                    if self@ == other@ {
                        lemma_sorted_canonical(self.seq(), other.seq());
                    }
                }
                return false;
            }
            i += 1;
        }
        proof {
            assert(self.seq() =~= other.seq());
        }
        true
    }

    /// The set of the items of `items`.
    pub fn from_vec(items: &Vec<Item>) -> (set: ItemSet)
        ensures
            set.wf(),
            set@ == items@.to_set(),
    {
        let mut set = ItemSet::new();
        let mut i: usize = 0;
        while i < items.len()
            invariant
                set.wf(),
                i <= items.len(),
                set@ == items@.take(i as int).to_set(),
            decreases items.len() - i,
        {
            set.insert(items[i]);
            proof {
                let taken = items@.take(i as int);
                assert(items@.take(i + 1) =~= taken.push(items@[i as int]));
                taken.lemma_push_to_set_commute(items@[i as int]);
            }
            i += 1;
        }
        proof {
            assert(items@.take(i as int) =~= items@);
        }
        set
    }
}

} // verus!
