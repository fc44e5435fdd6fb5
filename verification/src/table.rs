//! The table emitter: the dense action and goto table of an automaton, and
//! the conflicts that it resolves.

use crate::automaton::{increasing, lists, successor, Automaton, AutomatonView};
use crate::error::GrammarError;
use crate::grammar::{Grammar, GrammarView, RuleId};
use crate::item::{listing, Item, ItemSet};
use crate::symbols::SymbolId;
use vstd::prelude::*;

verus! {

/// A cell of the table. The columns of terminals hold the parser's
/// actions; the columns of non-terminals hold its gotos.
#[derive(Clone, Copy, Debug, PartialEq, Eq, Hash, Structural)]
pub enum Action {
    /// No action: a syntax error.
    Error,
    /// Consume the terminal and enter the state.
    Shift(usize),
    /// Reduce by the production.
    Reduce(RuleId),
    /// Reduce by production 0 at the end of input: the input is accepted.
    Accept,
    /// After a reduction to the non-terminal, enter the state.
    Goto(usize),
}

/// Two actions that compete for one cell. The cell holds `kept`; `dropped`
/// is the action that gave way.
#[derive(Clone, Copy, Debug, PartialEq, Eq, Hash, Structural)]
pub struct Conflict {
    pub state: usize,
    pub terminal: SymbolId,
    pub kept: Action,
    pub dropped: Action,
}

/// What the generator emits: the automaton, its dense table, with a row
/// for every state and a column for every symbol, and the conflicts that
/// the table resolves.
///
/// `prefer_reduce` says how the table resolves a shift and a reduction that
/// compete for a cell: by default the shift is kept.
pub struct Tables {
    pub automaton: Automaton,
    pub actions: Vec<Vec<Action>>,
    pub conflicts: Vec<Conflict>,
    pub prefer_reduce: bool,
}

/// The mathematical value of [`Tables`].
pub struct TablesView {
    pub automaton: AutomatonView,
    pub actions: Seq<Seq<Action>>,
    pub conflicts: Seq<Conflict>,
    pub prefer_reduce: bool,
}

impl View for Tables {
    type V = TablesView;

    open spec fn view(&self) -> TablesView {
        TablesView {
            automaton: self.automaton@,
            actions: self.actions@.map_values(|row: Vec<Action>| row@),
            conflicts: self.conflicts@,
            prefer_reduce: self.prefer_reduce,
        }
    }
}

/// The diagnostic for `conflict`: a shift/reduce conflict where one of the
/// two actions is a shift, a reduce/reduce conflict in every other case.
pub open spec fn diagnostic(conflict: Conflict) -> GrammarError {
    if conflict.kept is Shift || conflict.dropped is Shift {
        GrammarError::ShiftReduceConflict { state: conflict.state, terminal: conflict.terminal }
    } else {
        GrammarError::ReduceReduceConflict { state: conflict.state, terminal: conflict.terminal }
    }
}

impl Tables {
    /// The conflicts of the tables as diagnostics, in the order of the
    /// conflict report.
    pub fn diagnostics(&self) -> (errors: Vec<GrammarError>)
        ensures
            errors@ == self@.conflicts.map_values(|conflict: Conflict| diagnostic(conflict)),
    {
        let mut errors: Vec<GrammarError> = Vec::new();
        let mut i: usize = 0;
        while i < self.conflicts.len()
            invariant
                i <= self.conflicts@.len(),
                errors@ == self.conflicts@.take(i as int).map_values(
                    |conflict: Conflict| diagnostic(conflict),
                ),
            decreases self.conflicts.len() - i,
        {
            let conflict = self.conflicts[i];
            let error = match (conflict.kept, conflict.dropped) {
                (Action::Shift(_), _) => GrammarError::ShiftReduceConflict {
                    state: conflict.state,
                    terminal: conflict.terminal,
                },
                (_, Action::Shift(_)) => GrammarError::ShiftReduceConflict {
                    state: conflict.state,
                    terminal: conflict.terminal,
                },
                _ => GrammarError::ReduceReduceConflict {
                    state: conflict.state,
                    terminal: conflict.terminal,
                },
            };
            errors.push(error);
            proof {
                assert(errors@ =~= self.conflicts@.take(i + 1).map_values(
                    |conflict: Conflict| diagnostic(conflict),
                ));
            }
            i += 1;
        }
        proof {
            assert(self.conflicts@.take(i as int) =~= self.conflicts@);
        }
        errors
    }
}

/// The action of a completed item of production `rule`: production 0
/// accepts, every other production reduces.
pub open spec fn reduction(rule: RuleId) -> Action {
    if rule == 0 {
        Action::Accept
    } else {
        Action::Reduce(rule)
    }
}

impl GrammarView {
    /// `item` is a completed item of production `rule` with the lookahead
    /// `terminal`.
    pub open spec fn reduces_by(self, item: Item, rule: RuleId, terminal: SymbolId) -> bool {
        self.completed(item) && item.rule == rule && item.lookahead == terminal
    }

    /// `items` holds a completed item of production `rule` with the
    /// lookahead `terminal`.
    pub open spec fn reduces(self, items: Set<Item>, rule: RuleId, terminal: SymbolId) -> bool {
        exists|item: Item| items.contains(item) && #[trigger] self.reduces_by(item, rule, terminal)
    }

    /// `rule` is the lowest-numbered production of which `items` holds a
    /// completed item with the lookahead `terminal`.
    pub open spec fn least_reduction(
        self,
        items: Set<Item>,
        terminal: SymbolId,
        rule: RuleId,
    ) -> bool {
        &&& self.reduces(items, rule, terminal)
        &&& forall|other: RuleId| other < rule ==> !#[trigger] self.reduces(items, other, terminal)
    }

    /// What the transitions `row` of a state put into the column of
    /// `symbol`: a shift for a terminal, a goto for a non-terminal.
    pub open spec fn transition_cell(self, row: Seq<(SymbolId, usize)>, symbol: SymbolId) -> Action {
        match successor(row, symbol) {
            Some(target) => if self.is_terminal(symbol) {
                Action::Shift(target)
            } else {
                Action::Goto(target)
            },
            None => Action::Error,
        }
    }

    /// The cell of the state with the items `items` and the transitions
    /// `row`, in the column of `symbol`.
    ///
    /// The column of a terminal holds the shift of the state on the
    /// terminal, or the reduction by the lowest-numbered production that is
    /// completed with this lookahead. Where the state has both, the shift
    /// is kept, unless `prefer_reduce` asks for the reduction. The column
    /// of a non-terminal holds the goto of the state. Every other cell is
    /// an error.
    pub open spec fn cell(
        self,
        items: Set<Item>,
        row: Seq<(SymbolId, usize)>,
        symbol: SymbolId,
        prefer_reduce: bool,
    ) -> Action {
        if self.is_terminal(symbol) && (successor(row, symbol) is None || prefer_reduce) && exists|
            rule: RuleId,
        |
            self.least_reduction(items, symbol, rule) {
            reduction(choose|rule: RuleId| self.least_reduction(items, symbol, rule))
        } else {
            self.transition_cell(row, symbol)
        }
    }

    /// The action that gave way where `item` is completed: the reduction of
    /// `item`, where the cell holds another action, or the shift over which
    /// the reduction of `item` was preferred.
    pub open spec fn gave_way(
        self,
        items: Set<Item>,
        row: Seq<(SymbolId, usize)>,
        item: Item,
        prefer_reduce: bool,
    ) -> Option<Action> {
        if self.completed(item) && self.is_terminal(item.lookahead) {
            if self.cell(items, row, item.lookahead, prefer_reduce) != reduction(item.rule) {
                Some(reduction(item.rule))
            } else {
                match successor(row, item.lookahead) {
                    Some(target) => Some(Action::Shift(target)),
                    None => None,
                }
            }
        } else {
            None
        }
    }

    /// The conflicts of a state among the first `upto` items of `listed`,
    /// in the order of the items.
    pub open spec fn conflicts_among(
        self,
        listed: Seq<Item>,
        items: Set<Item>,
        row: Seq<(SymbolId, usize)>,
        state: usize,
        upto: int,
        prefer_reduce: bool,
    ) -> Seq<Conflict>
        decreases upto,
    {
        if upto <= 0 {
            Seq::empty()
        } else {
            let earlier = self.conflicts_among(listed, items, row, state, upto - 1, prefer_reduce);
            let item = listed[upto - 1];
            match self.gave_way(items, row, item, prefer_reduce) {
                Some(dropped) => earlier.push(
                    Conflict {
                        state,
                        terminal: item.lookahead,
                        kept: self.cell(items, row, item.lookahead, prefer_reduce),
                        dropped,
                    },
                ),
                None => earlier,
            }
        }
    }

    /// The conflicts of the state with the items `items` and the
    /// transitions `row`: one for every completed item at which an action
    /// gave way, in the order of the items.
    pub open spec fn state_conflicts(
        self,
        items: Set<Item>,
        row: Seq<(SymbolId, usize)>,
        state: usize,
        prefer_reduce: bool,
    ) -> Seq<Conflict> {
        self.conflicts_among(
            listing(items),
            items,
            row,
            state,
            listing(items).len() as int,
            prefer_reduce,
        )
    }

    /// The conflicts of the first `count` states of `automaton`, state by
    /// state.
    pub open spec fn conflicts_upto(
        self,
        automaton: AutomatonView,
        count: int,
        prefer_reduce: bool,
    ) -> Seq<Conflict>
        decreases count,
    {
        if count <= 0 {
            Seq::empty()
        } else {
            self.conflicts_upto(automaton, count - 1, prefer_reduce) + self.state_conflicts(
                automaton.states[count - 1],
                automaton.transitions[count - 1],
                (count - 1) as usize,
                prefer_reduce,
            )
        }
    }

    /// The conflict report of `automaton`.
    pub open spec fn conflicts(self, automaton: AutomatonView, prefer_reduce: bool) -> Seq<
        Conflict,
    > {
        self.conflicts_upto(automaton, automaton.states.len() as int, prefer_reduce)
    }

    /// `tables` is what the generator emits for this grammar: the
    /// canonical collection, its dense table and its conflict report.
    pub open spec fn emits(self, tables: TablesView) -> bool {
        &&& self.canonical_collection(tables.automaton)
        &&& self.dense(tables.automaton, tables.actions, tables.prefer_reduce)
        &&& tables.conflicts == self.conflicts(tables.automaton, tables.prefer_reduce)
    }

    /// `actions` is the dense table of `automaton`: a row for every state,
    /// a column for every symbol, and in each cell what `cell` says.
    pub open spec fn dense(
        self,
        automaton: AutomatonView,
        actions: Seq<Seq<Action>>,
        prefer_reduce: bool,
    ) -> bool {
        &&& actions.len() == automaton.states.len()
        &&& forall|state: int|
            0 <= state < actions.len() ==> (#[trigger] actions[state]).len() == self.symbols.len()
        &&& forall|state: int, symbol: int|
            0 <= state < actions.len() && 0 <= symbol < self.symbols.len() ==> (
            #[trigger] actions[state][symbol]) == self.cell(
                automaton.states[state],
                automaton.transitions[state],
                symbol as usize,
                prefer_reduce,
            )
    }
}

/// A symbol has one transition in a list in increasing order of symbols.
pub proof fn lemma_successor(row: Seq<(SymbolId, usize)>, k: int)
    requires
        increasing(row),
        0 <= k < row.len(),
    ensures
        successor(row, row[k].0) == Some(row[k].1),
{
    assert(lists(row, row[k].0));
    let m = choose|m: int| 0 <= m < row.len() && (#[trigger] row[m]).0 == row[k].0;
    if m < k {
        assert(row[m].0 < row[k].0);
    }
    if k < m {
        assert(row[k].0 < row[m].0);
    }
}

/// Only one production is the lowest-numbered one with a completed item.
pub proof fn lemma_least_reduction_unique(
    grammar: GrammarView,
    items: Set<Item>,
    terminal: SymbolId,
    left: RuleId,
    right: RuleId,
)
    requires
        grammar.least_reduction(items, terminal, left),
        grammar.least_reduction(items, terminal, right),
    ensures
        left == right,
{
}

/// A symbol that stands after a dot is a symbol of the caller's own.
pub proof fn lemma_follows_dot_symbol(grammar: GrammarView, items: Set<Item>, symbol: SymbolId)
    requires
        grammar.wf(),
        grammar.follows_dot(items, symbol),
    ensures
        symbol < grammar.symbols.len(),
        symbol != crate::symbols::END_OF_INPUT,
        symbol != crate::symbols::AUGMENTED_START,
{
    let item = choose|item: Item|
        items.contains(item) && #[trigger] grammar.next_symbol(item) == Some(symbol);
    assert(grammar.production_wf(item.rule as int));
}

impl GrammarView {
    /// Item `k` of `listed` is completed with the lookahead `terminal`.
    pub open spec fn reduces_at(self, listed: Seq<Item>, k: int, terminal: SymbolId) -> bool {
        self.completed(listed[k]) && listed[k].lookahead == terminal
    }

    /// `action` is what the column of `symbol` holds when the transitions
    /// and the first `upto` items of `listed` have been entered.
    pub open spec fn scanned(
        self,
        listed: Seq<Item>,
        items: Set<Item>,
        row: Seq<(SymbolId, usize)>,
        upto: int,
        symbol: SymbolId,
        action: Action,
        prefer_reduce: bool,
    ) -> bool {
        if self.is_terminal(symbol) && (successor(row, symbol) is None || prefer_reduce) && exists|
            k: int,
        |
            0 <= k < upto && #[trigger] self.reduces_at(listed, k, symbol) {
            &&& action == self.cell(items, row, symbol, prefer_reduce)
            &&& action != Action::Error
            &&& !(action is Shift)
        } else {
            action == self.transition_cell(row, symbol)
        }
    }
}

/// The first completed item with a lookahead, in the order of items,
/// belongs to the lowest-numbered production that is completed with it.
proof fn lemma_first_is_least(
    grammar: GrammarView,
    listed: Seq<Item>,
    at: int,
    terminal: SymbolId,
)
    requires
        crate::item::strictly_sorted(listed),
        0 <= at < listed.len(),
        grammar.reduces_at(listed, at, terminal),
        forall|k: int| 0 <= k < at ==> !#[trigger] grammar.reduces_at(listed, k, terminal),
    ensures
        grammar.least_reduction(listed.to_set(), terminal, listed[at].rule),
{
    let items = listed.to_set();
    let item = listed[at];
    assert(listed.contains(item));
    assert(grammar.reduces_by(item, item.rule, terminal));
    assert forall|other: RuleId| other < item.rule implies !#[trigger] grammar.reduces(
        items,
        other,
        terminal,
    ) by {
        if grammar.reduces(items, other, terminal) {
            let earlier = choose|earlier: Item|
                items.contains(earlier) && #[trigger] grammar.reduces_by(earlier, other, terminal);
            let k = choose|k: int| 0 <= k < listed.len() && listed[k] == earlier;
            if k > at {
                assert(listed[at].before(listed[k]));
            }
            assert(grammar.reduces_at(listed, k, terminal));
        }
    }
}

/// A production that is completed with a lookahead is followed by the
/// lowest-numbered one that is.
proof fn lemma_cell_of_first(
    grammar: GrammarView,
    listed: Seq<Item>,
    row: Seq<(SymbolId, usize)>,
    at: int,
    terminal: SymbolId,
    prefer_reduce: bool,
)
    requires
        crate::item::strictly_sorted(listed),
        0 <= at < listed.len(),
        grammar.is_terminal(terminal),
        successor(row, terminal) is None || prefer_reduce,
        grammar.reduces_at(listed, at, terminal),
        forall|k: int| 0 <= k < at ==> !#[trigger] grammar.reduces_at(listed, k, terminal),
    ensures
        grammar.cell(listed.to_set(), row, terminal, prefer_reduce) == reduction(listed[at].rule),
{
    lemma_first_is_least(grammar, listed, at, terminal);
    let least = choose|rule: RuleId| grammar.least_reduction(listed.to_set(), terminal, rule);
    lemma_least_reduction_unique(grammar, listed.to_set(), terminal, least, listed[at].rule);
}

/// The action of a completed item of production `rule`.
fn reduction_of(rule: RuleId) -> (action: Action)
    ensures
        action == reduction(rule),
{
    if rule == 0 {
        Action::Accept
    } else {
        Action::Reduce(rule)
    }
}

impl Grammar {
    /// The row of a state as its transitions alone fill it.
    fn transition_row(&self, row: &Vec<(SymbolId, usize)>) -> (actions: Vec<Action>)
        requires
            self.wf(),
            increasing(row@),
            forall|k: int| 0 <= k < row@.len() ==> (#[trigger] row@[k]).0 < self@.symbols.len(),
        ensures
            actions@.len() == self@.symbols.len(),
            forall|symbol: int|
                0 <= symbol < actions@.len() ==> (#[trigger] actions@[symbol])
                    == self@.transition_cell(row@, symbol as usize),
    {
        let count = self.num_symbols();
        let mut actions: Vec<Action> = Vec::new();
        let mut symbol: usize = 0;
        while symbol < count
            invariant
                symbol <= count,
                actions@.len() == symbol,
                forall|x: int| 0 <= x < symbol ==> (#[trigger] actions@[x]) == Action::Error,
            decreases count - symbol,
        {
            actions.push(Action::Error);
            symbol += 1;
        }
        let mut k: usize = 0;
        proof {
            assert(row@.take(0) =~= Seq::<(SymbolId, usize)>::empty());
        }
        while k < row.len()
            invariant
                self.wf(),
                count == self@.symbols.len(),
                increasing(row@),
                forall|m: int| 0 <= m < row@.len() ==> (#[trigger] row@[m]).0 < count,
                k <= row@.len(),
                actions@.len() == count,
                forall|x: int|
                    0 <= x < count ==> (#[trigger] actions@[x]) == self@.transition_cell(
                        row@.take(k as int),
                        x as usize,
                    ),
            decreases row.len() - k,
        {
            let symbol = row[k].0;
            let target = row[k].1;
            let action = if self.is_terminal(symbol) {
                Action::Shift(target)
            } else {
                Action::Goto(target)
            };
            let ghost before = actions@;
            actions.set(symbol, action);
            proof {
                let shorter = row@.take(k as int);
                let longer = row@.take(k + 1);
                assert(increasing(longer));
                assert(increasing(shorter));
                assert forall|x: int| 0 <= x < count implies (#[trigger] actions@[x])
                    == self@.transition_cell(longer, x as usize) by {
                    if x == symbol {
                        assert(longer[k as int] == row@[k as int]);
                        lemma_successor(longer, k as int);
                    } else {
                        assert(before[x] == self@.transition_cell(shorter, x as usize));
                        if lists(shorter, x as usize) {
                            let m = choose|m: int|
                                0 <= m < shorter.len() && (#[trigger] shorter[m]).0 == x as usize;
                            assert(longer[m] == shorter[m]);
                            lemma_successor(shorter, m);
                            lemma_successor(longer, m);
                        } else if lists(longer, x as usize) {
                            let m = choose|m: int|
                                0 <= m < longer.len() && (#[trigger] longer[m]).0 == x as usize;
                            assert(shorter[m] == longer[m]);
                        }
                    }
                }
            }
            k += 1;
        }
        proof {
            assert(row@.take(k as int) =~= row@);
        }
        actions
    }

    /// The row of the state with the items `items` and the transitions
    /// `row`. The conflicts of the state are appended to `conflicts`.
    pub fn emit_row(
        &self,
        items: &ItemSet,
        row: &Vec<(SymbolId, usize)>,
        state: usize,
        prefer_reduce: bool,
        conflicts: &mut Vec<Conflict>,
    ) -> (actions: Vec<Action>)
        requires
            self.wf(),
            items.wf(),
            increasing(row@),
            forall|k: int| 0 <= k < row@.len() ==> (#[trigger] row@[k]).0 < self@.symbols.len(),
        ensures
            actions@.len() == self@.symbols.len(),
            forall|symbol: int|
                0 <= symbol < actions@.len() ==> (#[trigger] actions@[symbol]) == self@.cell(
                    items@,
                    row@,
                    symbol as usize,
                    prefer_reduce,
                ),
            final(conflicts)@ == old(conflicts)@ + self@.state_conflicts(
                items@,
                row@,
                state,
                prefer_reduce,
            ),
    {
        let ghost grammar = self@;
        let ghost listed = items.seq();
        let ghost reported = conflicts@;
        let count = self.num_symbols();
        let shifts = self.transition_row(row);
        let mut actions = self.transition_row(row);
        proof {
            items.lemma_listing();
            assert(conflicts@ =~= reported + grammar.conflicts_among(
                listed,
                items@,
                row@,
                state,
                0,
                prefer_reduce,
            ));
        }
        let mut m: usize = 0;
        while m < items.len()
            invariant
                self.wf(),
                items.wf(),
                grammar == self@,
                listed == items.seq(),
                count == grammar.symbols.len(),
                m <= listed.len(),
                shifts@.len() == count,
                forall|x: int|
                    0 <= x < count ==> (#[trigger] shifts@[x]) == grammar.transition_cell(
                        row@,
                        x as usize,
                    ),
                actions@.len() == count,
                forall|x: int|
                    0 <= x < count ==> grammar.scanned(
                        listed,
                        items@,
                        row@,
                        m as int,
                        x as usize,
                        #[trigger] actions@[x],
                        prefer_reduce,
                    ),
                conflicts@ == reported + grammar.conflicts_among(
                    listed,
                    items@,
                    row@,
                    state,
                    m as int,
                    prefer_reduce,
                ),
            decreases items.seq().len() - m,
        {
            let item = items.get(m);
            let ghost before = actions@;
            let reduces = item.end(self) && self.is_terminal(item.lookahead);
            if reduces {
                let terminal = item.lookahead;
                let mine = reduction_of(item.rule);
                let current = actions[terminal];
                let shift = shifts[terminal];
                proof {
                    assert(grammar.reduces_at(listed, m as int, terminal));
                    assert(grammar.scanned(
                        listed,
                        items@,
                        row@,
                        m as int,
                        terminal,
                        current,
                        prefer_reduce,
                    ));
                    assert(shift == grammar.transition_cell(row@, terminal));
                    if (successor(row@, terminal) is None || prefer_reduce) && !(exists|k: int|
                        0 <= k < m && #[trigger] grammar.reduces_at(listed, k, terminal)) {
                        lemma_cell_of_first(
                            grammar,
                            listed,
                            row@,
                            m as int,
                            terminal,
                            prefer_reduce,
                        );
                    }
                }
                if current == Action::Error {
                    actions.set(terminal, mine);
                } else if current == shift {
                    if prefer_reduce {
                        actions.set(terminal, mine);
                        conflicts.push(Conflict { state, terminal, kept: mine, dropped: shift });
                    } else {
                        conflicts.push(Conflict { state, terminal, kept: shift, dropped: mine });
                    }
                } else if current != mine {
                    conflicts.push(Conflict { state, terminal, kept: current, dropped: mine });
                } else if shift != Action::Error {
                    conflicts.push(Conflict { state, terminal, kept: current, dropped: shift });
                }
            }
            proof {
                assert(conflicts@ =~= reported + grammar.conflicts_among(
                    listed,
                    items@,
                    row@,
                    state,
                    m + 1,
                    prefer_reduce,
                ));
                assert forall|x: int| 0 <= x < count implies grammar.scanned(
                    listed,
                    items@,
                    row@,
                    m + 1,
                    x as usize,
                    #[trigger] actions@[x],
                    prefer_reduce,
                ) by {
                    let symbol = x as usize;
                    assert(grammar.scanned(
                        listed,
                        items@,
                        row@,
                        m as int,
                        symbol,
                        before[x],
                        prefer_reduce,
                    ));
                    if grammar.is_terminal(symbol) && (successor(row@, symbol) is None
                        || prefer_reduce) {
                        if exists|k: int|
                            0 <= k < m && #[trigger] grammar.reduces_at(listed, k, symbol) {
                            let k = choose|k: int|
                                0 <= k < m && #[trigger] grammar.reduces_at(listed, k, symbol);
                            assert(0 <= k < m + 1);
                        } else if grammar.reduces_at(listed, m as int, symbol) {
                        } else {
                            if exists|k: int|
                                0 <= k < m + 1 && #[trigger] grammar.reduces_at(listed, k, symbol) {
                                let k = choose|k: int|
                                    0 <= k < m + 1 && #[trigger] grammar.reduces_at(
                                        listed,
                                        k,
                                        symbol,
                                    );
                                assert(k < m);
                            }
                        }
                    }
                }
            }
            m += 1;
        }
        proof {
            assert forall|x: int| 0 <= x < count implies (#[trigger] actions@[x]) == grammar.cell(
                items@,
                row@,
                x as usize,
                prefer_reduce,
            ) by {
                let symbol = x as usize;
                assert(grammar.scanned(
                    listed,
                    items@,
                    row@,
                    m as int,
                    symbol,
                    actions@[x],
                    prefer_reduce,
                ));
                if grammar.is_terminal(symbol) && (successor(row@, symbol) is None || prefer_reduce) {
                    if !(exists|k: int|
                        0 <= k < m && #[trigger] grammar.reduces_at(listed, k, symbol)) {
                        if exists|rule: RuleId| grammar.least_reduction(items@, symbol, rule) {
                            let rule = choose|rule: RuleId|
                                grammar.least_reduction(items@, symbol, rule);
                            let item = choose|item: Item|
                                items@.contains(item) && #[trigger] grammar.reduces_by(
                                    item,
                                    rule,
                                    symbol,
                                );
                            let k = choose|k: int| 0 <= k < listed.len() && listed[k] == item;
                            assert(grammar.reduces_at(listed, k, symbol));
                        }
                    }
                }
            }
        }
        actions
    }

    /// Emits the dense table of `automaton` and its conflict report. Of two
    /// reductions that compete for a cell the one by the lower-numbered
    /// production is kept; of a shift and a reduction the shift, unless
    /// `prefer_reduce` asks for the reduction.
    pub fn emit(&self, automaton: Automaton, prefer_reduce: bool) -> (tables: Tables)
        requires
            self.wf(),
            automaton.wf(),
            self@.canonical_collection(automaton@),
        ensures
            tables.automaton.wf(),
            tables@.automaton == automaton@,
            tables@.prefer_reduce == prefer_reduce,
            self@.emits(tables@),
    {
        let ghost grammar = self@;
        let ghost view = automaton@;
        let mut actions: Vec<Vec<Action>> = Vec::new();
        let mut conflicts: Vec<Conflict> = Vec::new();
        let mut state: usize = 0;
        while state < automaton.states.len()
            invariant
                self.wf(),
                automaton.wf(),
                grammar == self@,
                view == automaton@,
                grammar.canonical_collection(view),
                state <= automaton.states@.len(),
                actions@.len() == state,
                forall|i: int|
                    0 <= i < state ==> (#[trigger] actions@[i])@.len() == grammar.symbols.len(),
                forall|i: int, symbol: int|
                    0 <= i < state && 0 <= symbol < grammar.symbols.len() ==> (
                    #[trigger] actions@[i]@[symbol]) == grammar.cell(
                        view.states[i],
                        view.transitions[i],
                        symbol as usize,
                        prefer_reduce,
                    ),
                conflicts@ == grammar.conflicts_upto(view, state as int, prefer_reduce),
            decreases automaton.states.len() - state,
        {
            proof {
                let row = view.transitions[state as int];
                assert(grammar.row_wf(view.states, row, state as int));
                assert forall|k: int| 0 <= k < row.len() implies (#[trigger] row[k]).0
                    < grammar.symbols.len() by {
                    assert(grammar.discovers(view.states, state as int, row[k].0, row[k].1 as int));
                    lemma_follows_dot_symbol(grammar, view.states[state as int], row[k].0);
                }
            }
            let row = self.emit_row(
                &automaton.states[state],
                &automaton.transitions[state],
                state,
                prefer_reduce,
                &mut conflicts,
            );
            actions.push(row);
            state += 1;
        }
        let tables = Tables { automaton, actions, conflicts, prefer_reduce };
        proof {
            assert(grammar.dense(tables@.automaton, tables@.actions, prefer_reduce));
        }
        tables
    }
}

} // verus!
