//! The compacted tables: the rows of the dense table laid over one another
//! in one array, with a check array that tells the rows apart.

use crate::grammar::{Grammar, GrammarView};
use crate::invariants::lemma_cell_wf;
use crate::symbols::SymbolId;
use crate::table::{Action, Tables};
use vstd::prelude::*;

verus! {

/// The mark of a slot of `yycheck` that belongs to no state.
pub const FREE: isize = -1;

/// The compacted tables.
///
/// `yyr1[p]` is the left-hand side of production `p` and `yyr2[p]` the
/// length of its right-hand side. The cell of state `i` in the column of
/// symbol `x` stands in slot `base[i] + x`: `yycheck` holds `i` there, and
/// `yytable` the target state of a shift or goto, the negated production of
/// a reduction, or 0 for the acceptance. A slot whose check is another
/// state's, or lies past the end, is an error cell.
pub struct Compact {
    pub yyr1: Vec<SymbolId>,
    pub yyr2: Vec<usize>,
    pub yytable: Vec<isize>,
    pub yycheck: Vec<isize>,
    pub base: Vec<usize>,
}

/// The mathematical value of [`Compact`].
pub struct CompactView {
    pub yyr1: Seq<SymbolId>,
    pub yyr2: Seq<usize>,
    pub yytable: Seq<isize>,
    pub yycheck: Seq<isize>,
    pub base: Seq<usize>,
}

impl View for Compact {
    type V = CompactView;

    open spec fn view(&self) -> CompactView {
        CompactView {
            yyr1: self.yyr1@,
            yyr2: self.yyr2@,
            yytable: self.yytable@,
            yycheck: self.yycheck@,
            base: self.base@,
        }
    }
}

/// What `yytable` holds for `action`.
pub open spec fn encode(action: Action) -> int {
    match action {
        Action::Shift(target) => target as int,
        Action::Goto(target) => target as int,
        Action::Reduce(rule) => -(rule as int),
        Action::Accept => 0,
        Action::Error => 0,
    }
}

/// The action that an entry of `yytable` stands for, in the column of a
/// terminal or of a non-terminal.
pub open spec fn decode(value: isize, terminal: bool) -> Action {
    if value > 0 {
        if terminal {
            Action::Shift(value as usize)
        } else {
            Action::Goto(value as usize)
        }
    } else if value < 0 {
        Action::Reduce((-value) as usize)
    } else {
        Action::Accept
    }
}

/// `action` can stand in `yytable`, in the column of a terminal or of a
/// non-terminal, and be read back.
pub open spec fn encodable(action: Action, terminal: bool) -> bool {
    match action {
        Action::Shift(target) => terminal && 1 <= target <= isize::MAX,
        Action::Goto(target) => !terminal && 1 <= target <= isize::MAX,
        Action::Reduce(rule) => 1 <= rule <= isize::MAX,
        Action::Accept => true,
        Action::Error => true,
    }
}

/// The cell of `state` in column `symbol`, read from the arrays with the
/// row of the state laid at `base`.
pub open spec fn read(
    yytable: Seq<isize>,
    yycheck: Seq<isize>,
    base: int,
    terminal: bool,
    state: int,
    symbol: int,
) -> Action {
    let slot = base + symbol;
    if 0 <= slot < yytable.len() && slot < yycheck.len() && yycheck[slot] == state {
        decode(yytable[slot], terminal)
    } else {
        Action::Error
    }
}

impl CompactView {
    /// The cell of `state` in the column of `symbol`, read from the
    /// compacted tables.
    pub open spec fn lookup(self, terminal: bool, state: int, symbol: int) -> Action {
        if 0 <= state < self.base.len() && 0 <= symbol {
            read(self.yytable, self.yycheck, self.base[state] as int, terminal, state, symbol)
        } else {
            Action::Error
        }
    }
}

/// The row `row` can be laid at `base`: none of its cells that is no error
/// falls on a slot that is taken.
pub open spec fn fits(row: Seq<Action>, yycheck: Seq<isize>, base: int) -> bool {
    forall|symbol: int|
        0 <= symbol < row.len() && (#[trigger] row[symbol]) != Action::Error && base + symbol
            < yycheck.len() ==> yycheck[base + symbol] == FREE
}

/// The first offset from `from` on at which `row` can be laid.
pub open spec fn first_fit(row: Seq<Action>, yycheck: Seq<isize>, from: int) -> int
    decreases yycheck.len() - from,
{
    if from >= yycheck.len() || fits(row, yycheck, from) {
        from
    } else {
        first_fit(row, yycheck, from + 1)
    }
}

/// The length of the arrays when a row of `width` cells is laid at `base`.
pub open spec fn laid_len(len: nat, base: int, width: nat) -> nat {
    if len >= base + width {
        len
    } else {
        (base + width) as nat
    }
}

/// `yycheck` after the row `row` of `state` is laid at `base`: the slots of
/// the cells that are no errors hold `state`, and new slots are free.
pub open spec fn laid_check(row: Seq<Action>, state: int, base: int, yycheck: Seq<isize>) -> Seq<
    isize,
> {
    Seq::new(
        laid_len(yycheck.len(), base, row.len()),
        |slot: int|
            if base <= slot < base + row.len() && row[slot - base] != Action::Error {
                state as isize
            } else if slot < yycheck.len() {
                yycheck[slot]
            } else {
                FREE
            },
    )
}

/// `yytable` after the row `row` is laid at `base`: the slots of the cells
/// that are no errors hold their entries, and new slots hold 0.
pub open spec fn laid_table(row: Seq<Action>, base: int, yytable: Seq<isize>) -> Seq<isize> {
    Seq::new(
        laid_len(yytable.len(), base, row.len()),
        |slot: int|
            if base <= slot < base + row.len() && row[slot - base] != Action::Error {
                encode(row[slot - base]) as isize
            } else if slot < yytable.len() {
                yytable[slot]
            } else {
                0isize
            },
    )
}

/// The three arrays of the layout.
pub struct Layout {
    pub yytable: Seq<isize>,
    pub yycheck: Seq<isize>,
    pub base: Seq<usize>,
}

/// The layout of the first `upto` rows of `dense`: each row is laid, in the
/// order of the states, at the first offset at which it fits.
pub open spec fn layout(dense: Seq<Seq<Action>>, upto: int) -> Layout
    decreases upto,
{
    if upto <= 0 {
        Layout { yytable: Seq::empty(), yycheck: Seq::empty(), base: Seq::empty() }
    } else {
        let earlier = layout(dense, upto - 1);
        let row = dense[upto - 1];
        let offset = first_fit(row, earlier.yycheck, 0);
        Layout {
            yytable: laid_table(row, offset, earlier.yytable),
            yycheck: laid_check(row, upto - 1, offset, earlier.yycheck),
            base: earlier.base.push(offset as usize),
        }
    }
}

impl GrammarView {
    /// The compacted tables of the dense table `dense` of this grammar.
    pub open spec fn compacted(self, dense: Seq<Seq<Action>>) -> CompactView {
        let laid = layout(dense, dense.len() as int);
        CompactView {
            yyr1: Seq::new(self.productions.len(), |rule: int| self.productions[rule].lhs),
            yyr2: Seq::new(
                self.productions.len(),
                |rule: int| self.productions[rule].rhs.len() as usize,
            ),
            yytable: laid.yytable,
            yycheck: laid.yycheck,
            base: laid.base,
        }
    }
}

/// The cell of `state` in column `symbol` is entered: a cell that is no
/// error stands in its slot, and the slot of an error cell is not the
/// state's.
pub open spec fn entered(
    row: Seq<Action>,
    yytable: Seq<isize>,
    yycheck: Seq<isize>,
    base: int,
    state: int,
    symbol: int,
) -> bool {
    let slot = base + symbol;
    if row[symbol] != Action::Error {
        slot < yytable.len() && slot < yycheck.len() && yycheck[slot] == state && yytable[slot]
            == encode(row[symbol])
    } else {
        !(slot < yycheck.len() && yycheck[slot] == state)
    }
}

/// An action that can stand in `yytable` is read back as it was entered.
pub proof fn lemma_decode_encode(action: Action, terminal: bool)
    requires
        encodable(action, terminal),
        action != Action::Error,
    ensures
        -isize::MAX <= encode(action) <= isize::MAX,
        decode(encode(action) as isize, terminal) == action,
{
}

/// What `yytable` holds for `action`.
fn encode_action(action: Action) -> (value: isize)
    requires
        exists|terminal: bool| encodable(action, terminal),
    ensures
        value == encode(action),
{
    match action {
        Action::Shift(target) => target as isize,
        Action::Goto(target) => target as isize,
        Action::Reduce(rule) => -(rule as isize),
        Action::Accept => 0,
        Action::Error => 0,
    }
}

/// Whether `row` can be laid at `base`.
fn row_fits(row: &Vec<Action>, yycheck: &Vec<isize>, base: usize) -> (free: bool)
    requires
        base + row@.len() <= usize::MAX,
    ensures
        free == fits(row@, yycheck@, base as int),
{
    let mut symbol: usize = 0;
    while symbol < row.len()
        invariant
            base + row@.len() <= usize::MAX,
            symbol <= row@.len(),
            forall|x: int|
                0 <= x < symbol && (#[trigger] row@[x]) != Action::Error && base + x
                    < yycheck@.len() ==> yycheck@[base + x] == FREE,
        decreases row.len() - symbol,
    {
        if row[symbol] != Action::Error && base + symbol < yycheck.len() && yycheck[base + symbol]
            != FREE {
            return false;
        }
        symbol += 1;
    }
    true
}

/// `yycheck` while a row is laid: the first `upto` cells of the row are
/// entered.
pub open spec fn partly_laid_check(
    row: Seq<Action>,
    state: int,
    base: int,
    yycheck: Seq<isize>,
    upto: int,
) -> Seq<isize> {
    Seq::new(
        yycheck.len(),
        |slot: int|
            if base <= slot < base + upto && row[slot - base] != Action::Error {
                state as isize
            } else {
                yycheck[slot]
            },
    )
}

/// `yytable` while a row is laid: the first `upto` cells of the row are
/// entered.
pub open spec fn partly_laid_table(
    row: Seq<Action>,
    base: int,
    yytable: Seq<isize>,
    upto: int,
) -> Seq<isize> {
    Seq::new(
        yytable.len(),
        |slot: int|
            if base <= slot < base + upto && row[slot - base] != Action::Error {
                encode(row[slot - base]) as isize
            } else {
                yytable[slot]
            },
    )
}

/// Lays `row`, the row of `state`, at `base`.
fn place_row(
    row: &Vec<Action>,
    state: usize,
    base: usize,
    yytable: &mut Vec<isize>,
    yycheck: &mut Vec<isize>,
    Ghost(terminals): Ghost<Seq<bool>>,
)
    requires
        base + row@.len() <= usize::MAX,
        state <= isize::MAX,
        terminals.len() == row@.len(),
        forall|x: int| 0 <= x < row@.len() ==> encodable(#[trigger] row@[x], terminals[x]),
        old(yytable)@.len() == old(yycheck)@.len(),
    ensures
        final(yytable)@ == laid_table(row@, base as int, old(yytable)@),
        final(yycheck)@ == laid_check(row@, state as int, base as int, old(yycheck)@),
{
    let ghost table_before = yytable@;
    let ghost check_before = yycheck@;
    let width = row.len();
    while yytable.len() < base + width
        invariant
            base + width <= usize::MAX,
            yytable@.len() == yycheck@.len(),
            check_before.len() == table_before.len(),
            check_before.len() <= yycheck@.len(),
            yycheck@.len() <= base + width || yycheck@.len() == check_before.len(),
            forall|slot: int|
                0 <= slot < check_before.len() ==> (#[trigger] yycheck@[slot]) == check_before[slot],
            forall|slot: int|
                0 <= slot < check_before.len() ==> (#[trigger] yytable@[slot]) == table_before[slot],
            forall|slot: int|
                check_before.len() <= slot < yycheck@.len() ==> (#[trigger] yycheck@[slot]) == FREE,
            forall|slot: int|
                check_before.len() <= slot < yytable@.len() ==> (#[trigger] yytable@[slot]) == 0,
        decreases base + width - yytable.len(),
    {
        yytable.push(0);
        yycheck.push(FREE);
    }
    let ghost table_grown = yytable@;
    let ghost check_grown = yycheck@;
    let mut symbol: usize = 0;
    proof {
        assert(yycheck@ =~= partly_laid_check(row@, state as int, base as int, check_grown, 0));
        assert(yytable@ =~= partly_laid_table(row@, base as int, table_grown, 0));
    }
    while symbol < width
        invariant
            base + width <= usize::MAX,
            state <= isize::MAX,
            width == row@.len(),
            terminals.len() == row@.len(),
            forall|x: int| 0 <= x < row@.len() ==> encodable(#[trigger] row@[x], terminals[x]),
            symbol <= width,
            table_grown.len() == check_grown.len(),
            base + width <= check_grown.len(),
            yycheck@ == partly_laid_check(
                row@,
                state as int,
                base as int,
                check_grown,
                symbol as int,
            ),
            yytable@ == partly_laid_table(row@, base as int, table_grown, symbol as int),
        decreases width - symbol,
    {
        let action = row[symbol];
        if action != Action::Error {
            proof {
                assert(encodable(row@[symbol as int], terminals[symbol as int]));
            }
            let value = encode_action(action);
            yytable.set(base + symbol, value);
            yycheck.set(base + symbol, state as isize);
        }
        proof {
            assert(yycheck@ =~= partly_laid_check(
                row@,
                state as int,
                base as int,
                check_grown,
                symbol + 1,
            ));
            assert(yytable@ =~= partly_laid_table(row@, base as int, table_grown, symbol + 1));
        }
        symbol += 1;
    }
    proof {
        assert(yycheck@ =~= laid_check(row@, state as int, base as int, check_before));
        assert(yytable@ =~= laid_table(row@, base as int, table_before));
    }
}

/// A row that is laid where it fits is entered, and no row that was
/// entered before is disturbed.
pub proof fn lemma_laid(
    row: Seq<Action>,
    state: int,
    base: int,
    yytable: Seq<isize>,
    yycheck: Seq<isize>,
)
    requires
        0 <= base,
        0 <= state,
        yytable.len() == yycheck.len(),
        fits(row, yycheck, base),
        forall|slot: int| 0 <= slot < yycheck.len() ==> (#[trigger] yycheck[slot]) != state,
        forall|x: int|
            0 <= x < row.len() ==> -isize::MAX <= encode(#[trigger] row[x]) <= isize::MAX,
        state <= isize::MAX,
    ensures
        forall|x: int|
            0 <= x < row.len() ==> #[trigger] entered(
                row,
                laid_table(row, base, yytable),
                laid_check(row, state, base, yycheck),
                base,
                state,
                x,
            ),
        forall|other: Seq<Action>, place: int, earlier: int, x: int|
            0 <= x < other.len() && 0 <= place && 0 <= earlier && earlier != state
                && #[trigger] entered(other, yytable, yycheck, place, earlier, x) ==> entered(
                other,
                laid_table(row, base, yytable),
                laid_check(row, state, base, yycheck),
                place,
                earlier,
                x,
            ),
        forall|slot: int|
            0 <= slot < laid_check(row, state, base, yycheck).len() ==> (#[trigger] laid_check(
                row,
                state,
                base,
                yycheck,
            )[slot]) == state || laid_check(row, state, base, yycheck)[slot] == FREE || (slot
                < yycheck.len() && laid_check(row, state, base, yycheck)[slot] == yycheck[slot]),
{
    let table = laid_table(row, base, yytable);
    let check = laid_check(row, state, base, yycheck);
    assert forall|other: Seq<Action>, place: int, earlier: int, x: int|
        0 <= x < other.len() && 0 <= place && 0 <= earlier && earlier != state
            && #[trigger] entered(other, yytable, yycheck, place, earlier, x) implies entered(
        other,
        table,
        check,
        place,
        earlier,
        x,
    ) by {
        let slot = place + x;
        if other[x] != Action::Error {
            assert(yycheck[slot] == earlier);
            if base <= slot < base + row.len() && row[slot - base] != Action::Error {
                assert(yycheck[base + (slot - base)] == FREE);
            }
        }
    }
}

impl Compact {
    /// The cell of `state` in the column of `symbol`, read from the
    /// compacted tables: the entry of `yytable` at `base[state] + symbol`
    /// where `yycheck` holds `state` there, and an error elsewhere.
    pub fn lookup(&self, grammar: &Grammar, state: usize, symbol: SymbolId) -> (action: Action)
        ensures
            action == self@.lookup(grammar@.is_terminal(symbol), state as int, symbol as int),
    {
        if state >= self.base.len() {
            return Action::Error;
        }
        let slot = match self.base[state].checked_add(symbol) {
            Some(slot) => slot,
            None => {
                proof {
                    assert(self.yytable@.len() == self.yytable.len());
                }
                return Action::Error;
            },
        };
        if slot >= self.yytable.len() || slot >= self.yycheck.len() {
            return Action::Error;
        }
        let check = self.yycheck[slot];
        if check < 0 || check as usize != state {
            return Action::Error;
        }
        let value = self.yytable[slot];
        if value > 0 {
            if grammar.is_terminal(symbol) {
                Action::Shift(value as usize)
            } else {
                Action::Goto(value as usize)
            }
        } else if value < 0 {
            Action::Reduce((-(value + 1)) as usize + 1)
        } else {
            Action::Accept
        }
    }
}

impl Grammar {
    /// Compacts the dense table of `tables`. Each row is laid at the first
    /// offset at which its cells that are no errors fall on free slots, the
    /// rows in the order of the states. Reading the compacted tables gives
    /// back every cell of the dense table.
    pub fn compact(&self, tables: &Tables) -> (compact: Compact)
        requires
            self.wf(),
            self@.canonical_collection(tables@.automaton),
            self@.dense(tables@.automaton, tables@.actions, tables@.prefer_reduce),
            tables@.actions.len() <= isize::MAX,
            self@.productions.len() <= isize::MAX,
            tables@.actions.len() * self@.symbols.len() <= usize::MAX,
        ensures
            compact@ == self@.compacted(tables@.actions),
            compact@.yyr1.len() == self@.productions.len(),
            compact@.yyr2.len() == self@.productions.len(),
            forall|rule: int|
                0 <= rule < self@.productions.len() ==> (#[trigger] compact@.yyr1[rule])
                    == self@.productions[rule].lhs && compact@.yyr2[rule]
                    == self@.productions[rule].rhs.len(),
            compact@.base.len() == tables@.actions.len(),
            compact@.yytable.len() == compact@.yycheck.len(),
            forall|state: int, symbol: int|
                0 <= state < tables@.actions.len() && 0 <= symbol < self@.symbols.len()
                    ==> #[trigger] compact@.lookup(
                    self@.is_terminal(symbol as usize),
                    state,
                    symbol,
                ) == tables@.actions[state][symbol],
    {
        let ghost grammar = self@;
        let ghost dense = tables@.actions;
        let rules = self.num_rules();
        let mut yyr1: Vec<SymbolId> = Vec::new();
        let mut yyr2: Vec<usize> = Vec::new();
        let mut rule: usize = 0;
        while rule < rules
            invariant
                grammar == self@,
                rules == grammar.productions.len(),
                rule <= rules,
                yyr1@.len() == rule,
                yyr2@.len() == rule,
                forall|r: int|
                    0 <= r < rule ==> (#[trigger] yyr1@[r]) == grammar.productions[r].lhs,
                forall|r: int|
                    0 <= r < rule ==> (#[trigger] yyr2@[r]) == grammar.productions[r].rhs.len(),
            decreases rules - rule,
        {
            let production = self.production(rule);
            yyr1.push(production.lhs);
            yyr2.push(production.rhs.len());
            proof {
                assert(production@ == grammar.productions[rule as int]);
                assert(production.rhs@.len() == grammar.productions[rule as int].rhs.len());
            }
            rule += 1;
        }
        let count = self.num_symbols();
        let states = tables.actions.len();
        let ghost terminals = Seq::new(count as nat, |x: int| grammar.is_terminal(x as usize));
        proof {
            assert forall|state: int, x: int|
                0 <= state < states && 0 <= x < count implies encodable(
                #[trigger] dense[state][x],
                terminals[x],
            ) by {
                lemma_cell_wf(grammar, tables@.automaton, state, x as usize, tables@.prefer_reduce);
            }
        }
        let mut yytable: Vec<isize> = Vec::new();
        let mut yycheck: Vec<isize> = Vec::new();
        let mut base: Vec<usize> = Vec::new();
        let mut state: usize = 0;
        while state < states
            invariant
                self.wf(),
                grammar == self@,
                dense == tables@.actions,
                count == grammar.symbols.len(),
                states == dense.len(),
                states <= isize::MAX,
                states * count <= usize::MAX,
                terminals.len() == count,
                forall|i: int| 0 <= i < states ==> (#[trigger] dense[i]).len() == count,
                forall|i: int, x: int|
                    0 <= i < states && 0 <= x < count ==> encodable(
                        #[trigger] dense[i][x],
                        terminals[x],
                    ),
                state <= states,
                base@.len() == state,
                yytable@.len() == yycheck@.len(),
                yycheck@.len() <= state * count,
                layout(dense, state as int) == (Layout {
                    yytable: yytable@,
                    yycheck: yycheck@,
                    base: base@,
                }),
                forall|slot: int|
                    0 <= slot < yycheck@.len() ==> (#[trigger] yycheck@[slot]) == FREE || 0
                        <= yycheck@[slot] < state,
                forall|i: int, x: int|
                    0 <= i < state && 0 <= x < count ==> #[trigger] entered(
                        dense[i],
                        yytable@,
                        yycheck@,
                        base@[i] as int,
                        i,
                        x,
                    ),
            decreases states - state,
        {
            let row = &tables.actions[state];
            proof {
                assert(row@ == dense[state as int]);
                assert((state + 1) * count <= states * count) by (nonlinear_arith)
                    requires
                        state < states,
                        count >= 0,
                ;
                assert((state + 1) * count == state * count + count) by (nonlinear_arith);
            }
            let mut offset: usize = 0;
            loop
                invariant
                    offset <= yycheck@.len(),
                    yycheck@.len() + count <= usize::MAX,
                    row@.len() == count,
                    first_fit(row@, yycheck@, 0) == first_fit(row@, yycheck@, offset as int),
                ensures
                    offset <= yycheck@.len(),
                    fits(row@, yycheck@, offset as int),
                    first_fit(row@, yycheck@, 0) == offset,
                decreases yycheck@.len() - offset,
            {
                if offset >= yycheck.len() || row_fits(row, &yycheck, offset) {
                    break ;
                }
                offset += 1;
            }
            let ghost table_before = yytable@;
            let ghost check_before = yycheck@;
            let ghost base_before = base@;
            place_row(row, state, offset, &mut yytable, &mut yycheck, Ghost(terminals));
            base.push(offset);
            proof {
                assert forall|x: int| 0 <= x < row@.len() implies -isize::MAX <= encode(
                    #[trigger] row@[x],
                ) <= isize::MAX by {
                    assert(encodable(dense[state as int][x], terminals[x]));
                }
                lemma_laid(row@, state as int, offset as int, table_before, check_before);
                assert forall|i: int, x: int| 0 <= i < state + 1 && 0 <= x < count implies #[trigger] entered(
                    dense[i],
                    yytable@,
                    yycheck@,
                    base@[i] as int,
                    i,
                    x,
                ) by {
                    if i < state {
                        assert(entered(
                            dense[i],
                            table_before,
                            check_before,
                            base_before[i] as int,
                            i,
                            x,
                        ));
                    }
                }
                assert forall|slot: int| 0 <= slot < yycheck@.len() implies (
                #[trigger] yycheck@[slot]) == FREE || 0 <= yycheck@[slot] < state + 1 by {
                    let laid = laid_check(row@, state as int, offset as int, check_before);
                    assert(laid[slot] == state || laid[slot] == FREE || (slot < check_before.len()
                        && laid[slot] == check_before[slot]));
                }
            }
            state += 1;
        }
        let compact = Compact { yyr1, yyr2, yytable, yycheck, base };
        proof {
            assert(compact@.yyr1 =~= grammar.compacted(dense).yyr1);
            assert(compact@.yyr2 =~= grammar.compacted(dense).yyr2);
            assert forall|i: int, x: int|
                0 <= i < dense.len() && 0 <= x < grammar.symbols.len() implies #[trigger] compact@.lookup(
                grammar.is_terminal(x as usize),
                i,
                x,
            ) == dense[i][x] by {
                assert(entered(dense[i], compact@.yytable, compact@.yycheck, compact@.base[i] as int, i, x));
                assert(encodable(dense[i][x], terminals[x]));
                if dense[i][x] != Action::Error {
                    lemma_decode_encode(dense[i][x], grammar.is_terminal(x as usize));
                }
            }
        }
        compact
    }
}

} // verus!
