//! Nullable symbols and FIRST sets.

use crate::grammar::{Grammar, GrammarView, RuleId};
use crate::symbols::SymbolId;
use vstd::prelude::*;

verus! {

impl GrammarView {
    /// Every symbol of `rhs` from `from` up to `to` derives the empty
    /// string by a derivation of height at most `height`.
    pub open spec fn span_nullable_within(
        self,
        rhs: Seq<SymbolId>,
        from: int,
        to: int,
        height: nat,
    ) -> bool
        decreases height, 1nat,
    {
        forall|i: int|
            from <= i < to && 0 <= i < rhs.len() ==> self.nullable_within(
                #[trigger] rhs[i],
                height,
            )
    }

    /// `symbol` derives the empty string by a derivation of height at most
    /// `height`: it heads a production all of whose right-hand-side symbols
    /// do so with less.
    pub open spec fn nullable_within(self, symbol: SymbolId, height: nat) -> bool
        decreases height, 0nat,
    {
        height > 0 && exists|rule: int|
            0 <= rule < self.productions.len() && (#[trigger] self.productions[rule]).lhs == symbol
                && self.span_nullable_within(
                self.productions[rule].rhs,
                0,
                self.productions[rule].rhs.len() as int,
                (height - 1) as nat,
            )
    }

    /// `symbol` derives the empty string.
    pub open spec fn nullable(self, symbol: SymbolId) -> bool {
        exists|height: nat| self.nullable_within(symbol, height)
    }

    /// Every symbol of `rhs` from `from` up to `to` derives the empty string.
    pub open spec fn span_nullable(self, rhs: Seq<SymbolId>, from: int, to: int) -> bool {
        forall|i: int| from <= i < to && 0 <= i < rhs.len() ==> self.nullable(#[trigger] rhs[i])
    }

    /// Some string derived from `symbol` begins with `terminal`, by a
    /// derivation of height at most `height`: `symbol` is that terminal, or
    /// it heads a production in which a symbol with this property follows
    /// symbols that all derive the empty string.
    pub open spec fn first_within(self, symbol: SymbolId, terminal: SymbolId, height: nat) -> bool
        decreases height,
    {
        height > 0 && ((self.is_terminal(symbol) && symbol == terminal) || exists|
            rule: int,
            i: int,
        |
            0 <= rule < self.productions.len() && self.productions[rule].lhs == symbol && 0 <= i
                < self.productions[rule].rhs.len() && self.span_nullable(
                self.productions[rule].rhs,
                0,
                i,
            ) && self.first_within(
                #[trigger] self.productions[rule].rhs[i],
                terminal,
                (height - 1) as nat,
            ))
    }

    /// `terminal` is in FIRST(`symbol`): some string derived from `symbol`
    /// begins with it.
    pub open spec fn first(self, symbol: SymbolId, terminal: SymbolId) -> bool {
        exists|height: nat| self.first_within(symbol, terminal, height)
    }

    /// `terminal` is in FIRST of the symbols of `rhs` from `from` on,
    /// followed by the terminal `lookahead`.
    pub open spec fn first_of_tail(
        self,
        rhs: Seq<SymbolId>,
        from: int,
        lookahead: SymbolId,
        terminal: SymbolId,
    ) -> bool {
        ||| exists|i: int|
            from <= i < rhs.len() && 0 <= i && self.span_nullable(rhs, from, i) && self.first(
                #[trigger] rhs[i],
                terminal,
            )
        ||| (self.span_nullable(rhs, from, rhs.len() as int) && terminal == lookahead)
    }
}

/// A derivation of the empty string stays one when more height is allowed.
pub proof fn lemma_nullable_within_monotone(
    grammar: GrammarView,
    symbol: SymbolId,
    low: nat,
    high: nat,
)
    requires
        low <= high,
        grammar.nullable_within(symbol, low),
    ensures
        grammar.nullable_within(symbol, high),
    decreases low,
{
    let rule = choose|rule: int|
        0 <= rule < grammar.productions.len() && (#[trigger] grammar.productions[rule]).lhs
            == symbol && grammar.span_nullable_within(
            grammar.productions[rule].rhs,
            0,
            grammar.productions[rule].rhs.len() as int,
            (low - 1) as nat,
        );
    let rhs = grammar.productions[rule].rhs;
    assert forall|i: int| 0 <= i < rhs.len() implies grammar.nullable_within(
        #[trigger] rhs[i],
        (high - 1) as nat,
    ) by {
        lemma_nullable_within_monotone(grammar, rhs[i], (low - 1) as nat, (high - 1) as nat);
    }
    assert(grammar.span_nullable_within(rhs, 0, rhs.len() as int, (high - 1) as nat));
}

/// Symbols that each derive the empty string do so within a common height.
pub proof fn lemma_span_nullable_height(grammar: GrammarView, rhs: Seq<SymbolId>, to: int) -> (height:
    nat)
    requires
        0 <= to <= rhs.len(),
        grammar.span_nullable(rhs, 0, to),
    ensures
        grammar.span_nullable_within(rhs, 0, to, height),
    decreases to,
{
    if to == 0 {
        0
    } else {
        let before = lemma_span_nullable_height(grammar, rhs, to - 1);
        let symbol = rhs[to - 1];
        let last = choose|height: nat| grammar.nullable_within(symbol, height);
        let height = if before <= last {
            last
        } else {
            before
        };
        assert forall|i: int| 0 <= i < to implies grammar.nullable_within(
            #[trigger] rhs[i],
            height,
        ) by {
            if i < to - 1 {
                lemma_nullable_within_monotone(grammar, rhs[i], before, height);
            } else {
                lemma_nullable_within_monotone(grammar, rhs[i], last, height);
            }
        }
        height
    }
}

/// The head of a production whose right-hand side derives the empty string
/// derives it too.
pub proof fn lemma_nullable_rule(grammar: GrammarView, rule: int)
    requires
        0 <= rule < grammar.productions.len(),
        grammar.span_nullable(
            grammar.productions[rule].rhs,
            0,
            grammar.productions[rule].rhs.len() as int,
        ),
    ensures
        grammar.nullable(grammar.productions[rule].lhs),
{
    let rhs = grammar.productions[rule].rhs;
    let height = lemma_span_nullable_height(grammar, rhs, rhs.len() as int);
    assert(grammar.nullable_within(grammar.productions[rule].lhs, height + 1));
}

/// A terminal is in its own FIRST set.
pub proof fn lemma_first_terminal(grammar: GrammarView, terminal: SymbolId)
    requires
        grammar.is_terminal(terminal),
    ensures
        grammar.first(terminal, terminal),
{
    assert(grammar.first_within(terminal, terminal, 1));
}

/// What begins a symbol of a right-hand side begins the head too, where
/// the symbols before it derive the empty string.
pub proof fn lemma_first_rule(grammar: GrammarView, rule: int, i: int, terminal: SymbolId)
    requires
        0 <= rule < grammar.productions.len(),
        0 <= i < grammar.productions[rule].rhs.len(),
        grammar.span_nullable(grammar.productions[rule].rhs, 0, i),
        grammar.first(grammar.productions[rule].rhs[i], terminal),
    ensures
        grammar.first(grammar.productions[rule].lhs, terminal),
{
    let height = choose|height: nat|
        grammar.first_within(grammar.productions[rule].rhs[i], terminal, height);
    assert(grammar.first_within(grammar.productions[rule].lhs, terminal, height + 1));
}

/// Only interned terminals are in a FIRST set, and only interned symbols
/// have one that is not empty.
pub proof fn lemma_first_within_terminal(
    grammar: GrammarView,
    symbol: SymbolId,
    terminal: SymbolId,
    height: nat,
)
    requires
        grammar.wf(),
        grammar.first_within(symbol, terminal, height),
    ensures
        grammar.is_terminal(terminal),
        symbol < grammar.symbols.len(),
    decreases height,
{
    if !(grammar.is_terminal(symbol) && symbol == terminal) {
        let (rule, i) = choose|rule: int, i: int|
            0 <= rule < grammar.productions.len() && grammar.productions[rule].lhs == symbol && 0
                <= i < grammar.productions[rule].rhs.len() && grammar.span_nullable(
                grammar.productions[rule].rhs,
                0,
                i,
            ) && grammar.first_within(
                #[trigger] grammar.productions[rule].rhs[i],
                terminal,
                (height - 1) as nat,
            );
        lemma_first_within_terminal(
            grammar,
            grammar.productions[rule].rhs[i],
            terminal,
            (height - 1) as nat,
        );
        assert(grammar.production_wf(rule));
    }
}

/// Only interned terminals are in a FIRST set.
pub proof fn lemma_first_terminal_only(grammar: GrammarView, symbol: SymbolId, terminal: SymbolId)
    requires
        grammar.wf(),
        grammar.first(symbol, terminal),
    ensures
        grammar.is_terminal(terminal),
        symbol < grammar.symbols.len(),
{
    let height = choose|height: nat| grammar.first_within(symbol, terminal, height);
    lemma_first_within_terminal(grammar, symbol, terminal, height);
}

/// Only non-terminals derive the empty string.
pub proof fn lemma_nullable_nonterminal(grammar: GrammarView, symbol: SymbolId)
    requires
        grammar.wf(),
        grammar.nullable(symbol),
    ensures
        grammar.is_nonterminal(symbol),
{
    let height = choose|height: nat| grammar.nullable_within(symbol, height);
    let rule = choose|rule: int|
        0 <= rule < grammar.productions.len() && (#[trigger] grammar.productions[rule]).lhs
            == symbol && grammar.span_nullable_within(
            grammar.productions[rule].rhs,
            0,
            grammar.productions[rule].rhs.len() as int,
            (height - 1) as nat,
        );
    assert(grammar.production_wf(rule));
}

/// The number of entries of `table` that are not set.
pub open spec fn unset(table: Seq<bool>) -> nat
    decreases table.len(),
{
    if table.len() == 0 {
        0
    } else {
        unset(table.drop_last()) + if table.last() {
            0nat
        } else {
            1nat
        }
    }
}

/// Setting an entry leaves one entry fewer that is not set.
pub proof fn lemma_unset_update(table: Seq<bool>, i: int)
    requires
        0 <= i < table.len(),
        !table[i],
    ensures
        unset(table.update(i, true)) + 1 == unset(table),
    decreases table.len(),
{
    if i == table.len() - 1 {
        assert(table.update(i, true).drop_last() =~= table.drop_last());
    } else {
        lemma_unset_update(table.drop_last(), i);
        assert(table.update(i, true).drop_last() =~= table.drop_last().update(i, true));
    }
}

/// Whether production `rule` marks its head, given the marks of `table`.
/// For nullable symbols a production marks its head when its whole
/// right-hand side is marked; for a FIRST set, when a marked symbol follows
/// symbols that `nullable` marks.
pub open spec fn fires(
    grammar: GrammarView,
    nullable: Seq<bool>,
    table: Seq<bool>,
    rule: int,
    first: bool,
) -> bool {
    let rhs = grammar.productions[rule].rhs;
    if first {
        exists|i: int|
            0 <= i < rhs.len() && (forall|j: int| 0 <= j < i ==> nullable[(#[trigger] rhs[j]) as int])
                && table[(#[trigger] rhs[i]) as int]
    } else {
        forall|i: int| 0 <= i < rhs.len() ==> table[(#[trigger] rhs[i]) as int]
    }
}

/// No production marks a head that `table` does not mark already.
pub open spec fn saturated(
    grammar: GrammarView,
    nullable: Seq<bool>,
    table: Seq<bool>,
    first: bool,
) -> bool {
    forall|rule: int|
        0 <= rule < grammar.productions.len() && #[trigger] fires(
            grammar,
            nullable,
            table,
            rule,
            first,
        ) ==> table[grammar.productions[rule].lhs as int]
}

/// A table that every production has saturated marks every symbol that
/// derives the empty string.
pub proof fn lemma_nullable_complete(
    grammar: GrammarView,
    table: Seq<bool>,
    symbol: SymbolId,
    height: nat,
)
    requires
        grammar.wf(),
        table.len() == grammar.symbols.len(),
        saturated(grammar, Seq::empty(), table, false),
        grammar.nullable_within(symbol, height),
    ensures
        symbol < table.len() && table[symbol as int],
    decreases height,
{
    let rule = choose|rule: int|
        0 <= rule < grammar.productions.len() && (#[trigger] grammar.productions[rule]).lhs
            == symbol && grammar.span_nullable_within(
            grammar.productions[rule].rhs,
            0,
            grammar.productions[rule].rhs.len() as int,
            (height - 1) as nat,
        );
    let rhs = grammar.productions[rule].rhs;
    assert(grammar.production_wf(rule));
    assert forall|i: int| 0 <= i < rhs.len() implies table[(#[trigger] rhs[i]) as int] by {
        lemma_nullable_complete(grammar, table, rhs[i], (height - 1) as nat);
    }
    assert(fires(grammar, Seq::empty(), table, rule, false));
}

/// A table that holds `terminal` and that every production has saturated
/// marks every symbol with `terminal` in its FIRST set.
pub proof fn lemma_first_complete(
    grammar: GrammarView,
    nullable: Seq<bool>,
    table: Seq<bool>,
    terminal: SymbolId,
    symbol: SymbolId,
    height: nat,
)
    requires
        grammar.wf(),
        table.len() == grammar.symbols.len(),
        nullable.len() == grammar.symbols.len(),
        forall|x: int| 0 <= x < nullable.len() ==> nullable[x] == grammar.nullable(x as usize),
        grammar.is_terminal(terminal) ==> table[terminal as int],
        saturated(grammar, nullable, table, true),
        grammar.first_within(symbol, terminal, height),
    ensures
        symbol < table.len() && table[symbol as int],
    decreases height,
{
    if !(grammar.is_terminal(symbol) && symbol == terminal) {
        let (rule, i) = choose|rule: int, i: int|
            0 <= rule < grammar.productions.len() && grammar.productions[rule].lhs == symbol && 0
                <= i < grammar.productions[rule].rhs.len() && grammar.span_nullable(
                grammar.productions[rule].rhs,
                0,
                i,
            ) && grammar.first_within(
                #[trigger] grammar.productions[rule].rhs[i],
                terminal,
                (height - 1) as nat,
            );
        let rhs = grammar.productions[rule].rhs;
        assert(grammar.production_wf(rule));
        lemma_first_complete(grammar, nullable, table, terminal, rhs[i], (height - 1) as nat);
        assert forall|j: int| 0 <= j < i implies nullable[(#[trigger] rhs[j]) as int] by {
            assert(grammar.nullable(rhs[j]));
        }
        assert(fires(grammar, nullable, table, rule, true));
    }
}

/// A table of `count` entries, none of them set.
fn cleared(count: usize) -> (table: Vec<bool>)
    ensures
        table@.len() == count,
        forall|i: int| 0 <= i < count ==> !table@[i],
{
    let mut table: Vec<bool> = Vec::new();
    let mut i: usize = 0;
    while i < count
        invariant
            i <= count,
            table@.len() == i,
            forall|j: int| 0 <= j < i ==> !table@[j],
        decreases count - i,
    {
        table.push(false);
        i += 1;
    }
    table
}

/// Whether production `rule` marks its head.
fn rule_fires(
    grammar: &Grammar,
    nullable: &Vec<bool>,
    table: &Vec<bool>,
    rule: RuleId,
    first: bool,
) -> (marks: bool)
    requires
        grammar.wf(),
        rule < grammar@.productions.len(),
        table@.len() == grammar@.symbols.len(),
        first ==> nullable@.len() == grammar@.symbols.len(),
    ensures
        marks == fires(grammar@, nullable@, table@, rule as int, first),
{
    let rhs = &grammar.production(rule).rhs;
    proof {
        assert(grammar@.production_wf(rule as int));
    }
    let mut i: usize = 0;
    while i < rhs.len()
        invariant
            rhs@ == grammar@.productions[rule as int].rhs,
            table@.len() == grammar@.symbols.len(),
            first ==> nullable@.len() == grammar@.symbols.len(),
            forall|j: int| 0 <= j < rhs@.len() ==> (#[trigger] rhs@[j]) < grammar@.symbols.len(),
            i <= rhs.len(),
            first ==> forall|j: int| 0 <= j < i ==> nullable@[(#[trigger] rhs@[j]) as int],
            first ==> forall|j: int| 0 <= j < i ==> !table@[(#[trigger] rhs@[j]) as int],
            !first ==> forall|j: int| 0 <= j < i ==> table@[(#[trigger] rhs@[j]) as int],
        decreases rhs.len() - i,
    {
        let symbol = rhs[i];
        if first {
            if table[symbol] {
                return true;
            }
            if !nullable[symbol] {
                proof {
                    assert forall|k: int|
                        0 <= k < rhs@.len() && (forall|j: int|
                            0 <= j < k ==> nullable@[(#[trigger] rhs@[j]) as int]) implies !table@[(
                    #[trigger] rhs@[k]) as int] by {
                        if k > i {
                            assert(nullable@[rhs@[i as int] as int]);
                        }
                    }
                }
                return false;
            }
        } else {
            if !table[symbol] {
                return false;
            }
        }
        i += 1;
    }
    !first
}

/// Marks heads until no production marks a new one. What the caller knows
/// of every mark, and knows to pass from a right-hand side to its head,
/// holds of every mark of the result.
fn saturate(
    grammar: &Grammar,
    nullable: &Vec<bool>,
    table: Vec<bool>,
    first: bool,
    Ghost(sound): Ghost<spec_fn(SymbolId) -> bool>,
) -> (result: Vec<bool>)
    requires
        grammar.wf(),
        table@.len() == grammar@.symbols.len(),
        first ==> nullable@.len() == grammar@.symbols.len(),
        forall|x: int| 0 <= x < table@.len() && table@[x] ==> sound(x as usize),
        forall|marks: Seq<bool>, rule: int|
            #![trigger fires(grammar@, nullable@, marks, rule, first)]
            0 <= rule < grammar@.productions.len() && marks.len() == table@.len() && (forall|
                x: int,
            |
                0 <= x < marks.len() && marks[x] ==> sound(x as usize)) && fires(
                grammar@,
                nullable@,
                marks,
                rule,
                first,
            ) ==> sound(grammar@.productions[rule].lhs),
    ensures
        result@.len() == table@.len(),
        forall|x: int| 0 <= x < table@.len() && table@[x] ==> result@[x],
        forall|x: int| 0 <= x < result@.len() && result@[x] ==> sound(x as usize),
        saturated(grammar@, nullable@, result@, first),
{
    let mut result = table;
    let rules = grammar.num_rules();
    let mut changed = true;
    while changed
        invariant
            grammar.wf(),
            rules == grammar@.productions.len(),
            result@.len() == table@.len(),
            table@.len() == grammar@.symbols.len(),
            first ==> nullable@.len() == grammar@.symbols.len(),
            forall|x: int| 0 <= x < table@.len() && table@[x] ==> result@[x],
            forall|x: int| 0 <= x < result@.len() && result@[x] ==> sound(x as usize),
            forall|marks: Seq<bool>, rule: int|
                #![trigger fires(grammar@, nullable@, marks, rule, first)]
                0 <= rule < grammar@.productions.len() && marks.len() == table@.len() && (forall|
                    x: int,
                |
                    0 <= x < marks.len() && marks[x] ==> sound(x as usize)) && fires(
                    grammar@,
                    nullable@,
                    marks,
                    rule,
                    first,
                ) ==> sound(grammar@.productions[rule].lhs),
            !changed ==> saturated(grammar@, nullable@, result@, first),
        decreases
                unset(result@) + if changed {
                    1nat
                } else {
                    0nat
                },
    {
        changed = false;
        let ghost before = result@;
        let mut rule: usize = 0;
        while rule < rules
            invariant
                grammar.wf(),
                rules == grammar@.productions.len(),
                rule <= rules,
                result@.len() == table@.len(),
                table@.len() == grammar@.symbols.len(),
                first ==> nullable@.len() == grammar@.symbols.len(),
                forall|x: int| 0 <= x < table@.len() && table@[x] ==> result@[x],
                forall|x: int| 0 <= x < result@.len() && result@[x] ==> sound(x as usize),
                forall|marks: Seq<bool>, rule: int|
                    #![trigger fires(grammar@, nullable@, marks, rule, first)]
                    0 <= rule < grammar@.productions.len() && marks.len() == table@.len() && (
                    forall|x: int| 0 <= x < marks.len() && marks[x] ==> sound(x as usize)) && fires(
                        grammar@,
                        nullable@,
                        marks,
                        rule,
                        first,
                    ) ==> sound(grammar@.productions[rule].lhs),
                !changed ==> result@ == before,
                !changed ==> forall|r: int|
                    0 <= r < rule && #[trigger] fires(grammar@, nullable@, result@, r, first)
                        ==> result@[grammar@.productions[r].lhs as int],
                changed ==> unset(result@) < unset(before),
            decreases rules - rule,
        {
            let lhs = grammar.production(rule).lhs;
            proof {
                assert(grammar@.production_wf(rule as int));
            }
            if !result[lhs] && rule_fires(grammar, nullable, &result, rule, first) {
                proof {
                    lemma_unset_update(result@, lhs as int);
                }
                result.set(lhs, true);
                changed = true;
            }
            rule += 1;
        }
    }
    result
}

/// The nullable symbols and the FIRST sets of a grammar, computed once and
/// looked up while item sets are closed.
pub struct Analysis {
    nullable: Vec<bool>,
    first: Vec<Vec<bool>>,
    grammar: Ghost<GrammarView>,
}

impl Analysis {
    /// The grammar that was analysed.
    pub closed spec fn grammar(&self) -> GrammarView {
        self.grammar@
    }

    /// The tables say of every symbol whether it derives the empty string,
    /// and of every pair of symbols whether the second is in FIRST of the
    /// first.
    pub closed spec fn wf(&self) -> bool {
        let grammar = self.grammar@;
        let count = grammar.symbols.len();
        &&& grammar.wf()
        &&& self.nullable@.len() == count
        &&& forall|x: int| 0 <= x < count ==> self.nullable@[x] == grammar.nullable(x as usize)
        &&& self.first@.len() == count
        &&& forall|t: int| 0 <= t < count ==> (#[trigger] self.first@[t])@.len() == count
        &&& forall|t: int, x: int|
            0 <= t < count && 0 <= x < count ==> (#[trigger] self.first@[t]@[x]) == grammar.first(
                x as usize,
                t as usize,
            )
    }

    /// Whether `symbol` derives the empty string.
    pub fn is_nullable(&self, symbol: SymbolId) -> (nullable: bool)
        requires
            self.wf(),
        ensures
            nullable == self.grammar().nullable(symbol),
    {
        if symbol < self.nullable.len() {
            self.nullable[symbol]
        } else {
            proof {
                if self.grammar().nullable(symbol) {
                    lemma_nullable_nonterminal(self.grammar(), symbol);
                }
            }
            false
        }
    }

    /// Whether `terminal` is in FIRST(`symbol`).
    pub fn in_first(&self, symbol: SymbolId, terminal: SymbolId) -> (member: bool)
        requires
            self.wf(),
        ensures
            member == self.grammar().first(symbol, terminal),
    {
        if terminal < self.first.len() && symbol < self.first[terminal].len() {
            self.first[terminal][symbol]
        } else {
            proof {
                if self.grammar().first(symbol, terminal) {
                    lemma_first_terminal_only(self.grammar(), symbol, terminal);
                }
            }
            false
        }
    }

    /// FIRST of the symbols of `rhs` from `from` on, followed by the
    /// terminal `lookahead`: its members in increasing order.
    pub fn first_of_tail(&self, rhs: &Vec<SymbolId>, from: usize, lookahead: SymbolId) -> (members:
        Vec<SymbolId>)
        requires
            self.wf(),
        ensures
            forall|i: int, j: int| 0 <= i < j < members@.len() ==> members@[i] < members@[j],
            forall|terminal: SymbolId|
                members@.contains(terminal) <==> self.grammar().first_of_tail(
                    rhs@,
                    from as int,
                    lookahead,
                    terminal,
                ),
    {
        let ghost grammar = self.grammar();
        let count = self.nullable.len();
        let mut marks = cleared(count);
        let mut k: usize = from;
        let mut open = true;
        while open && k < rhs.len()
            invariant
                self.wf(),
                grammar == self.grammar(),
                count == grammar.symbols.len(),
                marks@.len() == count,
                from <= k,
                open ==> k <= rhs.len() || from >= rhs.len(),
                !open ==> k <= rhs.len(),
                open <==> grammar.span_nullable(rhs@, from as int, k as int),
                forall|t: int|
                    0 <= t < count ==> (marks@[t] <==> exists|i: int|
                        from <= i < k && i < rhs@.len() && grammar.span_nullable(
                            rhs@,
                            from as int,
                            i,
                        ) && grammar.first(#[trigger] rhs@[i], t as usize)),
            decreases
                    rhs.len() - k + if open {
                        1nat
                    } else {
                        0nat
                    },
        {
            let symbol = rhs[k];
            let ghost before = marks@;
            let mut t: usize = 0;
            while t < count
                invariant
                    self.wf(),
                    grammar == self.grammar(),
                    count == grammar.symbols.len(),
                    marks@.len() == count,
                    before.len() == count,
                    t <= count,
                    forall|u: int|
                        #![trigger marks@[u]]
                        0 <= u < t ==> (marks@[u] <==> before[u] || grammar.first(
                            symbol,
                            u as usize,
                        )),
                    forall|u: int| #![trigger marks@[u]] t <= u < count ==> marks@[u] == before[u],
                decreases count - t,
            {
                let ghost earlier = marks@;
                if self.in_first(symbol, t) {
                    marks.set(t, true);
                }
                proof {
                    assert forall|u: int| #![trigger marks@[u]] 0 <= u < t + 1 implies (marks@[u]
                        <==> before[u] || grammar.first(symbol, u as usize)) by {
                        if u < t {
                            assert(marks@[u] == earlier[u]);
                        } else {
                            assert(earlier[u] == before[u]);
                        }
                    }
                    assert forall|u: int| #![trigger marks@[u]] t + 1 <= u < count implies marks@[u]
                        == before[u] by {
                        assert(marks@[u] == earlier[u]);
                    }
                }
                t += 1;
            }
            let nullable = self.is_nullable(symbol);
            proof {
                assert forall|t: int| 0 <= t < count implies (marks@[t] <==> exists|i: int|
                    from <= i < k + 1 && i < rhs@.len() && grammar.span_nullable(
                        rhs@,
                        from as int,
                        i,
                    ) && grammar.first(#[trigger] rhs@[i], t as usize)) by {
                    assert(marks@[t] <==> before[t] || grammar.first(symbol, t as usize));
                    if marks@[t] {
                        if before[t] {
                            let i = choose|i: int|
                                from <= i < k && i < rhs@.len() && grammar.span_nullable(
                                    rhs@,
                                    from as int,
                                    i,
                                ) && grammar.first(#[trigger] rhs@[i], t as usize);
                            assert(from <= i < k + 1);
                        } else {
                            assert(grammar.first(rhs@[k as int], t as usize));
                        }
                    }
                    if exists|i: int|
                        from <= i < k + 1 && i < rhs@.len() && grammar.span_nullable(
                            rhs@,
                            from as int,
                            i,
                        ) && grammar.first(#[trigger] rhs@[i], t as usize) {
                        let i = choose|i: int|
                            from <= i < k + 1 && i < rhs@.len() && grammar.span_nullable(
                                rhs@,
                                from as int,
                                i,
                            ) && grammar.first(#[trigger] rhs@[i], t as usize);
                        if i < k {
                            assert(before[t]);
                        } else {
                            assert(grammar.first(symbol, t as usize));
                        }
                    }
                }
                if nullable {
                    assert(grammar.span_nullable(rhs@, from as int, k + 1));
                } else {
                    assert(!grammar.nullable(rhs@[k as int]));
                }
            }
            if !nullable {
                open = false;
            }
            k += 1;
        }
        proof {
            // Past a symbol that does not derive the empty string nothing
            // is added.
            assert forall|t: int| 0 <= t < count implies (marks@[t] <==> exists|i: int|
                from <= i < rhs@.len() && 0 <= i && grammar.span_nullable(rhs@, from as int, i)
                    && grammar.first(#[trigger] rhs@[i], t as usize)) by {
                if exists|i: int|
                    from <= i < rhs@.len() && 0 <= i && grammar.span_nullable(rhs@, from as int, i)
                        && grammar.first(#[trigger] rhs@[i], t as usize) {
                    let i = choose|i: int|
                        from <= i < rhs@.len() && 0 <= i && grammar.span_nullable(
                            rhs@,
                            from as int,
                            i,
                        ) && grammar.first(#[trigger] rhs@[i], t as usize);
                    if i >= k {
                        assert(!open);
                        assert(grammar.span_nullable(rhs@, from as int, k as int)) by {
                            assert forall|j: int|
                                from <= j < k && 0 <= j < rhs@.len() implies grammar.nullable(
                                #[trigger] rhs@[j],
                            ) by {}
                        }
                    }
                }
            }
            assert(open <==> grammar.span_nullable(rhs@, from as int, rhs@.len() as int)) by {
                if !open {
                    if grammar.span_nullable(rhs@, from as int, rhs@.len() as int) {
                        assert forall|j: int|
                            from <= j < k && 0 <= j < rhs@.len() implies grammar.nullable(
                            #[trigger] rhs@[j],
                        ) by {}
                    }
                }
            }
        }
        let mut members: Vec<SymbolId> = Vec::new();
        let mut t: usize = 0;
        while t < count
            invariant
                marks@.len() == count,
                t <= count,
                forall|i: int, j: int| 0 <= i < j < members@.len() ==> members@[i] < members@[j],
                forall|i: int| 0 <= i < members@.len() ==> (#[trigger] members@[i]) < t,
                forall|u: SymbolId|
                    members@.contains(u) <==> u < t && (marks@[u as int] || (open && u
                        == lookahead)),
            decreases count - t,
        {
            if marks[t] || (open && t == lookahead) {
                let ghost before = members@;
                members.push(t);
                proof {
                    assert forall|u: SymbolId|
                        members@.contains(u) <==> u < t + 1 && (marks@[u as int] || (open && u
                            == lookahead)) by {
                        if members@.contains(u) {
                            let i = choose|i: int| 0 <= i < members@.len() && members@[i] == u;
                            if i < before.len() {
                                assert(before.contains(u));
                            }
                        }
                        if u < t + 1 && (marks@[u as int] || (open && u == lookahead)) {
                            if u < t {
                                assert(before.contains(u));
                                let i = choose|i: int| 0 <= i < before.len() && before[i] == u;
                                assert(members@[i] == u);
                            } else {
                                assert(members@[members@.len() - 1] == u);
                            }
                        }
                    }
                }
            }
            t += 1;
        }
        if open && lookahead >= count {
            let ghost before = members@;
            members.push(lookahead);
            proof {
                assert forall|u: SymbolId|
                    members@.contains(u) <==> (u < count && marks@[u as int]) || (open && u
                        == lookahead) by {
                    if members@.contains(u) {
                        let i = choose|i: int| 0 <= i < members@.len() && members@[i] == u;
                        if i < before.len() {
                            assert(before.contains(u));
                        }
                    }
                    if (u < count && marks@[u as int]) || (open && u == lookahead) {
                        if u < count {
                            assert(before.contains(u));
                            let i = choose|i: int| 0 <= i < before.len() && before[i] == u;
                            assert(members@[i] == u);
                        } else {
                            assert(members@[members@.len() - 1] == u);
                        }
                    }
                }
            }
        }
        proof {
            assert forall|terminal: SymbolId|
                members@.contains(terminal) <==> grammar.first_of_tail(
                    rhs@,
                    from as int,
                    lookahead,
                    terminal,
                ) by {
                if exists|i: int|
                    from <= i < rhs@.len() && 0 <= i && grammar.span_nullable(rhs@, from as int, i)
                        && grammar.first(#[trigger] rhs@[i], terminal) {
                    let i = choose|i: int|
                        from <= i < rhs@.len() && 0 <= i && grammar.span_nullable(
                            rhs@,
                            from as int,
                            i,
                        ) && grammar.first(#[trigger] rhs@[i], terminal);
                    lemma_first_terminal_only(grammar, rhs@[i], terminal);
                }
            }
        }
        members
    }
}

impl Grammar {
    /// Computes the nullable symbols and the FIRST sets of this grammar.
    pub fn analyze(&self) -> (analysis: Analysis)
        requires
            self.wf(),
        ensures
            analysis.wf(),
            analysis.grammar() == self@,
    {
        let ghost grammar = self@;
        let count = self.num_symbols();
        let unused: Vec<bool> = Vec::new();
        let ghost derives_empty = |x: SymbolId| grammar.nullable(x);
        proof {
            assert forall|marks: Seq<bool>, rule: int|
                #![trigger fires(grammar, unused@, marks, rule, false)]
                0 <= rule < grammar.productions.len() && marks.len() == count && (forall|x: int|
                    0 <= x < marks.len() && marks[x] ==> derives_empty(x as usize)) && fires(
                    grammar,
                    unused@,
                    marks,
                    rule,
                    false,
                ) implies derives_empty(grammar.productions[rule].lhs) by {
                assert(grammar.production_wf(rule));
                let rhs = grammar.productions[rule].rhs;
                assert forall|i: int| 0 <= i < rhs.len() implies grammar.nullable(
                    #[trigger] rhs[i],
                ) by {
                    assert(marks[rhs[i] as int]);
                    assert(derives_empty(rhs[i]));
                }
                lemma_nullable_rule(grammar, rule);
            }
        }
        let nullable = saturate(self, &unused, cleared(count), false, Ghost(derives_empty));
        proof {
            assert(unused@ =~= Seq::<bool>::empty());
            assert forall|x: int| 0 <= x < count implies nullable@[x] == grammar.nullable(
                x as usize,
            ) by {
                let symbol = x as usize;
                if grammar.nullable(symbol) {
                    let height = choose|height: nat| grammar.nullable_within(symbol, height);
                    lemma_nullable_complete(grammar, nullable@, symbol, height);
                }
                if nullable@[x] {
                    assert(derives_empty(x as usize));
                }
            }
        }
        let mut first: Vec<Vec<bool>> = Vec::new();
        let mut t: usize = 0;
        while t < count
            invariant
                self.wf(),
                grammar == self@,
                count == grammar.symbols.len(),
                nullable@.len() == count,
                forall|x: int| 0 <= x < count ==> nullable@[x] == grammar.nullable(x as usize),
                t <= count,
                first@.len() == t,
                forall|u: int| 0 <= u < t ==> (#[trigger] first@[u])@.len() == count,
                forall|u: int, x: int|
                    0 <= u < t && 0 <= x < count ==> (#[trigger] first@[u]@[x]) == grammar.first(
                        x as usize,
                        u as usize,
                    ),
            decreases count - t,
        {
            let mut row = cleared(count);
            let ghost begins = |x: SymbolId| grammar.first(x, t);
            if self.is_terminal(t) {
                row.set(t, true);
                proof {
                    lemma_first_terminal(grammar, t);
                }
            }
            proof {
                assert forall|marks: Seq<bool>, rule: int|
                    #![trigger fires(grammar, nullable@, marks, rule, true)]
                    0 <= rule < grammar.productions.len() && marks.len() == count && (forall|
                        x: int,
                    |
                        0 <= x < marks.len() && marks[x] ==> begins(x as usize)) && fires(
                        grammar,
                        nullable@,
                        marks,
                        rule,
                        true,
                    ) implies begins(grammar.productions[rule].lhs) by {
                    assert(grammar.production_wf(rule));
                    let rhs = grammar.productions[rule].rhs;
                    let i = choose|i: int|
                        0 <= i < rhs.len() && (forall|j: int|
                            0 <= j < i ==> nullable@[(#[trigger] rhs[j]) as int]) && marks[(
                        #[trigger] rhs[i]) as int];
                    assert(begins(rhs[i]));
                    assert forall|j: int| 0 <= j < i implies grammar.nullable(
                        #[trigger] rhs[j],
                    ) by {
                        assert(nullable@[rhs[j] as int]);
                    }
                    lemma_first_rule(grammar, rule, i, t);
                }
            }
            let ghost seeded = row@;
            let row = saturate(self, &nullable, row, true, Ghost(begins));
            proof {
                assert forall|x: int| 0 <= x < count implies row@[x] == grammar.first(
                    x as usize,
                    t,
                ) by {
                    let symbol = x as usize;
                    if grammar.first(symbol, t) {
                        let height = choose|height: nat| grammar.first_within(symbol, t, height);
                        assert(grammar.is_terminal(t) ==> seeded[t as int]);
                        lemma_first_complete(grammar, nullable@, row@, t, symbol, height);
                    }
                    if row@[x] {
                        assert(begins(x as usize));
                    }
                }
            }
            first.push(row);
            t += 1;
        }
        Analysis { nullable, first, grammar: Ghost(grammar) }
    }
}

} // verus!
