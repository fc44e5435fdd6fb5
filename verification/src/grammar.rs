//! The grammar store: numbered productions over interned symbols.

use crate::error::GrammarError;
use crate::symbols::{
    after_interning,
    interned,
    lookup,
    table_wf,
    Symbol,
    SymbolId,
    SymbolKind,
    SymbolView,
    Symbols,
    AUGMENTED_START,
    END_OF_INPUT,
};
use vstd::prelude::*;

verus! {

/// Identifier of a production: its position in the grammar. Production 0 is
/// the augmented start production `S' -> S`.
pub type RuleId = usize;

/// A production over interned symbols.
pub struct Production {
    pub lhs: SymbolId,
    pub rhs: Vec<SymbolId>,
}

/// The mathematical value of a [`Production`].
pub struct ProductionView {
    pub lhs: SymbolId,
    pub rhs: Seq<SymbolId>,
}

impl View for Production {
    type V = ProductionView;

    open spec fn view(&self) -> ProductionView {
        ProductionView { lhs: self.lhs, rhs: self.rhs@ }
    }
}

/// A production as the caller writes it, over named symbols.
pub struct Rule {
    lhs: Symbol,
    rhs: Vec<Symbol>,
}

/// The mathematical value of a [`Rule`].
pub struct RuleView {
    pub lhs: SymbolView,
    pub rhs: Seq<SymbolView>,
}

impl View for Rule {
    type V = RuleView;

    closed spec fn view(&self) -> RuleView {
        RuleView { lhs: self.lhs@, rhs: self.rhs@.map_values(|symbol: Symbol| symbol@) }
    }
}

impl Rule {
    /// The rule `lhs -> rhs`, with one symbol on its right-hand side.
    pub fn new(lhs: Symbol, rhs: Symbol) -> (rule: Rule)
        ensures
            rule@ == (RuleView { lhs: lhs@, rhs: seq![rhs@] }),
    {
        let mut symbols: Vec<Symbol> = Vec::new();
        symbols.push(rhs);
        let rule = Rule { lhs, rhs: symbols };
        proof {
            assert(rule@.rhs =~= seq![rhs@]);
        }
        rule
    }

    /// The rule `lhs -> ε`, with an empty right-hand side.
    pub fn empty(lhs: Symbol) -> (rule: Rule)
        ensures
            rule@ == (RuleView { lhs: lhs@, rhs: Seq::empty() }),
    {
        let rule = Rule { lhs, rhs: Vec::new() };
        proof {
            assert(rule@.rhs =~= Seq::<SymbolView>::empty());
        }
        rule
    }

    /// This rule with `rhs` appended to its right-hand side.
    pub fn rhs(self, rhs: Symbol) -> (rule: Rule)
        ensures
            rule@ == (RuleView { lhs: self@.lhs, rhs: self@.rhs.push(rhs@) }),
    {
        let Rule { lhs, rhs: mut symbols } = self;
        symbols.push(rhs);
        let rule = Rule { lhs, rhs: symbols };
        proof {
            assert(rule@.rhs =~= self@.rhs.push(rhs@));
        }
        rule
    }
}

/// The productions of `productions` whose left-hand side is `lhs`, in
/// increasing order.
pub open spec fn headed_by(productions: Seq<ProductionView>, lhs: SymbolId) -> Seq<RuleId>
    decreases productions.len(),
{
    if productions.len() == 0 {
        Seq::empty()
    } else {
        let before = headed_by(productions.drop_last(), lhs);
        if productions.last().lhs == lhs {
            before.push((productions.len() - 1) as usize)
        } else {
            before
        }
    }
}

/// What a right-hand-side symbol resolves to: it must have been interned
/// with the kind it is written with, and must not be reserved.
pub open spec fn resolve(table: Seq<SymbolView>, symbol: SymbolView, position: usize) -> Result<
    SymbolId,
    GrammarError,
> {
    match lookup(table, symbol.name) {
        None => Err(GrammarError::UndefinedSymbol { position }),
        Some(id) => if table[id as int].kind != symbol.kind {
            Err(GrammarError::SymbolKindConflict { symbol: id })
        } else if id == END_OF_INPUT || id == AUGMENTED_START {
            Err(GrammarError::ReservedSymbol { symbol: id })
        } else {
            Ok(id)
        },
    }
}

/// What a right-hand side resolves to: the identifiers of its symbols, or
/// the error of the leftmost symbol that does not resolve.
pub open spec fn resolve_all(table: Seq<SymbolView>, rhs: Seq<SymbolView>) -> Result<
    Seq<SymbolId>,
    GrammarError,
>
    decreases rhs.len(),
{
    if rhs.len() == 0 {
        Ok(Seq::empty())
    } else {
        match resolve_all(table, rhs.drop_last()) {
            Err(error) => Err(error),
            Ok(ids) => match resolve(table, rhs.last(), (rhs.len() - 1) as usize) {
                Err(error) => Err(error),
                Ok(id) => Ok(ids.push(id)),
            },
        }
    }
}

/// The errors of the symbols of a right-hand side that do not resolve, in
/// the order of the symbols.
pub open spec fn resolve_errors(table: Seq<SymbolView>, rhs: Seq<SymbolView>) -> Seq<GrammarError>
    decreases rhs.len(),
{
    if rhs.len() == 0 {
        Seq::empty()
    } else {
        let earlier = resolve_errors(table, rhs.drop_last());
        match resolve(table, rhs.last(), (rhs.len() - 1) as usize) {
            Err(error) => earlier.push(error),
            Ok(_) => earlier,
        }
    }
}

/// What the head of a rule resolves to: it is interned on the spot, and
/// must then be a non-terminal of the caller's own.
pub open spec fn resolve_head(table: Seq<SymbolView>, symbol: SymbolView) -> Result<
    SymbolId,
    GrammarError,
> {
    match interned(table, symbol) {
        Err(error) => Err(error),
        Ok(id) => if id == END_OF_INPUT || id == AUGMENTED_START {
            Err(GrammarError::ReservedSymbol { symbol: id })
        } else if symbol.kind == SymbolKind::Terminal {
            Err(GrammarError::SymbolKindConflict { symbol: id })
        } else {
            Ok(id)
        },
    }
}

/// The mathematical value of a [`Grammar`]: its symbols and its productions.
pub struct GrammarView {
    pub symbols: Seq<SymbolView>,
    pub productions: Seq<ProductionView>,
}

impl GrammarView {
    /// Whether `symbol` is an interned terminal.
    pub open spec fn is_terminal(self, symbol: SymbolId) -> bool {
        symbol < self.symbols.len() && self.symbols[symbol as int].kind == SymbolKind::Terminal
    }

    /// Whether `symbol` is an interned non-terminal.
    pub open spec fn is_nonterminal(self, symbol: SymbolId) -> bool {
        symbol < self.symbols.len() && self.symbols[symbol as int].kind == SymbolKind::Nonterminal
    }

    /// The right-hand side of production `rule`; empty where there is no
    /// such production.
    pub open spec fn rhs(self, rule: RuleId) -> Seq<SymbolId> {
        if rule < self.productions.len() {
            self.productions[rule as int].rhs
        } else {
            Seq::empty()
        }
    }

    /// The productions headed by `lhs`, in increasing order.
    pub open spec fn productions_of(self, lhs: SymbolId) -> Seq<RuleId> {
        headed_by(self.productions, lhs)
    }

    /// Production `rule` is over this grammar's symbols: a non-terminal on
    /// the left, the caller's own symbols on the right. Only production 0 is
    /// headed by the augmented start symbol, and it derives a non-terminal.
    pub open spec fn production_wf(self, rule: int) -> bool {
        let production = self.productions[rule];
        &&& self.is_nonterminal(production.lhs)
        &&& production.rhs.len() <= usize::MAX
        &&& (rule == 0 <==> production.lhs == AUGMENTED_START)
        &&& forall|i: int|
            0 <= i < production.rhs.len() ==> {
                &&& (#[trigger] production.rhs[i]) < self.symbols.len()
                &&& production.rhs[i] != END_OF_INPUT
                &&& production.rhs[i] != AUGMENTED_START
                &&& (rule == 0 ==> self.is_nonterminal(production.rhs[i]))
            }
    }

    /// The grammar's invariant: production 0 is the augmented start
    /// production, with the start symbol on its right once that is chosen;
    /// every production is over the grammar's symbols; no production occurs
    /// twice.
    pub open spec fn wf(self) -> bool {
        &&& table_wf(self.symbols)
        &&& self.symbols.len() <= usize::MAX
        &&& 1 <= self.productions.len() <= usize::MAX
        &&& self.productions[0].rhs.len() <= 1
        &&& forall|rule: int|
            0 <= rule < self.productions.len() ==> #[trigger] self.production_wf(rule)
        &&& forall|p: int, q: int|
            0 <= p < self.productions.len() && 0 <= q < self.productions.len()
                && #[trigger] self.productions[p] == #[trigger] self.productions[q] ==> p == q
    }

    /// The position of `production` in this grammar, or the number of
    /// productions where it does not occur.
    pub open spec fn position_of(self, production: ProductionView) -> RuleId {
        if exists|p: int|
            0 <= p < self.productions.len() && #[trigger] self.productions[p] == production {
            (choose|p: int|
                0 <= p < self.productions.len() && #[trigger] self.productions[p]
                    == production) as usize
        } else {
            self.productions.len() as usize
        }
    }

    /// The symbol table after adding `rule`: the head is interned wherever
    /// its name and kind allow it.
    pub open spec fn symbols_after(self, rule: RuleView) -> Seq<SymbolView> {
        if interned(self.symbols, rule.lhs) is Ok {
            after_interning(self.symbols, rule.lhs)
        } else {
            self.symbols
        }
    }

    /// The errors of `rule`: that of its head, if it does not resolve, and
    /// those of the symbols of its right-hand side that do not resolve, in
    /// their order.
    pub open spec fn rule_errors(self, rule: RuleView) -> Seq<GrammarError> {
        let head = match resolve_head(self.symbols, rule.lhs) {
            Err(error) => seq![error],
            Ok(_) => Seq::empty(),
        };
        head + resolve_errors(self.symbols_after(rule), rule.rhs)
    }

    /// The production that `rule` describes, where the rule has no errors.
    pub open spec fn described(self, rule: RuleView) -> ProductionView {
        ProductionView {
            lhs: resolve_head(self.symbols, rule.lhs)->Ok_0,
            rhs: resolve_all(self.symbols_after(rule), rule.rhs)->Ok_0,
        }
    }

    /// What adding `rule` answers: the identifier of the production, which
    /// is an old one where the same production was added before, or the
    /// errors of the rule.
    pub open spec fn add_rule_result(self, rule: RuleView) -> Result<RuleId, Seq<GrammarError>> {
        if self.rule_errors(rule).len() > 0 {
            Err(self.rule_errors(rule))
        } else {
            Ok(self.position_of(self.described(rule)))
        }
    }

    /// The grammar after adding `rule`. The head is interned wherever its
    /// name and kind allow it; the production is appended where the rule
    /// has no errors and describes a new one.
    pub open spec fn after_add_rule(self, rule: RuleView) -> GrammarView {
        let productions = if self.rule_errors(rule).len() == 0 && self.position_of(
            self.described(rule),
        ) == self.productions.len() {
            self.productions.push(self.described(rule))
        } else {
            self.productions
        };
        GrammarView { symbols: self.symbols_after(rule), productions }
    }

    /// The grammar after adding `rules` in their order.
    pub open spec fn after_load(self, rules: Seq<RuleView>) -> GrammarView
        decreases rules.len(),
    {
        if rules.len() == 0 {
            self
        } else {
            self.after_load(rules.drop_last()).after_add_rule(rules.last())
        }
    }

    /// The errors of the rules of `rules` when the rules are added in their
    /// order.
    pub open spec fn load_errors(self, rules: Seq<RuleView>) -> Seq<GrammarError>
        decreases rules.len(),
    {
        if rules.len() == 0 {
            Seq::empty()
        } else {
            self.load_errors(rules.drop_last()) + self.after_load(
                rules.drop_last(),
            ).rule_errors(rules.last())
        }
    }

    /// This grammar with `start` as its start symbol: production 0 becomes
    /// `S' -> start`.
    pub open spec fn with_start(self, start: SymbolId) -> GrammarView {
        GrammarView {
            symbols: self.symbols,
            productions: self.productions.update(
                0,
                ProductionView { lhs: AUGMENTED_START, rhs: seq![start] },
            ),
        }
    }
}

/// Every production headed by `lhs` is listed by `headed_by`, once and in
/// increasing order, and nothing else is.
pub proof fn lemma_headed_by(productions: Seq<ProductionView>, lhs: SymbolId)
    requires
        productions.len() <= usize::MAX,
    ensures
        forall|k: int|
            0 <= k < headed_by(productions, lhs).len() ==> {
                &&& (#[trigger] headed_by(productions, lhs)[k]) < productions.len()
                &&& productions[headed_by(productions, lhs)[k] as int].lhs == lhs
            },
        forall|j: int, k: int|
            0 <= j < k < headed_by(productions, lhs).len() ==> headed_by(productions, lhs)[j]
                < headed_by(productions, lhs)[k],
        forall|p: int|
            0 <= p < productions.len() && (#[trigger] productions[p]).lhs == lhs ==> headed_by(
                productions,
                lhs,
            ).contains(p as usize),
    decreases productions.len(),
{
    if productions.len() > 0 {
        let before = productions.drop_last();
        lemma_headed_by(before, lhs);
        let listed = headed_by(productions, lhs);
        let last = (productions.len() - 1) as usize;
        assert forall|p: int|
            0 <= p < productions.len() && (#[trigger] productions[p]).lhs == lhs implies listed.contains(
            p as usize,
        ) by {
            if p < productions.len() - 1 {
                assert(before[p].lhs == lhs);
                let k = choose|k: int|
                    0 <= k < headed_by(before, lhs).len() && headed_by(before, lhs)[k] == p as usize;
                assert(listed[k] == p as usize);
            } else {
                assert(listed[listed.len() - 1] == last);
            }
        }
    }
}

/// Which productions a symbol heads does not depend on right-hand sides.
pub proof fn lemma_headed_by_same_heads(
    left: Seq<ProductionView>,
    right: Seq<ProductionView>,
    lhs: SymbolId,
)
    requires
        left.len() == right.len(),
        forall|p: int| 0 <= p < left.len() ==> (#[trigger] left[p]).lhs == right[p].lhs,
    ensures
        headed_by(left, lhs) == headed_by(right, lhs),
    decreases left.len(),
{
    if left.len() > 0 {
        lemma_headed_by_same_heads(left.drop_last(), right.drop_last(), lhs);
        assert(left.last().lhs == right.last().lhs);
    }
}

/// A right-hand side resolves where none of its symbols has an error.
pub proof fn lemma_resolve_errors(table: Seq<SymbolView>, rhs: Seq<SymbolView>)
    ensures
        resolve_errors(table, rhs).len() == 0 <==> resolve_all(table, rhs) is Ok,
    decreases rhs.len(),
{
    if rhs.len() > 0 {
        lemma_resolve_errors(table, rhs.drop_last());
    }
}

/// The identifiers that a right-hand side resolves to are symbols of the
/// caller's own, one for each symbol written.
pub proof fn lemma_resolve_all_ok(table: Seq<SymbolView>, rhs: Seq<SymbolView>)
    requires
        table.len() <= usize::MAX,
        resolve_all(table, rhs) is Ok,
    ensures
        resolve_all(table, rhs)->Ok_0.len() == rhs.len(),
        forall|i: int|
            0 <= i < rhs.len() ==> {
                let id = #[trigger] resolve_all(table, rhs)->Ok_0[i];
                &&& id < table.len()
                &&& id != END_OF_INPUT
                &&& id != AUGMENTED_START
            },
    decreases rhs.len(),
{
    if rhs.len() > 0 {
        lemma_resolve_all_ok(table, rhs.drop_last());
    }
}

/// The grammar store. It owns the symbol table and the productions, and
/// keeps for every symbol the list of the productions that it heads.
pub struct Grammar {
    symbols: Symbols,
    rules: Vec<Production>,
    by_lhs: Vec<Vec<RuleId>>,
}

impl View for Grammar {
    type V = GrammarView;

    closed spec fn view(&self) -> GrammarView {
        GrammarView {
            symbols: self.symbols@,
            productions: self.rules@.map_values(|production: Production| production@),
        }
    }
}

/// Whether two lists of identifiers are the same list.
fn same_ids(left: &Vec<SymbolId>, right: &Vec<SymbolId>) -> (same: bool)
    ensures
        same == (left@ == right@),
{
    if left.len() != right.len() {
        return false;
    }
    let mut i: usize = 0;
    while i < left.len()
        invariant
            left.len() == right.len(),
            i <= left.len(),
            forall|j: int| 0 <= j < i ==> left@[j] == right@[j],
        decreases left.len() - i,
    {
        if left[i] != right[i] {
            return false;
        }
        i += 1;
    }
    proof {
        assert(left@ =~= right@);
    }
    true
}

impl Grammar {
    /// The index that lists, for every symbol, the productions it heads.
    pub closed spec fn index_wf(&self) -> bool {
        &&& self.by_lhs@.len() == self@.symbols.len()
        &&& forall|symbol: int|
            0 <= symbol < self.by_lhs@.len() ==> (#[trigger] self.by_lhs@[symbol])@
                == self@.productions_of(symbol as usize)
    }

    /// The store's invariant.
    pub open spec fn wf(&self) -> bool {
        &&& self@.wf()
        &&& self.index_wf()
    }

    /// A grammar without productions of the caller's: the two reserved
    /// symbols, and production 0 with no start symbol chosen yet.
    pub fn new() -> (grammar: Grammar)
        ensures
            grammar.wf(),
            grammar@.symbols == Symbols::new_view(),
            grammar@.productions == seq![
                ProductionView { lhs: AUGMENTED_START, rhs: Seq::empty() },
            ],
    {
        let symbols = Symbols::new();
        let mut rules: Vec<Production> = Vec::new();
        rules.push(Production { lhs: AUGMENTED_START, rhs: Vec::new() });
        let mut by_lhs: Vec<Vec<RuleId>> = Vec::new();
        by_lhs.push(Vec::new());
        let mut augmented: Vec<RuleId> = Vec::new();
        augmented.push(0);
        by_lhs.push(augmented);
        let grammar = Grammar { symbols, rules, by_lhs };
        proof {
            let start = ProductionView { lhs: AUGMENTED_START, rhs: Seq::empty() };
            assert(grammar@.productions =~= seq![start]);
            assert(grammar@.production_wf(0));
            reveal_with_fuel(headed_by, 2);
            assert(grammar@.productions.drop_last() =~= Seq::<ProductionView>::empty());
            assert(grammar.by_lhs@[0]@ =~= grammar@.productions_of(0));
            assert(grammar.by_lhs@[1]@ =~= grammar@.productions_of(1));
        }
        grammar
    }

    /// The symbol table.
    pub fn symbols(&self) -> (symbols: &Symbols)
        ensures
            symbols@ == self@.symbols,
            self.wf() ==> symbols.wf(),
    {
        &self.symbols
    }

    /// The number of productions, production 0 included.
    pub fn num_rules(&self) -> (count: usize)
        ensures
            count == self@.productions.len(),
    {
        self.rules.len()
    }

    /// The number of interned symbols, the two reserved ones included.
    pub fn num_symbols(&self) -> (count: usize)
        ensures
            count == self@.symbols.len(),
    {
        self.symbols.len()
    }

    /// Production `rule`.
    pub fn production(&self, rule: RuleId) -> (production: &Production)
        requires
            rule < self@.productions.len(),
        ensures
            production@ == self@.productions[rule as int],
    {
        &self.rules[rule]
    }

    /// Whether `symbol` is an interned terminal.
    pub fn is_terminal(&self, symbol: SymbolId) -> (terminal: bool)
        ensures
            terminal == self@.is_terminal(symbol),
    {
        self.symbols.is_terminal(symbol)
    }

    /// Whether `symbol` is an interned non-terminal.
    pub fn is_nonterminal(&self, symbol: SymbolId) -> (nonterminal: bool)
        ensures
            nonterminal == self@.is_nonterminal(symbol),
    {
        self.symbols.is_nonterminal(symbol)
    }

    /// Declares `symbol`: interns it as [`Symbols::add_symbol`] does.
    pub fn add_symbol(&mut self, symbol: Symbol) -> (result: Result<SymbolId, GrammarError>)
        requires
            old(self).wf(),
        ensures
            final(self).wf(),
            result == interned(old(self)@.symbols, symbol@),
            final(self)@.productions == old(self)@.productions,
            result is Ok ==> final(self)@.symbols == after_interning(old(self)@.symbols, symbol@),
            result is Err ==> final(self)@.symbols == old(self)@.symbols,
            result matches Ok(id) ==> id < final(self)@.symbols.len() && final(self)@.symbols[id as int]
                == symbol@,
    {
        let ghost before = self@;
        let known = self.symbols.len();
        let result = self.symbols.add_symbol(symbol);
        if self.symbols.len() > known {
            self.by_lhs.push(Vec::new());
            proof {
                assert(self@.symbols == before.symbols.push(symbol@));
                assert forall|rule: int| 0 <= rule < self@.productions.len() implies #[trigger] self@.production_wf(
                    rule,
                ) by {
                    assert(before.production_wf(rule));
                }
                lemma_headed_by(self@.productions, known);
                if self@.productions_of(known).len() > 0 {
                    let p = self@.productions_of(known)[0];
                    assert(before.production_wf(p as int));
                }
                assert(self.by_lhs@[known as int]@ =~= self@.productions_of(known));
            }
        }
        result
    }

    /// What a right-hand-side symbol resolves to.
    pub fn resolve_symbol(&self, symbol: &Symbol, position: usize) -> (result: Result<
        SymbolId,
        GrammarError,
    >)
        requires
            self.wf(),
        ensures
            result == resolve(self@.symbols, symbol@, position),
    {
        match self.symbols.find(symbol.name()) {
            None => Err(GrammarError::UndefinedSymbol { position }),
            Some(id) => {
                if self.symbols.kind(id) != symbol.kind() {
                    Err(GrammarError::SymbolKindConflict { symbol: id })
                } else if id == END_OF_INPUT || id == AUGMENTED_START {
                    Err(GrammarError::ReservedSymbol { symbol: id })
                } else {
                    Ok(id)
                }
            },
        }
    }

    /// What a right-hand side resolves to: the identifiers of its symbols,
    /// where all resolve, and the errors of those that do not, which are
    /// appended to `errors`.
    fn resolve_rhs(&self, rhs: &Vec<Symbol>, errors: &mut Vec<GrammarError>) -> (ids: Vec<SymbolId>)
        requires
            self.wf(),
        ensures
            final(errors)@ == old(errors)@ + resolve_errors(
                self@.symbols,
                rhs@.map_values(|symbol: Symbol| symbol@),
            ),
            resolve_errors(self@.symbols, rhs@.map_values(|symbol: Symbol| symbol@)).len() == 0
                ==> resolve_all(self@.symbols, rhs@.map_values(|symbol: Symbol| symbol@)) == Ok::<
                Seq<SymbolId>,
                GrammarError,
            >(ids@),
    {
        let ghost written = rhs@.map_values(|symbol: Symbol| symbol@);
        let ghost reported = errors@;
        let mut ids: Vec<SymbolId> = Vec::new();
        let mut i: usize = 0;
        proof {
            assert(written.take(0) =~= Seq::<SymbolView>::empty());
            assert(errors@ =~= reported + resolve_errors(self@.symbols, written.take(0)));
        }
        while i < rhs.len()
            invariant
                self.wf(),
                written == rhs@.map_values(|symbol: Symbol| symbol@),
                i <= rhs.len(),
                errors@ == reported + resolve_errors(self@.symbols, written.take(i as int)),
                resolve_errors(self@.symbols, written.take(i as int)).len() == 0 ==> resolve_all(
                    self@.symbols,
                    written.take(i as int),
                ) == Ok::<Seq<SymbolId>, GrammarError>(ids@),
            decreases rhs.len() - i,
        {
            proof {
                assert(written.take(i + 1).drop_last() =~= written.take(i as int));
            }
            match self.resolve_symbol(&rhs[i], i) {
                Err(error) => {
                    errors.push(error);
                },
                Ok(id) => {
                    ids.push(id);
                },
            }
            proof {
                assert(errors@ =~= reported + resolve_errors(self@.symbols, written.take(i + 1)));
            }
            i += 1;
        }
        proof {
            assert(written.take(i as int) =~= written);
        }
        ids
    }

    /// The position of the production `lhs -> rhs`, or the number of
    /// productions where the grammar does not hold it.
    fn find_production(&self, lhs: SymbolId, rhs: &Vec<SymbolId>) -> (found: RuleId)
        requires
            self.wf(),
            lhs < self@.symbols.len(),
        ensures
            found == self@.position_of(ProductionView { lhs, rhs: rhs@ }),
            found <= self@.productions.len(),
    {
        let ghost sought = ProductionView { lhs, rhs: rhs@ };
        let candidates = &self.by_lhs[lhs];
        proof {
            lemma_headed_by(self@.productions, lhs);
        }
        let mut k: usize = 0;
        while k < candidates.len()
            invariant
                self.wf(),
                sought == (ProductionView { lhs, rhs: rhs@ }),
                candidates@ == self@.productions_of(lhs),
                k <= candidates@.len(),
                forall|j: int|
                    0 <= j < candidates@.len() ==> (#[trigger] candidates@[j])
                        < self@.productions.len(),
                forall|j: int|
                    0 <= j < k ==> self@.productions[(#[trigger] candidates@[j]) as int] != sought,
            decreases candidates.len() - k,
        {
            let candidate = candidates[k];
            if same_ids(&self.rules[candidate].rhs, rhs) {
                proof {
                    lemma_headed_by(self@.productions, lhs);
                    assert(self@.productions[candidate as int] == sought);
                }
                return candidate;
            }
            k += 1;
        }
        proof {
            assert forall|p: int| 0 <= p < self@.productions.len() implies #[trigger] self@.productions[p]
                != sought by {
                if self@.productions[p].lhs == lhs {
                    let j = choose|j: int|
                        0 <= j < candidates@.len() && candidates@[j] == p as usize;
                    assert(self@.productions[candidates@[j] as int] != sought);
                }
            }
        }
        self.rules.len()
    }

    /// Adds the production that `rule` describes and answers its
    /// identifier. The head is interned on the spot; the symbols of the
    /// right-hand side must have been declared before. A production that
    /// was added before keeps its identifier and is not added again. A rule
    /// with errors adds no production, and all its errors are answered: that
    /// of the head first, then those of the right-hand side in the order of
    /// its symbols.
    pub fn add_rule(&mut self, rule: Rule) -> (result: Result<RuleId, Vec<GrammarError>>)
        requires
            old(self).wf(),
        ensures
            final(self).wf(),
            final(self)@ == old(self)@.after_add_rule(rule@),
            match result {
                Ok(id) => old(self)@.add_rule_result(rule@) == Ok::<RuleId, Seq<GrammarError>>(id)
                    && 1 <= id < final(self)@.productions.len(),
                Err(errors) => old(self)@.add_rule_result(rule@) == Err::<
                    RuleId,
                    Seq<GrammarError>,
                >(errors@),
            },
    {
        self.add_rule_from(&rule)
    }

    /// Adds the productions that `rules` describe, in their order, as
    /// [`Grammar::add_rule`] does, and answers the errors of all the rules,
    /// in the order of the rules.
    pub fn load(&mut self, rules: &Vec<Rule>) -> (errors: Vec<GrammarError>)
        requires
            old(self).wf(),
        ensures
            final(self).wf(),
            final(self)@ == old(self)@.after_load(rules@.map_values(|rule: Rule| rule@)),
            errors@ == old(self)@.load_errors(rules@.map_values(|rule: Rule| rule@)),
    {
        let ghost before = self@;
        let ghost written = rules@.map_values(|rule: Rule| rule@);
        let mut errors: Vec<GrammarError> = Vec::new();
        let mut i: usize = 0;
        proof {
            assert(written.take(0) =~= Seq::<RuleView>::empty());
        }
        while i < rules.len()
            invariant
                self.wf(),
                written == rules@.map_values(|rule: Rule| rule@),
                i <= rules@.len(),
                self@ == before.after_load(written.take(i as int)),
                errors@ == before.load_errors(written.take(i as int)),
            decreases rules.len() - i,
        {
            proof {
                assert(written.take(i + 1).drop_last() =~= written.take(i as int));
                assert(written.take(i + 1).last() == rules@[i as int]@);
            }
            let ghost earlier = errors@;
            match self.add_rule_from(&rules[i]) {
                Ok(_) => {
                    proof {
                        assert(errors@ =~= earlier + Seq::<GrammarError>::empty());
                    }
                },
                Err(found) => {
                    let mut found = found;
                    errors.append(&mut found);
                },
            }
            i += 1;
        }
        proof {
            assert(written.take(i as int) =~= written);
        }
        errors
    }

    /// Adds the production that `rule` describes.
    fn add_rule_from(&mut self, rule: &Rule) -> (result: Result<RuleId, Vec<GrammarError>>)
        requires
            old(self).wf(),
        ensures
            final(self).wf(),
            final(self)@ == old(self)@.after_add_rule(rule@),
            match result {
                Ok(id) => old(self)@.add_rule_result(rule@) == Ok::<RuleId, Seq<GrammarError>>(id)
                    && 1 <= id < final(self)@.productions.len(),
                Err(errors) => old(self)@.add_rule_result(rule@) == Err::<
                    RuleId,
                    Seq<GrammarError>,
                >(errors@),
            },
    {
        let ghost before = self@;
        let ghost written = rule@;
        let lhs = rule.lhs.duplicate();
        let head_kind = lhs.kind();
        let mut errors: Vec<GrammarError> = Vec::new();
        let mut head: Option<SymbolId> = None;
        match self.add_symbol(lhs) {
            Err(error) => {
                errors.push(error);
            },
            Ok(id) => {
                if id == END_OF_INPUT || id == AUGMENTED_START {
                    errors.push(GrammarError::ReservedSymbol { symbol: id });
                } else if head_kind == SymbolKind::Terminal {
                    errors.push(GrammarError::SymbolKindConflict { symbol: id });
                } else {
                    head = Some(id);
                }
            },
        }
        let ghost table = self@.symbols;
        let ghost head_errors = errors@;
        proof {
            assert(head is Some <==> head_errors.len() == 0);
            assert(table == before.symbols_after(written));
            assert(head_errors =~= match resolve_head(before.symbols, written.lhs) {
                Err(error) => seq![error],
                Ok(_) => Seq::empty(),
            });
            lemma_resolve_errors(table, written.rhs);
        }
        let ids = self.resolve_rhs(&rule.rhs, &mut errors);
        if errors.len() > 0 {
            proof {
                assert(self@ =~= before.after_add_rule(written));
            }
            return Err(errors);
        }
        proof {
            assert(head_errors.len() == 0);
            assert(resolve_errors(table, written.rhs).len() == 0);
            assert(head is Some);
        }
        let lhs_id = head.unwrap();
        let ghost added = ProductionView { lhs: lhs_id, rhs: ids@ };
        proof {
            assert(added == before.described(written));
        }
        let id = self.find_production(lhs_id, &ids);
        if id < self.rules.len() {
            proof {
                assert(self@.production_wf(id as int));
                assert(self@ =~= before.after_add_rule(written));
            }
            return Ok(id);
        }
        let ghost middle = self@;
        proof {
            lemma_resolve_all_ok(middle.symbols, written.rhs);
            assert(ids@.len() == ids.len());
        }
        self.rules.push(Production { lhs: lhs_id, rhs: ids });
        self.by_lhs[lhs_id].push(id);
        proof {
            assert(self@.productions.len() == self.rules.len());
            assert(self@.productions =~= before.productions.push(added));
            assert(self@ =~= before.after_add_rule(written));
            assert(self@.productions.drop_last() =~= before.productions);
            assert forall|rule: int| 0 <= rule < self@.productions.len() implies #[trigger] self@.production_wf(
                rule,
            ) by {
                if rule < before.productions.len() {
                    assert(middle.production_wf(rule));
                }
            }
            assert forall|p: int, q: int|
                0 <= p < self@.productions.len() && 0 <= q < self@.productions.len()
                    && #[trigger] self@.productions[p] == #[trigger] self@.productions[q] implies p
                == q by {
                if p < middle.productions.len() {
                    assert(middle.productions[p] == self@.productions[p]);
                }
                if q < middle.productions.len() {
                    assert(middle.productions[q] == self@.productions[q]);
                }
            }
            assert forall|symbol: int| 0 <= symbol < self.by_lhs@.len() implies (
            #[trigger] self.by_lhs@[symbol])@ == self@.productions_of(symbol as usize) by {
                assert(middle.productions_of(symbol as usize) == headed_by(
                    before.productions,
                    symbol as usize,
                ));
                assert(self.by_lhs@[symbol]@ =~= self@.productions_of(symbol as usize));
            }
        }
        Ok(id)
    }

    /// Makes `start` the start symbol: production 0 becomes `S' -> start`.
    pub fn set_start(&mut self, start: SymbolId)
        requires
            old(self).wf(),
            old(self)@.is_nonterminal(start),
            start != AUGMENTED_START,
        ensures
            final(self).wf(),
            final(self)@ == old(self)@.with_start(start),
    {
        let ghost before = self@;
        let mut rhs: Vec<SymbolId> = Vec::new();
        rhs.push(start);
        self.rules.set(0, Production { lhs: AUGMENTED_START, rhs });
        proof {
            let after = self@;
            assert(after.productions =~= before.with_start(start).productions);
            assert(after =~= before.with_start(start));
            assert(before.production_wf(0));
            assert forall|rule: int| 0 <= rule < after.productions.len() implies #[trigger] after.production_wf(
                rule,
            ) by {
                if rule > 0 {
                    assert(before.production_wf(rule));
                    assert(after.productions[rule] == before.productions[rule]);
                }
            }
            assert forall|p: int, q: int|
                0 <= p < after.productions.len() && 0 <= q < after.productions.len()
                    && #[trigger] after.productions[p] == #[trigger] after.productions[q] implies p
                == q by {
                assert(after.production_wf(p));
                assert(after.production_wf(q));
                if p > 0 && q > 0 {
                    assert(before.productions[p] == before.productions[q]);
                }
            }
            assert forall|symbol: int| 0 <= symbol < self.by_lhs@.len() implies (
            #[trigger] self.by_lhs@[symbol])@ == after.productions_of(symbol as usize) by {
                lemma_headed_by_same_heads(
                    before.productions,
                    after.productions,
                    symbol as usize,
                );
            }
        }
    }

    /// The productions headed by `lhs`, in the order in which they were
    /// added; none where `lhs` heads no production or is no symbol.
    pub fn get_rules_by_lhs(&self, lhs: SymbolId) -> (rules: Vec<RuleId>)
        requires
            self.wf(),
        ensures
            rules@ == self@.productions_of(lhs),
    {
        if lhs < self.by_lhs.len() {
            let rules = self.by_lhs[lhs].clone();
            proof {
                assert(rules@ =~= self.by_lhs@[lhs as int]@);
            }
            rules
        } else {
            proof {
                lemma_headed_by(self@.productions, lhs);
                assert(self@.symbols.len() == self.by_lhs@.len());
                if self@.productions_of(lhs).len() > 0 {
                    let p = self@.productions_of(lhs)[0];
                    assert(self@.production_wf(p as int));
                }
                assert(self@.productions_of(lhs) =~= Seq::<RuleId>::empty());
            }
            Vec::new()
        }
    }

    /// The productions headed by the interned symbol `lhs`, borrowed.
    pub fn rules_of(&self, lhs: SymbolId) -> (rules: &Vec<RuleId>)
        requires
            self.wf(),
            lhs < self@.symbols.len(),
        ensures
            rules@ == self@.productions_of(lhs),
    {
        &self.by_lhs[lhs]
    }
}

} // verus!
