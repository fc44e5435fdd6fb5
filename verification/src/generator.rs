//! The generator: from a grammar and a start symbol to the tables.

use crate::automaton::lemma_collection_unique;
use crate::error::GrammarError;
use crate::grammar::{resolve, Grammar, GrammarView};
use crate::symbols::{Symbol, SymbolId, SymbolKind, SymbolView};
use crate::table::{diagnostic, Conflict, Tables, TablesView};
use vstd::prelude::*;

verus! {

/// How the generator treats the conflicts that it finds.
#[derive(Clone, Copy, Debug, PartialEq, Eq, Structural)]
pub struct Options {
    /// Whether conflicts are errors. By default they are resolved and
    /// reported with the tables.
    pub strict: bool,
    /// Whether a reduction is kept where it competes with a shift. By
    /// default the shift is kept.
    pub prefer_reduce: bool,
}

impl Options {
    /// The default: conflicts are no errors, and a shift is kept over a
    /// reduction.
    pub fn new() -> (options: Options)
        ensures
            options == (Options { strict: false, prefer_reduce: false }),
    {
        Options { strict: false, prefer_reduce: false }
    }
}

/// What the start symbol resolves to: it must have been interned as a
/// non-terminal of the caller's own, and be written as one.
pub open spec fn resolve_start(table: Seq<SymbolView>, start: SymbolView) -> Result<
    SymbolId,
    GrammarError,
> {
    match resolve(table, start, 0) {
        Err(error) => Err(error),
        Ok(id) => if start.kind == SymbolKind::Terminal {
            Err(GrammarError::SymbolKindConflict { symbol: id })
        } else {
            Ok(id)
        },
    }
}

impl GrammarView {
    /// `symbol` stands on a right-hand side before position `position` of
    /// production `rule`.
    pub open spec fn used_before(self, symbol: SymbolId, rule: int, position: int) -> bool {
        exists|r: int, i: int|
            0 <= r < self.productions.len() && 0 <= i < self.productions[r].rhs.len() && (r < rule
                || (r == rule && i < position)) && #[trigger] self.productions[r].rhs[i] == symbol
    }

    /// `symbol` stands on some right-hand side.
    pub open spec fn used(self, symbol: SymbolId) -> bool {
        self.used_before(symbol, self.productions.len() as int, 0)
    }

    /// `symbol` is a non-terminal that stands on a right-hand side and
    /// heads no production.
    pub open spec fn missing(self, symbol: SymbolId) -> bool {
        &&& self.is_nonterminal(symbol)
        &&& self.used(symbol)
        &&& self.productions_of(symbol).len() == 0
    }

    /// An error for each of the first `count` symbols that is missing, in
    /// increasing order of the symbols.
    pub open spec fn missing_upto(self, count: int) -> Seq<GrammarError>
        decreases count,
    {
        if count <= 0 {
            Seq::empty()
        } else {
            let earlier = self.missing_upto(count - 1);
            if self.missing((count - 1) as usize) {
                earlier.push(GrammarError::UnreachableRule { symbol: (count - 1) as usize })
            } else {
                earlier
            }
        }
    }

    /// An error for each non-terminal that stands on a right-hand side and
    /// heads no production, in increasing order of the symbols.
    pub open spec fn unreachable(self) -> Seq<GrammarError> {
        self.missing_upto(self.symbols.len() as int)
    }
}

/// The tables of a grammar are unique: what the generator emits is a
/// function of the grammar and of the way in which shifts and reductions
/// are preferred. Running it twice on one grammar gives the same states,
/// under the same numbers, the same table and the same conflict report.
pub proof fn lemma_tables_unique(grammar: GrammarView, first: TablesView, second: TablesView)
    requires
        grammar.emits(first),
        grammar.emits(second),
        first.prefer_reduce == second.prefer_reduce,
    ensures
        first == second,
{
    lemma_collection_unique(grammar, first.automaton, second.automaton);
    assert forall|state: int| 0 <= state < first.actions.len() implies first.actions[state]
        == second.actions[state] by {
        assert forall|symbol: int| 0 <= symbol < first.actions[state].len() implies (
        #[trigger] first.actions[state][symbol]) == second.actions[state][symbol] by {}
        assert(first.actions[state] =~= second.actions[state]);
    }
    assert(first.actions =~= second.actions);
}

impl Grammar {
    /// Which symbols stand on some right-hand side.
    fn used_symbols(&self) -> (used: Vec<bool>)
        requires
            self.wf(),
        ensures
            used@.len() == self@.symbols.len(),
            forall|x: int| 0 <= x < used@.len() ==> (#[trigger] used@[x]) == self@.used(x as usize),
    {
        let ghost grammar = self@;
        let count = self.num_symbols();
        let mut used: Vec<bool> = Vec::new();
        let mut symbol: usize = 0;
        while symbol < count
            invariant
                symbol <= count,
                used@.len() == symbol,
                forall|x: int| 0 <= x < symbol ==> !(#[trigger] used@[x]),
            decreases count - symbol,
        {
            used.push(false);
            symbol += 1;
        }
        let rules = self.num_rules();
        let mut rule: usize = 0;
        while rule < rules
            invariant
                self.wf(),
                grammar == self@,
                count == grammar.symbols.len(),
                rules == grammar.productions.len(),
                rule <= rules,
                used@.len() == count,
                forall|x: int|
                    0 <= x < count ==> (#[trigger] used@[x]) == grammar.used_before(
                        x as usize,
                        rule as int,
                        0,
                    ),
            decreases rules - rule,
        {
            let rhs = &self.production(rule).rhs;
            proof {
                assert(grammar.production_wf(rule as int));
            }
            let mut i: usize = 0;
            while i < rhs.len()
                invariant
                    grammar == self@,
                    count == grammar.symbols.len(),
                    rule < grammar.productions.len(),
                    rhs@ == grammar.productions[rule as int].rhs,
                    forall|j: int| 0 <= j < rhs@.len() ==> (#[trigger] rhs@[j]) < count,
                    i <= rhs@.len(),
                    used@.len() == count,
                    forall|x: int|
                        0 <= x < count ==> (#[trigger] used@[x]) == grammar.used_before(
                            x as usize,
                            rule as int,
                            i as int,
                        ),
                decreases rhs.len() - i,
            {
                let ghost before = used@;
                used.set(rhs[i], true);
                proof {
                    assert forall|x: int| 0 <= x < count implies (#[trigger] used@[x])
                        == grammar.used_before(x as usize, rule as int, i + 1) by {
                        let symbol = x as usize;
                        assert(before[x] == grammar.used_before(symbol, rule as int, i as int));
                        if grammar.used_before(symbol, rule as int, i as int) {
                            let (r, j) = choose|r: int, j: int|
                                0 <= r < grammar.productions.len() && 0 <= j
                                    < grammar.productions[r].rhs.len() && (r < rule || (r == rule
                                    && j < i)) && #[trigger] grammar.productions[r].rhs[j]
                                    == symbol;
                            assert(r < rule || (r == rule && j < i + 1));
                        }
                        if symbol == rhs@[i as int] {
                            assert(grammar.productions[rule as int].rhs[i as int] == symbol);
                        }
                        if grammar.used_before(symbol, rule as int, i + 1) && symbol != rhs@[i as int] {
                            let (r, j) = choose|r: int, j: int|
                                0 <= r < grammar.productions.len() && 0 <= j
                                    < grammar.productions[r].rhs.len() && (r < rule || (r == rule
                                    && j < i + 1)) && #[trigger] grammar.productions[r].rhs[j]
                                    == symbol;
                            assert(r < rule || (r == rule && j < i));
                        }
                    }
                }
                i += 1;
            }
            proof {
                assert forall|x: int| 0 <= x < count implies (#[trigger] used@[x])
                    == grammar.used_before(x as usize, rule + 1, 0) by {
                    let symbol = x as usize;
                    if grammar.used_before(symbol, rule as int, rhs@.len() as int) {
                        let (r, j) = choose|r: int, j: int|
                            0 <= r < grammar.productions.len() && 0 <= j
                                < grammar.productions[r].rhs.len() && (r < rule || (r == rule && j
                                < rhs@.len())) && #[trigger] grammar.productions[r].rhs[j]
                                == symbol;
                        assert(r < rule + 1 || (r == rule + 1 && j < 0));
                    }
                    if grammar.used_before(symbol, rule + 1, 0) {
                        let (r, j) = choose|r: int, j: int|
                            0 <= r < grammar.productions.len() && 0 <= j
                                < grammar.productions[r].rhs.len() && (r < rule + 1 || (r == rule
                                + 1 && j < 0)) && #[trigger] grammar.productions[r].rhs[j]
                                == symbol;
                        assert(r < rule || (r == rule && j < rhs@.len()));
                    }
                }
            }
            rule += 1;
        }
        used
    }

    /// Checks that every non-terminal that stands on a right-hand side
    /// heads a production, and answers an error for each that does not, in
    /// increasing order of the symbols.
    pub fn check(&self) -> (errors: Vec<GrammarError>)
        requires
            self.wf(),
        ensures
            errors@ == self@.unreachable(),
    {
        let ghost grammar = self@;
        let used = self.used_symbols();
        let count = self.num_symbols();
        let mut errors: Vec<GrammarError> = Vec::new();
        let mut symbol: usize = 0;
        while symbol < count
            invariant
                self.wf(),
                grammar == self@,
                count == grammar.symbols.len(),
                symbol <= count,
                used@.len() == count,
                forall|x: int| 0 <= x < count ==> (#[trigger] used@[x]) == grammar.used(x as usize),
                errors@ == grammar.missing_upto(symbol as int),
            decreases count - symbol,
        {
            if used[symbol] && self.is_nonterminal(symbol) && self.rules_of(symbol).len() == 0 {
                errors.push(GrammarError::UnreachableRule { symbol });
            }
            symbol += 1;
        }
        errors
    }

    /// Generates the tables of this grammar with `start` as start symbol.
    ///
    /// The start symbol must resolve; it then becomes the right-hand side
    /// of production 0. Every non-terminal that stands on a right-hand side
    /// must head a production; all that do not are reported together.
    /// Conflicts are no errors: they are resolved and reported with the
    /// tables.
    pub fn build(&mut self, start: Symbol) -> (result: Result<Tables, Vec<GrammarError>>)
        requires
            old(self).wf(),
        ensures
            final(self).wf(),
            match resolve_start(old(self)@.symbols, start@) {
                Err(error) => {
                    &&& final(self)@ == old(self)@
                    &&& result matches Err(errors)
                    &&& errors@ == seq![error]
                },
                Ok(id) => {
                    &&& final(self)@ == old(self)@.with_start(id)
                    &&& match result {
                        Ok(tables) => {
                            &&& final(self)@.unreachable().len() == 0
                            &&& tables.automaton.wf()
                            &&& !tables@.prefer_reduce
                            &&& final(self)@.emits(tables@)
                        },
                        Err(errors) => {
                            &&& errors@ == final(self)@.unreachable()
                            &&& errors@.len() > 0
                        },
                    }
                },
            },
    {
        self.generate(start, false)
    }

    /// Generates the tables as [`Grammar::build`] does, under `options`:
    /// with the reduction kept where the options prefer it to a shift, and
    /// in strict mode with tables that have conflicts withheld, and the
    /// conflicts answered as errors, in the order of the conflict report.
    pub fn build_with(&mut self, start: Symbol, options: Options) -> (result: Result<
        Tables,
        Vec<GrammarError>,
    >)
        requires
            old(self).wf(),
        ensures
            final(self).wf(),
            match resolve_start(old(self)@.symbols, start@) {
                Err(error) => {
                    &&& final(self)@ == old(self)@
                    &&& result matches Err(errors)
                    &&& errors@ == seq![error]
                },
                Ok(id) => {
                    &&& final(self)@ == old(self)@.with_start(id)
                    &&& if final(self)@.unreachable().len() > 0 {
                        result matches Err(errors) && errors@ == final(self)@.unreachable()
                    } else {
                        match result {
                            Ok(tables) => {
                                &&& tables.automaton.wf()
                                &&& tables@.prefer_reduce == options.prefer_reduce
                                &&& final(self)@.emits(tables@)
                                &&& options.strict ==> tables@.conflicts.len() == 0
                            },
                            Err(errors) => {
                                &&& options.strict
                                &&& errors@.len() > 0
                                &&& exists|tables: TablesView| #[trigger]
                                    final(self)@.emits(tables) && tables.prefer_reduce
                                        == options.prefer_reduce && errors@
                                        == tables.conflicts.map_values(
                                        |conflict: Conflict| diagnostic(conflict),
                                    )
                            },
                        }
                    }
                },
            },
    {
        let tables = match self.generate(start, options.prefer_reduce) {
            Ok(tables) => tables,
            Err(errors) => {
                return Err(errors);
            },
        };
        if options.strict && tables.conflicts.len() > 0 {
            let errors = tables.diagnostics();
            proof {
                assert(self@.emits(tables@));
            }
            return Err(errors);
        }
        Ok(tables)
    }

    /// Resolves the start symbol, checks the grammar and generates the
    /// tables.
    fn generate(&mut self, start: Symbol, prefer_reduce: bool) -> (result: Result<
        Tables,
        Vec<GrammarError>,
    >)
        requires
            old(self).wf(),
        ensures
            final(self).wf(),
            match resolve_start(old(self)@.symbols, start@) {
                Err(error) => {
                    &&& final(self)@ == old(self)@
                    &&& result matches Err(errors)
                    &&& errors@ == seq![error]
                },
                Ok(id) => {
                    &&& final(self)@ == old(self)@.with_start(id)
                    &&& match result {
                        Ok(tables) => {
                            &&& final(self)@.unreachable().len() == 0
                            &&& tables.automaton.wf()
                            &&& tables@.prefer_reduce == prefer_reduce
                            &&& final(self)@.emits(tables@)
                        },
                        Err(errors) => {
                            &&& errors@ == final(self)@.unreachable()
                            &&& errors@.len() > 0
                        },
                    }
                },
            },
    {
        let written = start.kind();
        let id = match self.resolve_symbol(&start, 0) {
            Ok(id) => id,
            Err(error) => {
                let mut errors: Vec<GrammarError> = Vec::new();
                errors.push(error);
                return Err(errors);
            },
        };
        if written == SymbolKind::Terminal {
            let mut errors: Vec<GrammarError> = Vec::new();
            errors.push(GrammarError::SymbolKindConflict { symbol: id });
            return Err(errors);
        }
        self.set_start(id);
        let errors = self.check();
        if errors.len() > 0 {
            return Err(errors);
        }
        let analysis = self.analyze();
        let automaton = self.automaton(&analysis);
        Ok(self.emit(automaton, prefer_reduce))
    }
}

} // verus!
