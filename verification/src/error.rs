//! Errors reported while a grammar is loaded and checked.

use vstd::prelude::*;

verus! {

/// A defect of the grammar handed to the generator.
#[derive(Clone, Copy, Debug, PartialEq, Eq, Structural)]
pub enum GrammarError {
    /// A name is used with a kind other than the one it was interned with;
    /// `symbol` is the symbol already interned under that name.
    SymbolKindConflict { symbol: usize },
    /// The right-hand side names, at `position`, a symbol that was never
    /// declared.
    UndefinedSymbol { position: usize },
    /// The non-terminal `symbol` is used on a right-hand side, or as the
    /// start symbol, but heads no production.
    UnreachableRule { symbol: usize },
    /// A production mentions the end-of-input marker or the augmented start
    /// symbol, which belong to the generator.
    ReservedSymbol { symbol: usize },
    /// In `state`, on `terminal`, a shift and a reduction compete. The table
    /// holds the shift.
    ShiftReduceConflict { state: usize, terminal: usize },
    /// In `state`, on `terminal`, two reductions compete. The table holds
    /// the one by the lower-numbered production.
    ReduceReduceConflict { state: usize, terminal: usize },
}

} // verus!
