//! The symbol table: terminals and non-terminals interned to small integers.

use crate::error::GrammarError;
use vstd::prelude::*;
use vstd::string::StringExecFns;

verus! {

/// Identifier of an interned symbol: its position in the symbol table.
pub type SymbolId = usize;

/// The end-of-input marker `$`, interned when a table is created.
pub const END_OF_INPUT: SymbolId = 0;

/// The augmented start symbol `S'`, interned when a table is created.
pub const AUGMENTED_START: SymbolId = 1;

/// Whether a symbol is a terminal or a non-terminal.
#[derive(Clone, Copy, Debug, PartialEq, Eq, Hash, Structural)]
pub enum SymbolKind {
    Terminal,
    Nonterminal,
}

/// A grammar symbol as the caller writes it: a name together with its kind.
#[derive(Clone, Debug, PartialEq, Eq, Hash)]
pub enum Symbol {
    Terminal(String),
    Nonterminal(String),
}

/// The mathematical value of a [`Symbol`].
pub struct SymbolView {
    pub kind: SymbolKind,
    pub name: Seq<char>,
}

impl View for Symbol {
    type V = SymbolView;

    open spec fn view(&self) -> SymbolView {
        match self {
            Symbol::Terminal(name) => SymbolView { kind: SymbolKind::Terminal, name: name@ },
            Symbol::Nonterminal(name) => SymbolView { kind: SymbolKind::Nonterminal, name: name@ },
        }
    }
}

impl Symbol {
    /// The kind this symbol was written with.
    pub fn kind(&self) -> (kind: SymbolKind)
        ensures
            kind == self@.kind,
    {
        match self {
            Symbol::Terminal(_) => SymbolKind::Terminal,
            Symbol::Nonterminal(_) => SymbolKind::Nonterminal,
        }
    }

    /// The name this symbol was written with.
    pub fn name(&self) -> (name: &String)
        ensures
            name@ == self@.name,
    {
        match self {
            Symbol::Terminal(name) => name,
            Symbol::Nonterminal(name) => name,
        }
    }

    /// A copy of this symbol.
    pub fn duplicate(&self) -> (copy: Symbol)
        ensures
            copy@ == self@,
    {
        match self {
            Symbol::Terminal(name) => Symbol::Terminal(name.clone()),
            Symbol::Nonterminal(name) => Symbol::Nonterminal(name.clone()),
        }
    }
}

/// The end-of-input marker as a symbol value.
pub open spec fn end_of_input() -> SymbolView {
    SymbolView { kind: SymbolKind::Terminal, name: "$"@ }
}

/// The augmented start symbol as a symbol value.
pub open spec fn augmented_start() -> SymbolView {
    SymbolView { kind: SymbolKind::Nonterminal, name: "S'"@ }
}

/// The position of `name` in `table`, if some symbol carries it.
pub open spec fn lookup(table: Seq<SymbolView>, name: Seq<char>) -> Option<SymbolId> {
    if exists|i: int| 0 <= i < table.len() && (#[trigger] table[i]).name == name {
        Some((choose|i: int| 0 <= i < table.len() && (#[trigger] table[i]).name == name) as usize)
    } else {
        None
    }
}

/// No two symbols of `table` share a name.
pub open spec fn distinct_names(table: Seq<SymbolView>) -> bool {
    forall|i: int, j: int|
        0 <= i < table.len() && 0 <= j < table.len() && (#[trigger] table[i]).name == (
        #[trigger] table[j]).name ==> i == j
}

/// A symbol table starts with the two reserved symbols and interns every
/// name once.
pub open spec fn table_wf(table: Seq<SymbolView>) -> bool {
    &&& table.len() >= 2
    &&& table[END_OF_INPUT as int] == end_of_input()
    &&& table[AUGMENTED_START as int] == augmented_start()
    &&& distinct_names(table)
}

/// What interning `symbol` into `table` answers: the identifier under which
/// the name is known afterwards, or the conflict with the symbol that
/// already carries the name with the other kind.
pub open spec fn interned(table: Seq<SymbolView>, symbol: SymbolView) -> Result<
    SymbolId,
    GrammarError,
> {
    match lookup(table, symbol.name) {
        Some(id) => if table[id as int].kind == symbol.kind {
            Ok(id)
        } else {
            Err(GrammarError::SymbolKindConflict { symbol: id })
        },
        None => Ok(table.len() as usize),
    }
}

/// The table after interning `symbol` into `table`: it grows by `symbol`
/// exactly when the name is new.
pub open spec fn after_interning(table: Seq<SymbolView>, symbol: SymbolView) -> Seq<SymbolView> {
    if lookup(table, symbol.name) is None {
        table.push(symbol)
    } else {
        table
    }
}

/// In a table of distinct names, a name is found where it stands.
pub proof fn lemma_lookup_found(table: Seq<SymbolView>, i: int)
    requires
        distinct_names(table),
        0 <= i < table.len(),
    ensures
        lookup(table, table[i].name) == Some(i as usize),
{
}

/// A name that no symbol carries is not found.
pub proof fn lemma_lookup_missing(table: Seq<SymbolView>, name: Seq<char>)
    requires
        forall|i: int| 0 <= i < table.len() ==> (#[trigger] table[i]).name != name,
    ensures
        lookup(table, name) is None,
{
}

/// The symbol table. Identifiers are handed out in order of first mention
/// and never change.
pub struct Symbols {
    collection: Vec<Symbol>,
}

impl View for Symbols {
    type V = Seq<SymbolView>;

    closed spec fn view(&self) -> Seq<SymbolView> {
        self.collection@.map_values(|symbol: Symbol| symbol@)
    }
}

impl Symbols {
    /// The table's invariant.
    pub open spec fn wf(&self) -> bool {
        table_wf(self@)
    }

    /// The value of a new table: the two reserved symbols.
    pub open spec fn new_view() -> Seq<SymbolView> {
        seq![end_of_input(), augmented_start()]
    }

    /// A table that holds the two reserved symbols: the end-of-input marker
    /// `$` and the augmented start symbol `S'`.
    pub fn new() -> (symbols: Symbols)
        ensures
            symbols.wf(),
            symbols@ == Symbols::new_view(),
    {
        let mut collection: Vec<Symbol> = Vec::new();
        collection.push(Symbol::Terminal(String::from_str("$")));
        collection.push(Symbol::Nonterminal(String::from_str("S'")));
        let symbols = Symbols { collection };
        proof {
            reveal_strlit("$");
            reveal_strlit("S'");
            assert(symbols@ =~= seq![end_of_input(), augmented_start()]);
            assert("$"@.len() != "S'"@.len());
        }
        symbols
    }

    /// The number of interned symbols.
    pub fn len(&self) -> (len: usize)
        ensures
            len == self@.len(),
    {
        self.collection.len()
    }

    /// The identifier under which `name` is interned, if it is.
    pub fn find(&self, name: &String) -> (found: Option<SymbolId>)
        requires
            self.wf(),
        ensures
            found == lookup(self@, name@),
            found matches Some(id) ==> id < self@.len() && self@[id as int].name == name@,
    {
        let mut i: usize = 0;
        while i < self.collection.len()
            invariant
                self.wf(),
                i <= self.collection.len(),
                self@.len() == self.collection.len(),
                forall|j: int| 0 <= j < i ==> (#[trigger] self@[j]).name != name@,
            decreases self.collection.len() - i,
        {
            if *self.collection[i].name() == *name {
                proof {
                    lemma_lookup_found(self@, i as int);
                }
                return Some(i);
            }
            i += 1;
        }
        proof {
            lemma_lookup_missing(self@, name@);
        }
        None
    }

    /// Interns `symbol`. A name that is already known with the same kind
    /// keeps its identifier; a new name gets the next one; a name known with
    /// the other kind is refused and the table stays as it was.
    pub fn add_symbol(&mut self, symbol: Symbol) -> (result: Result<SymbolId, GrammarError>)
        requires
            old(self).wf(),
        ensures
            final(self).wf(),
            result == interned(old(self)@, symbol@),
            result is Ok ==> final(self)@ == after_interning(old(self)@, symbol@),
            result is Err ==> final(self)@ == old(self)@,
            result matches Ok(id) ==> id < final(self)@.len() && final(self)@[id as int]
                == symbol@,
    {
        match self.find(symbol.name()) {
            Some(id) => {
                if self.collection[id].kind() == symbol.kind() {
                    Ok(id)
                } else {
                    Err(GrammarError::SymbolKindConflict { symbol: id })
                }
            },
            None => {
                let id = self.collection.len();
                self.collection.push(symbol);
                proof {
                    assert(final(self)@ =~= old(self)@.push(symbol@));
                }
                Ok(id)
            },
        }
    }

    /// The kind of an interned symbol.
    pub fn kind(&self, symbol_id: SymbolId) -> (kind: SymbolKind)
        requires
            symbol_id < self@.len(),
        ensures
            kind == self@[symbol_id as int].kind,
    {
        self.collection[symbol_id].kind()
    }

    /// The name of an interned symbol, for diagnostics.
    pub fn name(&self, symbol_id: SymbolId) -> (name: &str)
        requires
            symbol_id < self@.len(),
        ensures
            name@ == self@[symbol_id as int].name,
    {
        self.collection[symbol_id].name().as_str()
    }

    /// Whether `symbol_id` is an interned terminal.
    pub fn is_terminal(&self, symbol_id: SymbolId) -> (terminal: bool)
        ensures
            terminal == (symbol_id < self@.len() && self@[symbol_id as int].kind
                == SymbolKind::Terminal),
    {
        if symbol_id < self.collection.len() {
            self.collection[symbol_id].kind() == SymbolKind::Terminal
        } else {
            false
        }
    }

    /// Whether `symbol_id` is an interned non-terminal.
    pub fn is_nonterminal(&self, symbol_id: SymbolId) -> (nonterminal: bool)
        ensures
            nonterminal == (symbol_id < self@.len() && self@[symbol_id as int].kind
                == SymbolKind::Nonterminal),
    {
        if symbol_id < self.collection.len() {
            self.collection[symbol_id].kind() == SymbolKind::Nonterminal
        } else {
            false
        }
    }
}

} // verus!
