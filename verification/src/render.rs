//! Text for diagnostics: items, actions and states as lines of text.

use crate::grammar::{Grammar, GrammarView};
use crate::invariants::{lemma_cell_wf, lemma_state_wf};
use crate::item::{listing, Item, ItemSet};
use crate::symbols::SymbolId;
use crate::table::{Action, Tables, TablesView};
use vstd::prelude::*;
use vstd::string::StringExecFns;

verus! {

/// The text of the digit `digit`.
pub open spec fn digit(digit: int) -> Seq<char> {
    if digit == 0 {
        "0"@
    } else if digit == 1 {
        "1"@
    } else if digit == 2 {
        "2"@
    } else if digit == 3 {
        "3"@
    } else if digit == 4 {
        "4"@
    } else if digit == 5 {
        "5"@
    } else if digit == 6 {
        "6"@
    } else if digit == 7 {
        "7"@
    } else if digit == 8 {
        "8"@
    } else {
        "9"@
    }
}

/// The decimal text of `number`.
pub open spec fn decimal(number: nat) -> Seq<char>
    decreases number,
{
    if number < 10 {
        digit(number as int)
    } else {
        decimal(number / 10) + digit((number % 10) as int)
    }
}

/// The text of a digit.
fn digit_text(value: usize) -> (text: &'static str)
    requires
        value < 10,
    ensures
        text@ == digit(value as int),
{
    if value == 0 {
        "0"
    } else if value == 1 {
        "1"
    } else if value == 2 {
        "2"
    } else if value == 3 {
        "3"
    } else if value == 4 {
        "4"
    } else if value == 5 {
        "5"
    } else if value == 6 {
        "6"
    } else if value == 7 {
        "7"
    } else if value == 8 {
        "8"
    } else {
        "9"
    }
}

/// The decimal text of `number`.
pub fn decimal_text(number: usize) -> (text: String)
    ensures
        text@ == decimal(number as nat),
    decreases number,
{
    if number < 10 {
        String::from_str(digit_text(number))
    } else {
        let mut text = decimal_text(number / 10);
        text.append(digit_text(number % 10));
        text
    }
}

/// The views of the lines of `lines`.
pub open spec fn texts(lines: Seq<String>) -> Seq<Seq<char>> {
    lines.map_values(|line: String| line@)
}

impl GrammarView {
    /// The name of `symbol`.
    pub open spec fn name(self, symbol: SymbolId) -> Seq<char> {
        self.symbols[symbol as int].name
    }

    /// The text of `action` in the column of the symbol named `symbol`.
    pub open spec fn action_text(self, action: Action, symbol: Seq<char>) -> Seq<char> {
        match action {
            Action::Goto(target) => "goto("@ + symbol + ", "@ + decimal(target as nat) + ")"@,
            Action::Shift(target) => "shift("@ + symbol + ", "@ + decimal(target as nat) + ")"@,
            Action::Reduce(rule) => "reduce("@ + symbol + ", "@ + decimal(self.rhs(rule).len())
                + ", "@ + decimal(self.productions[rule as int].lhs as nat) + ")"@,
            Action::Accept => "accept("@ + symbol + ")"@,
            Action::Error => "error("@ + symbol + ")"@,
        }
    }

    /// The text of the first `upto` symbols of `rhs`, each after a blank,
    /// with the dot before the symbol at `position`.
    pub open spec fn dotted(self, rhs: Seq<SymbolId>, position: int, upto: int) -> Seq<char>
        decreases upto,
    {
        if upto <= 0 {
            Seq::empty()
        } else {
            let earlier = self.dotted(rhs, position, upto - 1);
            let marked = if position == upto - 1 {
                earlier + " \u{b7}"@
            } else {
                earlier
            };
            marked + " "@ + self.name(rhs[upto - 1])
        }
    }

    /// The text of `item`: `[A -> α · β, a]`.
    pub open spec fn item_text(self, item: Item) -> Seq<char> {
        let rhs = self.rhs(item.rule);
        let body = "["@ + self.name(self.productions[item.rule as int].lhs) + " ->"@ + self.dotted(
            rhs,
            item.position as int,
            rhs.len() as int,
        );
        let marked = if item.position >= rhs.len() {
            body + " \u{b7}"@
        } else {
            body
        };
        marked + ", "@ + self.name(item.lookahead) + "]"@
    }

    /// `action` can be put into text: a reduction is by a production of the
    /// grammar.
    pub open spec fn printable(self, action: Action) -> bool {
        action matches Action::Reduce(rule) ==> rule < self.productions.len()
    }

    /// `item` can be put into text: a production of the grammar, a dot
    /// within the right-hand side, a symbol as lookahead.
    pub open spec fn item_printable(self, item: Item) -> bool {
        &&& item.rule < self.productions.len()
        &&& item.position <= self.productions[item.rule as int].rhs.len()
        &&& item.lookahead < self.symbols.len()
    }

    /// A line for each of the first `upto` cells of `row` that is no error,
    /// in the order of the symbols.
    pub open spec fn action_lines(self, row: Seq<Action>, upto: int) -> Seq<Seq<char>>
        decreases upto,
    {
        if upto <= 0 {
            Seq::empty()
        } else {
            let earlier = self.action_lines(row, upto - 1);
            if row[upto - 1] != Action::Error {
                earlier.push(self.action_text(row[upto - 1], self.name((upto - 1) as usize)))
            } else {
                earlier
            }
        }
    }

    /// A line for each of the first `upto` items of `listed`.
    pub open spec fn item_lines(self, listed: Seq<Item>, upto: int) -> Seq<Seq<char>>
        decreases upto,
    {
        if upto <= 0 {
            Seq::empty()
        } else {
            self.item_lines(listed, upto - 1).push(self.item_text(listed[upto - 1]))
        }
    }

    /// The lines of state `state`: an empty line, the number of the state,
    /// its items under a heading, and its actions under a heading.
    pub open spec fn state_lines(self, tables: TablesView, state: int) -> Seq<Seq<char>> {
        let listed = listing(tables.automaton.states[state]);
        let row = tables.actions[state];
        seq![Seq::<char>::empty(), decimal(state as nat), "--- items ---"@] + self.item_lines(
            listed,
            listed.len() as int,
        ) + seq!["--- actions ---"@] + self.action_lines(row, row.len() as int)
    }

    /// The lines of the first `upto` states.
    pub open spec fn report(self, tables: TablesView, upto: int) -> Seq<Seq<char>>
        decreases upto,
    {
        if upto <= 0 {
            Seq::empty()
        } else {
            self.report(tables, upto - 1) + self.state_lines(tables, upto - 1)
        }
    }
}

impl Action {
    /// The text of this action in the column of the symbol named `symbol`:
    /// `shift(symbol, state)`, `goto(symbol, state)`, `accept(symbol)`,
    /// `error(symbol)`, or for a reduction `reduce(symbol, n, A)` with the
    /// length `n` of the right-hand side and the number of the left-hand
    /// side `A` of the production.
    pub fn render(&self, grammar: &Grammar, symbol: &str) -> (text: String)
        requires
            grammar@.printable(*self),
        ensures
            text@ == grammar@.action_text(*self, symbol@),
    {
        match self {
            Action::Goto(target) => {
                let mut text = String::from_str("goto(");
                text.append(symbol);
                text.append(", ");
                text.append(decimal_text(*target).as_str());
                text.append(")");
                text
            },
            Action::Shift(target) => {
                let mut text = String::from_str("shift(");
                text.append(symbol);
                text.append(", ");
                text.append(decimal_text(*target).as_str());
                text.append(")");
                text
            },
            Action::Reduce(rule) => {
                let production = grammar.production(*rule);
                let mut text = String::from_str("reduce(");
                text.append(symbol);
                text.append(", ");
                text.append(decimal_text(production.rhs.len()).as_str());
                text.append(", ");
                text.append(decimal_text(production.lhs).as_str());
                text.append(")");
                text
            },
            Action::Accept => {
                let mut text = String::from_str("accept(");
                text.append(symbol);
                text.append(")");
                text
            },
            Action::Error => {
                let mut text = String::from_str("error(");
                text.append(symbol);
                text.append(")");
                text
            },
        }
    }
}

impl Item {
    /// The text of this item, `[A -> α · β, a]`, with the names of the
    /// symbols.
    pub fn render(&self, grammar: &Grammar) -> (text: String)
        requires
            grammar.wf(),
            grammar@.item_printable(*self),
        ensures
            text@ == grammar@.item_text(*self),
    {
        let production = grammar.production(self.rule);
        let symbols = grammar.symbols();
        proof {
            assert(grammar@.production_wf(self.rule as int));
        }
        let mut text = String::from_str("[");
        text.append(symbols.name(production.lhs));
        text.append(" ->");
        let ghost head = text@;
        let ghost rhs = production.rhs@;
        let mut k: usize = 0;
        while k < production.rhs.len()
            invariant
                grammar.wf(),
                symbols@ == grammar@.symbols,
                rhs == production.rhs@,
                forall|i: int| 0 <= i < rhs.len() ==> (#[trigger] rhs[i]) < grammar@.symbols.len(),
                k <= rhs.len(),
                text@ == head + grammar@.dotted(rhs, self.position as int, k as int),
            decreases production.rhs.len() - k,
        {
            let ghost before = grammar@.dotted(rhs, self.position as int, k as int);
            if k == self.position {
                text.append(" \u{b7}");
            }
            text.append(" ");
            text.append(symbols.name(production.rhs[k]));
            proof {
                let marked = if self.position == k {
                    before + " \u{b7}"@
                } else {
                    before
                };
                assert(grammar@.dotted(rhs, self.position as int, k + 1) == marked + " "@
                    + grammar@.name(rhs[k as int]));
                assert(text@ =~= head + grammar@.dotted(rhs, self.position as int, k + 1));
            }
            k += 1;
        }
        if self.position >= production.rhs.len() {
            text.append(" \u{b7}");
        }
        text.append(", ");
        text.append(symbols.name(self.lookahead));
        text.append("]");
        proof {
            assert(rhs == grammar@.rhs(self.rule));
        }
        text
    }
}

/// The actions of a row as lines of text: a line for each cell that is no
/// error, in the order of the symbols.
pub fn render_actions(actions: &Vec<Action>, grammar: &Grammar) -> (lines: Vec<String>)
    requires
        grammar.wf(),
        actions@.len() <= grammar@.symbols.len(),
        forall|symbol: int|
            0 <= symbol < actions@.len() ==> grammar@.printable(#[trigger] actions@[symbol]),
    ensures
        texts(lines@) == grammar@.action_lines(actions@, actions@.len() as int),
{
    let symbols = grammar.symbols();
    let mut lines: Vec<String> = Vec::new();
    let mut symbol: usize = 0;
    proof {
        assert(texts(lines@) =~= grammar@.action_lines(actions@, 0));
    }
    while symbol < actions.len()
        invariant
            grammar.wf(),
            symbols@ == grammar@.symbols,
            actions@.len() <= grammar@.symbols.len(),
            forall|x: int| 0 <= x < actions@.len() ==> grammar@.printable(#[trigger] actions@[x]),
            symbol <= actions@.len(),
            texts(lines@) == grammar@.action_lines(actions@, symbol as int),
        decreases actions.len() - symbol,
    {
        let action = actions[symbol];
        if action != Action::Error {
            let ghost before = lines@;
            let line = action.render(grammar, symbols.name(symbol));
            lines.push(line);
            proof {
                assert(texts(lines@) =~= texts(before).push(line@));
            }
        }
        symbol += 1;
    }
    lines
}

/// The items of `items` as lines of text, in the order of the items.
pub fn render_items(items: &ItemSet, grammar: &Grammar) -> (lines: Vec<String>)
    requires
        grammar.wf(),
        items.wf(),
        forall|item: Item| items@.contains(item) ==> #[trigger] grammar@.item_printable(item),
    ensures
        texts(lines@) == grammar@.item_lines(listing(items@), listing(items@).len() as int),
{
    let mut lines: Vec<String> = Vec::new();
    let mut k: usize = 0;
    proof {
        items.lemma_listing();
        assert(texts(lines@) =~= grammar@.item_lines(items.seq(), 0));
    }
    while k < items.len()
        invariant
            grammar.wf(),
            items.wf(),
            forall|item: Item| items@.contains(item) ==> #[trigger] grammar@.item_printable(item),
            k <= items.seq().len(),
            texts(lines@) == grammar@.item_lines(items.seq(), k as int),
        decreases items.seq().len() - k,
    {
        let item = items.get(k);
        let ghost before = lines@;
        let line = item.render(grammar);
        lines.push(line);
        proof {
            assert(texts(lines@) =~= texts(before).push(line@));
        }
        k += 1;
    }
    lines
}

/// Appends the lines of `more` to `lines`.
fn append_lines(lines: &mut Vec<String>, more: Vec<String>)
    ensures
        texts(final(lines)@) == texts(old(lines)@) + texts(more@),
{
    let ghost before = lines@;
    let ghost added = more@;
    let mut more = more;
    lines.append(&mut more);
    proof {
        assert(texts(lines@) =~= texts(before) + texts(added));
    }
}

/// The states of `tables` as lines of text: for every state an empty line,
/// its number, its items under the heading `--- items ---` and its actions
/// under the heading `--- actions ---`.
pub fn render_states(tables: &Tables, grammar: &Grammar) -> (lines: Vec<String>)
    requires
        grammar.wf(),
        tables.automaton.wf(),
        grammar@.emits(tables@),
    ensures
        texts(lines@) == grammar@.report(tables@, tables@.automaton.states.len() as int),
{
    let ghost view = tables@;
    let mut lines: Vec<String> = Vec::new();
    let mut state: usize = 0;
    proof {
        assert(texts(lines@) =~= grammar@.report(view, 0));
    }
    while state < tables.automaton.states.len()
        invariant
            grammar.wf(),
            tables.automaton.wf(),
            view == tables@,
            grammar@.emits(view),
            state <= view.automaton.states.len(),
            texts(lines@) == grammar@.report(view, state as int),
        decreases tables.automaton.states.len() - state,
    {
        let items = &tables.automaton.states[state];
        let row = &tables.actions[state];
        proof {
            lemma_state_wf(grammar@, view.automaton, state as int);
            assert forall|item: Item| items@.contains(item) implies #[trigger] grammar@.item_printable(
                item,
            ) by {
                assert(grammar@.item_wf(item));
            }
            assert(row@ == view.actions[state as int]);
            assert forall|symbol: int| 0 <= symbol < row@.len() implies grammar@.printable(
                #[trigger] row@[symbol],
            ) by {
                lemma_cell_wf(
                    grammar@,
                    view.automaton,
                    state as int,
                    symbol as usize,
                    view.prefer_reduce,
                );
            }
        }
        let ghost before = lines@;
        let mut heading: Vec<String> = Vec::new();
        heading.push(String::new());
        heading.push(decimal_text(state));
        heading.push(String::from_str("--- items ---"));
        let ghost heading_texts = texts(heading@);
        proof {
            assert(heading_texts =~= seq![
                Seq::<char>::empty(),
                decimal(state as nat),
                "--- items ---"@,
            ]);
        }
        append_lines(&mut lines, heading);
        let item_lines = render_items(items, grammar);
        let ghost item_texts = texts(item_lines@);
        append_lines(&mut lines, item_lines);
        let mut second: Vec<String> = Vec::new();
        second.push(String::from_str("--- actions ---"));
        let ghost second_texts = texts(second@);
        proof {
            assert(second_texts =~= seq!["--- actions ---"@]);
        }
        append_lines(&mut lines, second);
        let action_lines = render_actions(row, grammar);
        let ghost action_texts = texts(action_lines@);
        append_lines(&mut lines, action_lines);
        proof {
            assert(texts(lines@) =~= texts(before) + (heading_texts + item_texts + second_texts
                + action_texts));
            assert(view.automaton.states[state as int] == items@);
        }
        state += 1;
    }
    lines
}

} // verus!
