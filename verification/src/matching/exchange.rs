use std::collections::HashMap;

use vstd::prelude::*;
use vstd::std_specs::iter::IteratorSpec;

use super::book::{cancel_result, submit_answer};
use super::engine::{Engine, EngineModel};
use super::report::{BookError, BookSnapshot, CancelReport, ExecutionReport, ReportView, TopOfBook};
use crate::domain::{Order, OrderId, OrderSide, Symbol};

verus! {

/// Why the exchange refused a command.
#[derive(Debug, Clone, Copy, PartialEq, Eq, Structural)]
pub enum ExchangeError {
    /// No engine is configured for the symbol.
    UnknownSymbol(Symbol),
    /// The symbol's book refused the command.
    Book(BookError),
}

/// The model of an exchange: one engine per configured symbol, keyed by the symbol's
/// packed value, and the capacity given to the books of newly prepared symbols.
pub struct ExchangeModel {
    pub engines: Map<u128, EngineModel>,
    pub book_capacity: nat,
}

/// An exchange answer read through the report views.
pub open spec fn exchange_answer(r: Result<ExecutionReport, ExchangeError>) -> Result<
    ReportView,
    ExchangeError,
> {
    match r {
        Ok(report) => Ok(report@),
        Err(e) => Err(e),
    }
}

/// A book answer as the exchange reports it.
pub open spec fn lift_answer(r: Result<ReportView, BookError>) -> Result<ReportView, ExchangeError> {
    match r {
        Ok(report) => Ok(report),
        Err(e) => Err(ExchangeError::Book(e)),
    }
}

/// Whether `code` is the packed value of a symbol text.
pub open spec fn is_symbol_code(code: u128) -> bool {
    &&& crate::domain::symbol::is_symbol_text(crate::domain::symbol::unpack(code as nat))
    &&& crate::domain::symbol::pack(crate::domain::symbol::unpack(code as nat)) == code
}

/// Routes commands to one independent matching engine per instrument.
pub struct Exchange {
    books: HashMap<u128, Engine>,
    book_capacity: usize,
}

impl View for Exchange {
    type V = ExchangeModel;

    closed spec fn view(&self) -> ExchangeModel {
        ExchangeModel {
            engines: self.books@.map_values(|e: Engine| e@),
            book_capacity: self.book_capacity as nat,
        }
    }
}

impl Exchange {
    /// The exchange's internal consistency: every engine is consistent and every key
    /// is a symbol's packed value.
    pub closed spec fn wf(&self) -> bool {
        &&& forall|k: u128| #[trigger] self.books@.contains_key(k) ==> self.books@[k].wf()
        &&& forall|k: u128| #[trigger] self.books@.contains_key(k) ==> is_symbol_code(k)
    }

    /// An exchange with no symbols whose books will rest at most `book_capacity` orders.
    pub fn new(book_capacity: usize) -> (r: Self)
        ensures
            r.wf(),
            r@.engines == Map::<u128, EngineModel>::empty(),
            r@.book_capacity == book_capacity,
    {
        let r = Exchange { books: HashMap::new(), book_capacity };
        assert(r@.engines =~= Map::<u128, EngineModel>::empty());
        r
    }

    /// Gives every listed symbol that has none an engine over an empty book; symbols
    /// already configured keep theirs.
    pub fn prepare_symbols(&mut self, symbols: &[Symbol])
        requires
            old(self).wf(),
        ensures
            final(self).wf(),
            final(self)@.book_capacity == old(self)@.book_capacity,
            forall|k: u128|
                #[trigger] final(self)@.engines.contains_key(k) == (old(self)@.engines.contains_key(k)
                    || exists|i: int| 0 <= i < symbols@.len() && symbols@[i].code_spec() == k),
            forall|k: u128| #[trigger]
                old(self)@.engines.contains_key(k) ==> final(self)@.engines[k] == old(self)@.engines[k],
            forall|k: u128| #[trigger]
                final(self)@.engines.contains_key(k) && !old(self)@.engines.contains_key(k)
                    ==> final(self)@.engines[k] == (EngineModel {
                    book: super::BookModel::empty(old(self)@.book_capacity),
                    sequence: 0,
                }),
    {
        let mut i: usize = 0;
        while i < symbols.len()
            invariant
                self.wf(),
                i <= symbols@.len(),
                self.book_capacity == old(self).book_capacity,
                forall|k: u128|
                    #[trigger] self.books@.contains_key(k) == (old(self).books@.contains_key(k)
                        || exists|j: int| 0 <= j < i && symbols@[j].code_spec() == k),
                forall|k: u128| #[trigger]
                    old(self).books@.contains_key(k) ==> self.books@[k]@ == old(self).books@[k]@,
                forall|k: u128| #[trigger]
                    self.books@.contains_key(k) && !old(self).books@.contains_key(k) ==> self.books@[k]@
                        == (EngineModel {
                        book: super::BookModel::empty(old(self).book_capacity as nat),
                        sequence: 0,
                    }),
            decreases symbols@.len() - i,
        {
            let symbol = symbols[i];
            proof {
                use_type_invariant(&symbol);
            }
            let code = symbol.code();
            if !self.books.contains_key(&code) {
                let engine = Engine::new(self.book_capacity);
                self.books.insert(code, engine);
            }
            proof {
                assert forall|k: u128|
                    #[trigger] self.books@.contains_key(k) == (old(self).books@.contains_key(k)
                        || exists|j: int| 0 <= j < i + 1 && symbols@[j].code_spec() == k) by {
                    if k == code {
                        assert(symbols@[i as int].code_spec() == k);
                    }
                }
            }
            i = i + 1;
        }
    }

    /// The configured engines with their symbols, consuming the exchange.
    pub fn into_books(self) -> (r: Vec<(Symbol, Engine)>)
        requires
            self.wf(),
        ensures
            r@.len() == self@.engines.dom().len(),
            forall|i: int|
                0 <= i < r@.len() ==> {
                    let (symbol, engine) = #[trigger] r@[i];
                    &&& self@.engines.contains_key(symbol.code_spec())
                    &&& engine@ == self@.engines[symbol.code_spec()]
                    &&& engine.wf()
                    &&& symbol.valid()
                },
            forall|i: int, j: int|
                0 <= i < j < r@.len() ==> r@[i].0.code_spec() != r@[j].0.code_spec(),
            forall|k: u128| #[trigger]
                self@.engines.contains_key(k) ==> exists|i: int|
                    0 <= i < r@.len() && r@[i].0.code_spec() == k,
    {
        let ghost original = self.books@;
        let mut books = self.books;
        let mut codes: Vec<u128> = Vec::new();
        let keys = books.keys();
        let ghost all = keys.remaining();
        for key in it: keys
            invariant
                it.seq() == all,
                codes@.len() == it.index(),
                forall|j: int| 0 <= j < codes@.len() ==> codes@[j] == *all[j],
        {
            codes.push(*key);
        }
        proof {
            assert(all.unref().to_set() == original.dom());
            assert(all.no_duplicates());
            assert(codes@ =~= all.unref());
        }
        let mut r: Vec<(Symbol, Engine)> = Vec::new();
        let mut i: usize = 0;
        while i < codes.len()
            invariant
                codes@.no_duplicates(),
                codes@.to_set() == original.dom(),
                codes@.len() == original.dom().len(),
                i <= codes@.len(),
                r@.len() == i,
                forall|k: u128| #[trigger] original.contains_key(k) ==> original[k].wf() && is_symbol_code(k),
                forall|k: u128| #[trigger]
                    books@.contains_key(k) == (original.contains_key(k) && forall|j: int|
                        0 <= j < i ==> #[trigger] codes@[j] != k),
                forall|k: u128| #[trigger] books@.contains_key(k) ==> books@[k] == original[k],
                forall|j: int|
                    0 <= j < r@.len() ==> {
                        let (symbol, engine) = #[trigger] r@[j];
                        &&& symbol.code_spec() == codes@[j]
                        &&& engine == original[codes@[j]]
                        &&& symbol.valid()
                    },
            decreases codes@.len() - i,
        {
            let code = codes[i];
            proof {
                assert(codes@.to_set().contains(code));
                assert(forall|j: int| 0 <= j < i ==> #[trigger] codes@[j] != code);
            }
            match books.remove(&code) {
                Some(engine) => {
                    let symbol = Symbol::from_code(code);
                    r.push((symbol, engine));
                },
                None => {
                    proof {
                        assert(false);
                    }
                },
            }
            proof {
                assert forall|k: u128| #[trigger]
                    books@.contains_key(k) == (original.contains_key(k) && forall|j: int|
                        0 <= j < i + 1 ==> #[trigger] codes@[j] != k) by {
                    if k == code {
                        assert(codes@[i as int] == k);
                    }
                }
            }
            i = i + 1;
        }
        proof {
            assert(self@.engines.dom() =~= original.dom());
            assert forall|a: int, b: int| 0 <= a < b < r@.len() implies r@[a].0.code_spec() != r@[b].0.code_spec() by {
                assert(codes@[a] != codes@[b]);
            }
            assert forall|k: u128| #[trigger] original.contains_key(k) implies exists|j: int|
                0 <= j < r@.len() && r@[j].0.code_spec() == k by {
                assert(codes@.to_set().contains(k));
                let j = choose|j: int| 0 <= j < codes@.len() && codes@[j] == k;
                assert(r@[j].0.code_spec() == k);
            }
        }
        r
    }

    /// Submits `order` to the engine of `symbol`.
    pub fn submit(&mut self, symbol: Symbol, order: Order) -> (r: Result<ExecutionReport, ExchangeError>)
        requires
            old(self).wf(),
        ensures
            final(self).wf(),
            final(self)@.book_capacity == old(self)@.book_capacity,
            !old(self)@.engines.contains_key(symbol.code_spec()) ==> r == Err::<ExecutionReport, ExchangeError>(
                ExchangeError::UnknownSymbol(symbol),
            ) && final(self)@ == old(self)@,
            old(self)@.engines.contains_key(symbol.code_spec()) ==> ({
                let (engine, answer) = old(self)@.engines[symbol.code_spec()].submit(order);
                &&& final(self)@.engines == old(self)@.engines.insert(symbol.code_spec(), engine)
                &&& exchange_answer(r) == lift_answer(answer)
            }),
    {
        let code = symbol.code();
        match self.books.remove(&code) {
            None => {
                proof {
                    assert(self.books@ == old(self).books@);
                }
                Err(ExchangeError::UnknownSymbol(symbol))
            },
            Some(mut engine) => {
                proof {
                    assert(old(self).books@.contains_key(code));
                }
                let r = engine.submit(order);
                self.books.insert(code, engine);
                proof {
                    assert(self@.engines =~= old(self)@.engines.insert(code, engine@));
                }
                match r {
                    Ok(report) => Ok(report),
                    Err(e) => Err(ExchangeError::Book(e)),
                }
            },
        }
    }

    /// Cancels `order_id` on the engine of `symbol`.
    pub fn cancel(&mut self, symbol: Symbol, order_id: OrderId) -> (r: Result<CancelReport, ExchangeError>)
        requires
            old(self).wf(),
        ensures
            final(self).wf(),
            final(self)@.book_capacity == old(self)@.book_capacity,
            !old(self)@.engines.contains_key(symbol.code_spec()) ==> r == Err::<CancelReport, ExchangeError>(
                ExchangeError::UnknownSymbol(symbol),
            ) && final(self)@ == old(self)@,
            old(self)@.engines.contains_key(symbol.code_spec()) ==> ({
                let before = old(self)@.engines[symbol.code_spec()];
                let (book, answer) = cancel_result(before.book, order_id);
                &&& final(self)@.engines == old(self)@.engines.insert(
                    symbol.code_spec(),
                    EngineModel { book, sequence: before.sequence },
                )
                &&& r == match answer {
                    Ok(report) => Ok::<CancelReport, ExchangeError>(report),
                    Err(e) => Err(ExchangeError::Book(e)),
                }
            }),
    {
        let code = symbol.code();
        match self.books.remove(&code) {
            None => {
                proof {
                    assert(self.books@ == old(self).books@);
                }
                Err(ExchangeError::UnknownSymbol(symbol))
            },
            Some(mut engine) => {
                let r = engine.cancel(order_id);
                self.books.insert(code, engine);
                proof {
                    assert(self@.engines =~= old(self)@.engines.insert(code, engine@));
                }
                match r {
                    Ok(report) => Ok(report),
                    Err(e) => Err(ExchangeError::Book(e)),
                }
            },
        }
    }

    /// Returns the best bid and ask of `symbol`'s book.
    pub fn top_of_book(&self, symbol: Symbol) -> (r: Result<TopOfBook, ExchangeError>)
        requires
            self.wf(),
        ensures
            !self@.engines.contains_key(symbol.code_spec()) ==> r == Err::<TopOfBook, ExchangeError>(
                ExchangeError::UnknownSymbol(symbol),
            ),
            self@.engines.contains_key(symbol.code_spec()) ==> (r matches Ok(top) && {
                let book = self@.engines[symbol.code_spec()].book;
                &&& top.bid == super::model::top_level(book.bids, OrderSide::Buy)
                &&& top.ask == super::model::top_level(book.asks, OrderSide::Sell)
            }),
    {
        match self.books.get(&symbol.code()) {
            None => Err(ExchangeError::UnknownSymbol(symbol)),
            Some(engine) => Ok(engine.top_of_book()),
        }
    }

    /// Returns up to `levels` best price levels on each side of `symbol`'s book.
    pub fn depth(&self, symbol: Symbol, levels: usize) -> (r: Result<BookSnapshot, ExchangeError>)
        requires
            self.wf(),
        ensures
            !self@.engines.contains_key(symbol.code_spec()) ==> r == Err::<BookSnapshot, ExchangeError>(
                ExchangeError::UnknownSymbol(symbol),
            ),
            self@.engines.contains_key(symbol.code_spec()) ==> (r matches Ok(snapshot) && {
                let book = self@.engines[symbol.code_spec()].book;
                &&& super::model::lists_best_levels(book.bids, OrderSide::Buy, levels as nat, snapshot.bids@)
                &&& super::model::lists_best_levels(book.asks, OrderSide::Sell, levels as nat, snapshot.asks@)
            }),
    {
        match self.books.get(&symbol.code()) {
            None => Err(ExchangeError::UnknownSymbol(symbol)),
            Some(engine) => Ok(engine.depth(levels)),
        }
    }

    /// Returns all active price levels of `symbol`'s book, best first on each side.
    pub fn snapshot(&self, symbol: Symbol) -> (r: Result<BookSnapshot, ExchangeError>)
        requires
            self.wf(),
        ensures
            !self@.engines.contains_key(symbol.code_spec()) ==> r == Err::<BookSnapshot, ExchangeError>(
                ExchangeError::UnknownSymbol(symbol),
            ),
            self@.engines.contains_key(symbol.code_spec()) ==> (r matches Ok(snapshot) && {
                let book = self@.engines[symbol.code_spec()].book;
                &&& super::model::lists_best_levels(book.bids, OrderSide::Buy, book.bids.dom().len(), snapshot.bids@)
                &&& super::model::lists_best_levels(book.asks, OrderSide::Sell, book.asks.dom().len(), snapshot.asks@)
            }),
    {
        match self.books.get(&symbol.code()) {
            None => Err(ExchangeError::UnknownSymbol(symbol)),
            Some(engine) => Ok(engine.snapshot()),
        }
    }
}

} // verus!
