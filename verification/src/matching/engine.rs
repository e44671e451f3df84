use vstd::prelude::*;

use super::book::{cancel_result, submit_answer, Book};
use super::model::BookModel;
use super::report::{BookError, BookSnapshot, CancelReport, ExecutionReport, ReportView, TopOfBook};
use crate::domain::{Order, OrderId, OrderSide, Sequence};

verus! {

/// The model of an engine: its book and the last sequence it handed out.
pub struct EngineModel {
    pub book: BookModel,
    pub sequence: Sequence,
}

impl EngineModel {
    /// What submitting `order` does: the next sequence is taken, and kept only when the
    /// book accepts the order. With the sequence space used up nothing changes.
    pub open spec fn submit(self, order: Order) -> (Self, Result<ReportView, BookError>) {
        if self.sequence == u64::MAX {
            (self, Err(BookError::SequenceExhausted))
        } else {
            let next = (self.sequence + 1) as Sequence;
            let (book, answer) = self.book.submit(order, next);
            (
                EngineModel {
                    book,
                    sequence: if answer is Ok {
                        next
                    } else {
                        self.sequence
                    },
                },
                answer,
            )
        }
    }
}

/// The sole command boundary of one book. Every accepted order receives one
/// monotonic sequence.
pub struct Engine {
    book: Book,
    sequence: Sequence,
}

impl View for Engine {
    type V = EngineModel;

    closed spec fn view(&self) -> EngineModel {
        EngineModel { book: self.book@, sequence: self.sequence }
    }
}

impl Engine {
    /// The engine's internal consistency.
    pub closed spec fn wf(&self) -> bool {
        self.book.wf()
    }

    /// An engine over an empty book that rests at most `book_capacity` orders.
    pub fn new(book_capacity: usize) -> (r: Self)
        ensures
            r.wf(),
            r@ == (EngineModel { book: BookModel::empty(book_capacity as nat), sequence: 0 }),
    {
        Engine { book: Book::new(book_capacity), sequence: 0 }
    }

    /// Applies one new order at the next deterministic sequence.
    pub fn submit(&mut self, order: Order) -> (r: Result<ExecutionReport, BookError>)
        requires
            old(self).wf(),
        ensures
            final(self).wf(),
            final(self)@ == old(self)@.submit(order).0,
            submit_answer(r) == old(self)@.submit(order).1,
    {
        let next_sequence = match self.sequence.checked_add(1) {
            Some(next) => next,
            None => {
                return Err(BookError::SequenceExhausted);
            },
        };
        let report = self.book.submit(order, next_sequence);
        match report {
            Ok(report) => {
                self.sequence = next_sequence;
                Ok(report)
            },
            Err(e) => Err(e),
        }
    }

    /// Cancels an active resting order.
    pub fn cancel(&mut self, order_id: OrderId) -> (r: Result<CancelReport, BookError>)
        requires
            old(self).wf(),
        ensures
            final(self).wf(),
            final(self)@.sequence == old(self)@.sequence,
            (final(self)@.book, r) == cancel_result(old(self)@.book, order_id),
    {
        self.book.cancel(order_id)
    }

    /// Returns the best bid and best ask without exposing mutable book state.
    pub fn top_of_book(&self) -> (r: TopOfBook)
        requires
            self.wf(),
        ensures
            r.bid == super::model::top_level(self@.book.bids, OrderSide::Buy),
            r.ask == super::model::top_level(self@.book.asks, OrderSide::Sell),
    {
        self.book.top_of_book()
    }

    /// Returns up to `levels` best price levels on each side.
    pub fn depth(&self, levels: usize) -> (r: BookSnapshot)
        requires
            self.wf(),
        ensures
            super::model::lists_best_levels(self@.book.bids, OrderSide::Buy, levels as nat, r.bids@),
            super::model::lists_best_levels(self@.book.asks, OrderSide::Sell, levels as nat, r.asks@),
    {
        self.book.depth(levels)
    }

    /// Returns all active price levels, best first on each side.
    pub fn snapshot(&self) -> (r: BookSnapshot)
        requires
            self.wf(),
        ensures
            super::model::lists_best_levels(
                self@.book.bids,
                OrderSide::Buy,
                self@.book.bids.dom().len(),
                r.bids@,
            ),
            super::model::lists_best_levels(
                self@.book.asks,
                OrderSide::Sell,
                self@.book.asks.dom().len(),
                r.asks@,
            ),
    {
        self.book.snapshot()
    }

    /// The book, for reads.
    pub fn book(&self) -> (r: &Book)
        ensures
            r@ == self@.book,
            self.wf() ==> r.wf(),
    {
        &self.book
    }
}

} // verus!
