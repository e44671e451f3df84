//! The matching core: arena-backed FIFO price levels, price-time priority matching,
//! per-symbol engines and exchange routing. Pure and synchronous.

mod arena;
pub mod command;
pub mod book;
pub mod engine;
pub mod exchange;
mod instrument_registry;
mod levels;
pub mod laws;
pub mod model;
pub mod outcome;
pub mod report;

pub use book::Book;
pub use command::{CommandQueueError, EngineCommand, EngineReply};
pub use engine::{Engine, EngineModel};
pub use exchange::{Exchange, ExchangeError, ExchangeModel};
pub use instrument_registry::{InstrumentRegistry, InstrumentRegistryError};
pub use model::BookModel;
pub use outcome::{EngineFault, RejectReason, RejectionReport, SubmitOutcome};
pub use report::{
    BookError, BookSnapshot, CancelReport, ExecutionReport, PriceLevelView, ReportView, TopOfBook,
};
