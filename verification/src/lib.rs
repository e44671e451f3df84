//! A deterministic, single-writer limit order book.
//!
//! `domain` holds the value types; `matching` is the matching core: arena-backed FIFO
//! price levels, price-time priority matching, per-symbol engines and exchange routing.
//! `service` and `http` hold the transport-agnostic decisions of the request layer, and
//! `config` the checks that configuration text must pass.

pub mod domain;

pub mod matching;
pub mod service;
pub mod http;
pub mod config;
pub mod text;
