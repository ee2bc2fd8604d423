//! FIFO taint propagation over a UTXO-style ledger.
//!
//! Colored "taint" quantities are attached to transaction outputs and then
//! traced through the chain under a first-in/first-out consumption rule.
//! The heart of the crate is the taint-queue algebra (`taint`): ordered
//! sequences of `(color, value)` fragments with extraction, position-wise
//! combination, and compaction, all specified against recursive models.
//!
//! Around it sit the chain data types (`chain`), uniquely-keyed ledger
//! maps (`maps`), the tag registry (`registry`), parsing and rendering
//! helpers (`text`), and the block-replay engine itself (`engine`), whose
//! `TaintFifo::on_block` drains each transaction's inputs front-first,
//! distributes their taint over outputs and fee-covering coinbase slices,
//! and settles leftover coinbase value as clean.

pub mod chain;
pub mod engine;
pub mod maps;
pub mod registry;
pub mod replay;
pub mod taint;
pub mod text;

pub use chain::{Block, OutPoint, Tx, TxOut};
pub use engine::{AddressInfo, TaintError, TaintFifo};
pub use taint::{CollisionRow, TaintPart};
