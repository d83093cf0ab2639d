//! A worker that orders transactions fairly by graphs.
//!
//! Clients submit transactions, each of which writes one state ([`transaction`], [`client`]). A
//! worker passes them through four stages:
//!
//! - The batch maker ([`batch_maker`], with its model in [`maker_model`]) seals transactions into
//!   local graphs: batches with an order between transactions on the same state, and with the
//!   pairs whose order it cannot tell.
//! - The global orderer ([`global_orderer`]) collects the local graphs of a round from a quorum of
//!   the [`committee`], and derives a global graph from them ([`global_batch`], by the rules in
//!   [`ordering`]; [`agreement`] says what it does not depend on).
//! - The [`processor`] hashes the global graphs for the store, and reports their digests.
//! - The [`executor`] (with its model in [`executor_model`]) executes the ordered batches, each once
//!   everything that has to go before it was executed, and reports back to the batch maker.
//!
//! The algorithms on graphs stand in [`graph`], [`scc`], [`components`], [`reduction`],
//! [`topology`] and [`pruning`].
//!
//! What holds of the stages as a whole is stated and proved in [`maker_laws`], [`orderer_laws`],
//! [`global_laws`] and [`executor_laws`].

pub mod agreement;
pub mod batch;
pub mod batch_maker;
pub mod channels;
pub mod client;
pub mod committee;
pub mod components;
pub mod control;
pub mod digests;
pub mod evidence;
pub mod execution;
pub mod executor;
pub mod executor_laws;
pub mod executor_model;
pub mod global_batch;
pub mod global_laws;
pub mod global_orderer;
pub mod graph;
pub mod maker_laws;
pub mod maker_model;
pub mod ordered;
pub mod orderer_laws;
pub mod ordering;
pub mod processor;
pub mod pruning;
pub mod reduction;
pub mod scc;
pub mod support;
pub mod topology;
pub mod transaction;
pub mod votes;
