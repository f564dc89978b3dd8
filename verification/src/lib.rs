//! A census of the relays in a cardano-node peer snapshot: which of them
//! answered, weighted by stake.

pub mod accounts;
pub mod amounts;
pub mod asn;
pub mod cbor;
pub mod census;
pub mod chains;
pub mod churn;
pub mod cli;
pub mod count;
pub mod figures;
pub mod finding;
pub mod gathering;
pub mod histogram;
pub mod hosting;
pub mod ip;
pub mod listing;
pub mod metrics;
pub mod net;
pub mod networks;
pub mod node;
pub mod operators;
pub mod outcomes;
pub mod pools;
pub mod probe;
pub mod reasons;
pub mod refusals;
pub mod report;
pub mod resolve;
pub mod reversed;
pub mod rows;
pub mod schedule;
pub mod series;
pub mod snapshot;
pub mod sort;
pub mod spelling;
pub mod stake;
pub mod standing;
pub mod steps;
pub mod table;
pub mod tally;
pub mod text;
pub mod timing;
pub mod wire;
pub mod wording;
