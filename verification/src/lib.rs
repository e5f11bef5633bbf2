//! A task distributor: a fixed pool of simulation tasks is handed out to
//! workers one claim at a time, and each task accepts exactly one set of
//! results.
//!
//! * [`models`] holds the records that travel between the store, the
//!   transport and the workers.
//! * [`error`] holds the failures that the store and the configuration report.
//! * [`protocol`] is the mathematical model of the task table: what a claim, a
//!   completion and a seeding do to it, and the laws that follow.
//! * [`laws`] holds what is proved of every series of requests.
//! * [`store`] is the executable task table, proved to behave as the model.
//! * [`outcome`] turns the raw answers of a store into the protocol's results.
//! * [`transport`] turns the protocol's results into replies for the workers.
//! * [`config`] decodes the parts of the configuration that need decoding.

pub mod config;
pub mod error;
pub mod laws;
pub mod models;
pub mod outcome;
pub mod protocol;
pub mod store;
pub mod transport;
