//! Measuring how quickly DNS servers answer.
//!
//! A run asks each server of a list for the addresses of one domain, a fixed
//! number of times, and reports for each server how many requests failed and
//! how long the others took.
//!
//! - [`wire`] writes the query and reads the response.
//! - [`resolver`] says what one measurement sends and what it makes of the
//!   reply.
//! - [`scheduler`] decides which server is asked next and when.
//! - [`summary`] gathers the outcomes of a run into one summary for each
//!   server, with its latencies in a [`histogram`].
//! - [`ranking`] puts the summaries in the order of the report.
//! - [`report`] turns them into the rows of the report.
//!
//! Sockets, clocks and the terminal are left to the caller.

pub mod address;
pub mod error;
pub mod histogram;
pub mod outcome;
pub mod ranking;
pub mod report;
pub mod resolver;
pub mod scheduler;
pub mod summary;
pub mod wire;
