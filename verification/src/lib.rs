//! An exporter that bridges the administration protocol of a network access
//! server to a pull-based metrics format.
//!
//! The backend is asked for its statistics over one authenticated
//! connection; what it answers is decoded, combined with the metrics that
//! the configuration describes, and rendered as one metrics document for
//! each scrape.
//!
//! - [`radiator`] decides what the protocol client does: the login, the
//!   frames that the reader passes on, and the exchange of one command for
//!   its answer with its reconnection and its retries.
//! - [`codec`] reads the payload of an answer: statistics and identifiers.
//! - [`config`] holds the configuration and the rules that it has to meet.
//! - [`assembly`] fills the metrics of the configuration with statistics.
//! - [`openmetrics`] is the registry of metrics and its text rendering.
//! - [`scrape`] leads one scrape from the request to the reply.
//! - [`text`], [`textmap`], [`notation`] and [`util`] serve the others: the
//!   order of texts, maps keyed by text, the notation of numbers, and bytes
//!   in hexadecimal.
//!
//! Sockets, tasks, locks and the HTTP server are not here: whoever uses the
//! library performs what it asks for and hands back what happened.

pub mod assembly;
pub mod codec;
pub mod config;
pub mod notation;
pub mod openmetrics;
pub mod radiator;
pub mod scrape;
pub mod text;
pub mod textmap;
pub mod util;
