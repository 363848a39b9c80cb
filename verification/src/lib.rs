//! An engine that learns from the life of spans how the operations of a
//! program depend on each other.
//!
//! The host reports each span that opens, closes or follows another, and
//! each error event, to a [`dependency::DependencyLayer`]. The layer keeps
//! a record of every open span and tells a
//! [`processor::DependencyProcessor`] what it sees. The processor feeds two
//! estimators: one of what follows what in each context
//! ([`markov::ContextMarkovEstimator`]), one of how often each span fails
//! and with which of its sub-spans
//! ([`bernoulli::ManyCategoryBernEstimator`]). A summary shows both as
//! tables in the order of their keys, every share as a pair of counts.
//!
//! Every function states what it does over a model of its type: a map, a
//! list, or a record of such. The methods take `&mut self`, so that a
//! caller who shares an engine between threads puts it behind a lock.

pub mod bernoulli;
pub mod chain;
pub mod dependency;
pub mod entries;
pub mod markov;
pub mod processor;
pub mod record;
pub mod snapshot;
pub mod table;
pub mod text;
