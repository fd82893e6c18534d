//! Todo and label repositories: an in-memory store, the decision steps of the
//! relational store, and the aggregation of joined rows into nested entities.

pub mod repositories;
