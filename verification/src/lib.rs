//! Order analytics: derived views (totals, filters, rankings, groupings,
//! discounts) over an in-memory collection of orders, together with the small
//! companion modules (payments, user lookup, persistent lists, product
//! statistics) that share the same value-oriented data model.
//!
//! Currency amounts are carried as integer minor units (for instance cents),
//! so every total is exact and every operation is a total function of its
//! inputs.

pub mod model;

pub mod analytics;

pub mod spending;

pub mod basics;

pub mod products;

pub mod payments;

pub mod users;

pub mod flist;

pub mod fibonacci;

