//! A transactional inventory and revenue-sharing ledger for a small
//! point-of-sale application: products with stock and low-stock thresholds,
//! suppliers, customers, owners, an append-only journal of purchases, sales
//! and expenses, percentage-based ownership shares with exact distribution of
//! amounts, paid/unpaid settlement on sales, and derived notifications.
//!
//! The ledger enforces its relational invariants at the operation level:
//! stock is conserved (stock equals opening stock plus purchased minus sold
//! quantities) and never goes negative, finalized share sets sum to exactly
//! one hundred percent, journal rows reference existing master data, and a
//! settled sale never returns to unpaid.

pub mod types;
pub mod keyed;
pub mod inventory;
pub mod ledger;
pub mod catalog;
pub mod journal;
pub mod notify;
pub mod payment;
pub mod shares;
pub mod laws;
pub mod queries;
