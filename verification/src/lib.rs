//! An autoregressive forecast of energy prices: from a table of prices in
//! time to lag features, a linear model fitted by gradient descent, and its
//! scores against the persistence baseline.
//!
//! The stages work on a small columnar [`table::Table`], whose meaning as a
//! mathematical value is in [`view`]. [`pipeline::train_eval_from_curated`]
//! runs them in their order: [`reorder`], [`lag`], [`filter`], [`split`],
//! [`train`], [`model`] and [`metrics`]. Numbers are binary64 values carried
//! by their bit patterns ([`number`]); what is computed with them is computed
//! through an [`arith::Arithmetic`] that the caller supplies. [`partition`],
//! [`dates`] and [`text`] serve the ingestion of prices and weather into a
//! store of one file for each day.

pub mod arith;
pub mod dates;
pub mod error;
pub mod filter;
pub mod lag;
pub mod metrics;
pub mod model;
pub mod number;
pub mod partition;
pub mod pipeline;
pub mod reorder;
pub mod schema;
pub mod split;
pub mod table;
pub mod text;
pub mod train;
pub mod view;
