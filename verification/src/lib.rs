//! Month-over-month analysis of labor-statistics time series.
//!
//! The crate validates and chronologically orders the raw observations of a
//! series, derives each month's absolute and percentage change relative to
//! the previous month, and renders the derived values for display. Decimal
//! quantities are held as fixed-point integers (ten-thousandths of a unit),
//! so every arithmetic and formatting rule is stated and proved exactly.

pub mod analysis;
pub mod api;
pub mod error;
pub mod cli;
pub mod numeric;
pub mod render;
