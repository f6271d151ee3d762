//! The logic of a backtesting toolkit, with what it does stated and proved.
//!
//! - Running: `backtest` drives a strategy on an account, bar by bar; `iteration`
//!   runs one backtest with and without costs; `attribution` and `orders` hold what
//!   a run records; `blueprint` plans strategies; `runtime` erases the types of
//!   indicators.
//! - Data: `table`, `csv_source`, `file` and `series` read tables; `data` joins them
//!   into frames; `market` holds bars; `cadence`, `calendar`, `frequency` and
//!   `daterange` tell time.
//! - Costs: `costs` reads and folds settings, `cost_models` resolves them; `json` and
//!   `convert` hold their trees.
//! - Reports: `batch`, `chart`, `completions`, `console`.
//! - Ground: `number`, `ordmap`, `paths`, `sorting`, `text`.
//!
//! Doubles are held by their bits: the library orders and compares them, and leaves
//! their arithmetic and their spelling to its callers.

pub mod attribution;
pub mod backtest;
pub mod batch;
pub mod blueprint;
pub mod cadence;
pub mod calendar;
pub mod chart;
pub mod completions;
pub mod console;
pub mod convert;
pub mod cost_models;
pub mod costs;
pub mod csv_source;
pub mod data;
pub mod daterange;
pub mod file;
pub mod frequency;
pub mod iteration;
pub mod json;
pub mod market;
pub mod number;
pub mod orders;
pub mod ordmap;
pub mod paths;
pub mod runtime;
pub mod series;
pub mod sorting;
pub mod table;
pub mod text;
