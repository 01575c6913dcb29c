//! Aggregation and filtering of stress-test telemetry for charting.
//!
//! Rows of telemetry are read into samples, grouped into named series and
//! kept in order; filter clauses choose the series of a chart; and the
//! parameters that tell those series apart give them their labels.

pub mod chart;
pub mod filter;
pub mod filter_laws;
pub mod label;
pub mod literal;
pub mod naming;
pub mod parameter;
pub mod registry;
pub mod registry_laws;
pub mod row;
pub mod series;
pub mod text;

pub use chart::{ChartSpec, ChartType, Params};
pub use filter::{Comparison, FilterSet, ParameterFilter, ParameterFilterSet};
pub use naming::NameSet;
pub use parameter::{ParameterSet, ParameterValue};
pub use registry::StressTestData;
pub use series::{DataSet, ValueSet};
