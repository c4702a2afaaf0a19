//! The measuring half of a benchmark harness for streaming ETL systems: parsing
//! what the outside world reports about an arm, reducing it to the figures a
//! record publishes, and refusing every case in which a figure would have to be
//! invented.

pub mod about;
pub mod big;
pub mod docker;
pub mod double;
pub mod driver;
pub mod entrant;
pub mod environment;
pub mod http;
pub mod infra;
pub mod jvm;
pub mod report;
pub mod sampler;
pub mod serverside;
pub mod table;
pub mod text;
