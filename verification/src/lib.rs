//! Statistics engine for an A/B command benchmarking harness.
//!
//! The library keeps the measured samples of each variant in a dual-view
//! store (insertion order plus an always-sorted mirror), buckets them into
//! fixed-width histograms, computes summary statistics, and supplies the
//! Student-t critical values and the round-by-round decisions of the
//! iteration driver.

pub mod driver;
pub mod experiment;
pub mod numbers;
pub mod stats;
pub mod student;

pub use experiment::Experiment;
pub use experiment::ExperimentName;
pub use experiment::PlotHighlight;
pub use numbers::Distr;
pub use numbers::Numbers;
pub use stats::Stats;
