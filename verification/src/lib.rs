//! The model behind a ping graph: samples and their moving average, the axes they are drawn on,
//! the numbers shown above the graph, and the decisions of the program that draws it.
//!
//! Round trip times are counted in whole microseconds, as they are measured. What is computed from
//! them, the averages, the numbers above the graph and the Y axis, is in double precision. Instants
//! on the X axis are milliseconds since the Unix epoch.

pub mod app;
pub mod args;
pub mod axis;
pub mod clock;
pub mod command;
pub mod double;
pub mod host;
pub mod laws;
pub mod plot_data;
pub mod rounding;
pub mod samples;
pub mod signed;
pub mod smoothing;
pub mod stats;
pub mod text;
