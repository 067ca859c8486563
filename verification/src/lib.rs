//! Analysis of GPU traces in the Chrome trace format.
//!
//! Kernel execution times are compared across traces, traces are merged into one, nsys reports
//! are converted to traces, and trace files are listed and downloaded from remote hosts. The
//! modules hold what is computed, with contracts over mathematical models; reading and writing
//! files, running commands and floating-point arithmetic are left to the program around them.

pub mod convert;
pub mod download;
pub mod events;
pub mod json;
pub mod kernels;
pub mod merge;
pub mod order;
pub mod outputs;
pub mod path;
pub mod remote;
pub mod size;
pub mod table;
pub mod text;
pub mod util;

pub use events::{parse_trace, ChromeTrace, TraceEvent};
pub use kernels::KernelId;
pub use merge::merge_traces;
pub use table::generate_comparison_table;
