//! Bootstrap resampling: a tokenizer that turns delimited bytes into a sample,
//! and an engine that draws resamples from it and collects one statistic per
//! resample into an empirical distribution.
pub mod token;
pub mod convert;
pub mod parse;
pub mod config;
pub mod random;
pub mod distribution;
pub mod engine;

pub use config::{BootstrapConfig, Plan, ResampleRatio};
pub use convert::{convert_token, ErrorPolicy, ParseError};
pub use distribution::Distribution;
pub use engine::{bootstrap_iterative, conclude, run_worker, EngineError};
pub use parse::{get_sample, BS_Error, ParseReport, Parser, SourceEvent, Step};
pub use token::{is_delimiter, MAX_TOKEN_LEN};
