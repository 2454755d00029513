//! Core of a typing-speed test: a keystroke state machine that replays
//! classified key actions against a target word list, and an analyzer that
//! turns the resulting event log into final statistics.

pub mod analyzer;
mod config;
pub mod generator;
pub mod math;
mod response;
pub mod results;
pub mod scheme;
pub mod strings;

pub use analyzer::process_results;
pub use config::{validate_config, Config, ConfigResponse, GameMode, Language, QuotesLanguages,
    WordsLanguages};
pub use response::{Level, Response};
pub use results::{Event, FinalResults, Key, KeyPresses, RawResults, Word};
pub use test::{EndCause, SessionState, Test};
