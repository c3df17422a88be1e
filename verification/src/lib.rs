pub mod config;
pub mod decimal;
pub mod flags;
pub mod order;
pub mod ranking;
pub mod report;
pub mod run;
pub mod stats;
pub mod table;
pub mod text;

pub use config::Config;
pub use flags::Flags;
pub use ranking::WordCount;
pub use run::{Action, Event, Phase, Run};
pub use stats::Stats;
pub use table::{count_words, FrequencyTable};
pub use text::{get_words_count, tokenize};
