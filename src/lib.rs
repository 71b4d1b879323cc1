//! Turns a source tree into one delimited text document and parses such documents
//! back into (path, content) blocks that can be written under a repository root.
pub mod config;
pub mod docstrings;
pub mod document;
pub mod generate;
pub mod ignore_rules;
pub mod notebook;
pub mod order;
pub mod parser;
pub mod signatures;
pub mod text;
pub mod writer;

pub use config::{create_default_base_config, Config, DEFAULT_CONFIG_KEY};
pub use generate::{GenerateOperation, Generator};
pub use writer::{InjectOperation, Injector};
