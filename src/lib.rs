pub mod error;
pub mod loader;
pub mod plugins;
pub mod resolver;
pub mod template;
pub mod utils;
pub mod value;

pub use error::SuperTomlError;
pub use loader::{extract_table, FromTomlValue, TomlTableExt};
pub use resolver::{resolve_table_recursive, run, ImportedFile, Plugin, Resolver};
pub use template::EnvVars;
pub use value::{Data, TomlValue, ValueMap};
