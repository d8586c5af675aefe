pub mod after;
pub mod before;
pub mod import;
pub mod noop;
pub mod reference;
pub mod templating;

pub use after::AfterPlugin;
pub use before::BeforePlugin;
pub use import::{import_paths, ImportConfig, ImportPlugin};
pub use noop::{NoopConfig, NoopPlugin};
pub use reference::{ReferenceConfig, ReferencePlugin};
pub use templating::TemplatingPlugin;
