//! Application catalog and launch service: a case-insensitively ordered index
//! of application records, fuzzy-ranked paginated search over it, and
//! resolution of a record's command template into a process argument vector.

pub mod text;
pub mod entry;
pub mod index;
pub mod sorted;
pub mod catalog;
pub mod service;
pub mod rank;
pub mod exec;
pub mod frontend;

pub use entry::{Descriptor, DesktopEntry};
pub use exec::{command_from_words, expand, expand_field_codes, LaunchError};
pub use frontend::{data_uri, greet, icon_data_uri, mime_for_path};
pub use service::ApplicationService;
