//! Reading, filtering and writing OpenSSH client configuration files whose
//! host blocks carry `# Group` and `# Tags` annotations.
pub mod filter;
pub mod laws;
pub mod model;
pub mod parse;
pub mod picker;
pub mod render;
pub mod text;

pub use filter::filter_servers;
pub use model::{LocalForward, ParseError, ParsedConfig, ServerConfig};
pub use parse::parse_ssh_config;
pub use picker::{PickerKey, PickerStep, SelectionError, connection_label, parse_selection};
pub use picker::picker_step;
pub use render::render_ssh_config;
