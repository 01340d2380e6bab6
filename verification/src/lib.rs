//! Profile selection, config reading and language-server routing for dprintx,
//! a wrapper around dprint that picks a config per file.

pub mod assoc;
pub mod cli;
pub mod config;
pub mod content;
pub mod excludes;
pub mod file_path;
pub mod frame;
pub mod json;
pub mod jsonc;
pub mod jsonc_laws;
pub mod local;
pub mod message;
pub mod path;
pub mod proxy;
pub mod proxy_laws;
pub mod repo_config;
pub mod step;
pub mod text;
pub mod uri;
