//! The configuration of the platform: a TOML document whose values can refer to
//! environment variables.
//!
//! # Configuration file
//!
//! The configuration file is looked up in the following order, and the first
//! one that is found is used:
//!
//! 1. `./config/config.toml`: the current working directory
//! 2. `~/.config/ret2shell/config.toml`: the user's XDG config directory
//! 3. `/etc/ret2shell/config.toml`: the system config directory
//!
//! # Environment variables
//!
//! A configuration value can reference an environment variable with an exact
//! `${ENVIRONMENT_VARIABLE}` placeholder. Quote the placeholder when the
//! configuration field is a string, or leave it bare when the variable contains
//! another TOML value such as an integer or boolean:
//!
//! ```toml
//! signing_key = '${AUTH_SIGNING_KEY}'
//! port = ${SERVER_PORT}
//! external_https = ${EXTERNAL_HTTPS}
//! ```
//!
//! Referenced variables are required. Bare values must be valid TOML, and all
//! resolved values must match the type of their configuration field.
//!
//! A variable `R2S_CONFIG__<SECTION>__<FIELD>` overrides that field of the
//! document, and adds it where the document leaves it out: the names between the
//! double underscores are the keys on the way to the field, in lower case. A
//! text field takes the text of the variable as it is, and any other field the
//! TOML value that this text stands for. In a section that is not interpreted
//! here, a field that holds a text, or that is left out, counts as a text field.
pub mod auth;
pub mod captcha;
pub mod config;
pub mod config_laws;
pub mod document;
pub mod env;
pub mod env_laws;
pub mod field_laws;
pub mod fields;
pub mod mask;
pub mod mask_laws;
pub mod mask_twice;
pub mod names;
pub mod overrides;
pub mod overrides_laws;
pub mod reading;
pub mod reading_laws;
pub mod scan_laws;
pub mod server;
pub mod text;
pub mod text_laws;
pub mod value_laws;
pub mod variable_laws;
pub mod view_laws;

pub use config::{ConfigError, GlobalConfig};
