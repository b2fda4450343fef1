//! Verified core of `envsubst`, a minimal substitute for GNU `envsubst`:
//! variable tables, `.env` parsing, the lookup context with its record of
//! unresolved names, template expansion and the path arithmetic that decides
//! where a rendered file is written.
pub mod env_context;
pub mod env_file;
pub mod expand;
pub mod laws;
pub mod paths;
pub mod run;
pub mod text;
pub mod var_map;
