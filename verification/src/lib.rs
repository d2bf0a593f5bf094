//! The pieces a TOML formatter is built from: reading and writing the dependency specifiers a
//! project names, laying out text, and the line-level passes around a formatting run.

pub mod text;
pub mod util;
pub mod group;
pub mod table;
pub mod disabled;
pub mod width;
pub mod sections;
pub mod strings;
pub mod layout;
pub mod nesting;
pub mod string;
pub mod settings;
pub mod shape;
pub mod blocks;
pub mod pep508;
