//! Extension host: manifests, dependency resolution, call and mixin
//! descriptors, and the token-level grammars of the extension macros.

pub mod loader;
pub mod name_map;
pub mod version;
pub mod extension;
pub mod errors;
pub mod repository;
pub mod tokens;
pub mod path_reference;
pub mod extension_macro;
pub mod extension_def;
pub mod op_macro;
pub mod call;
pub mod operation;
pub mod core_command;
