//! Bootstrap and dev-loop logic for a decompilation project: configuration
//! files, build-file generation, unit and symbol resolution, match
//! measurement and the rendering of diffs, as verified functions on plain
//! values. Reading, downloading and printing stand outside, in `app/`.
pub mod bootstrap;
pub mod claims;
pub mod codegen;
pub mod dev;
pub mod fetch;
pub mod flags;
pub mod gutter;
pub mod log;
pub mod manifest;
pub mod maps;
pub mod measures;
pub mod model;
pub mod ninja;
pub mod num;
pub mod objdiff;
pub mod order;
pub mod progress;
pub mod rename;
pub mod render;
pub mod root;
pub mod scan;
pub mod style;
pub mod text;
