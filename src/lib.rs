//! Turns configuration documents written in JSON, YAML or TOML into a Nix
//! module expression.
pub mod parser;
