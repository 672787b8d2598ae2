//! The canonical value model, the per-format converters, the converter
//! registry and the Nix expression generator.
pub mod generator;
pub mod json;
pub mod number;
pub mod registry;
pub mod source;
pub mod text;
pub mod toml;
pub mod value;
pub mod yaml;

pub use generator::ExpressionGenerator;
pub use registry::{ExpressionParser, FormatParser, SupportedFormats};
pub use source::ConversionError;
pub use value::{NixValue, NixVariable, NixVariableValue};

use vstd::prelude::*;
use json::JsonParser;
use toml::TomlParser;
use yaml::YamlParser;

verus! {

/// A converter from one source format to top-level bindings.
pub trait Parser {
    /// The top-level bindings of `content`; `None` where it is not a
    /// document of this format whose root is a mapping with string keys.
    fn parse(&self, content: &str) -> Option<Vec<NixVariable>>;
}

impl Parser for JsonParser {
    fn parse(&self, content: &str) -> Option<Vec<NixVariable>> {
        JsonParser::parse(self, content)
    }
}

impl Parser for TomlParser {
    fn parse(&self, content: &str) -> Option<Vec<NixVariable>> {
        TomlParser::parse(self, content)
    }
}

impl Parser for YamlParser {
    fn parse(&self, content: &str) -> Option<Vec<NixVariable>> {
        YamlParser::parse(self, content)
    }
}

} // verus!
