//! The TOML converter.
use vstd::prelude::*;
use super::source::{
    convert, document_bindings, document_outcome, node_agrees, opt_value_view, opt_vars_view,
    outcome_vars, result_vars_view, bindings_well_formed, to_nix, ConversionError, DocumentNode, SourceNode, SourceTree,
};
use super::value::{NixVariable, NixVariableValue};

verus! {

/// `toml::Value`, opaque here: it is read through `toml_node`.
#[verifier::external_type_specification]
#[verifier::external_body]
pub struct ExTomlValue(::toml::Value);

/// The document tree of a TOML value. A table is a mapping whose keys are
/// all strings, in the table's order; an integer is `Int`; a float is
/// `Real`, with the text toml writes for it; a date or time is `Text`, with
/// the text toml writes for it.
pub uninterp spec fn toml_tree(v: ::toml::Value) -> SourceTree;

/// The document tree of the TOML text `s`, whose root is its top-level
/// table; `None` where toml does not read `s` as a TOML document.
pub uninterp spec fn toml_document(s: Seq<char>) -> Option<SourceTree>;

/// Relies on the variants of `toml::Value`, on the `Display` of
/// `toml::Value` for the text of a float and of `toml::value::Datetime` for
/// the text of a date or time, and on the iterators of `Vec` and
/// `toml::map::Map` for the children in document order.
#[verifier::external_body]
fn toml_node(v: &::toml::Value) -> (r: SourceNode<'_, ::toml::Value>)
    ensures
        node_agrees(r, toml_tree(*v), |x: ::toml::Value| toml_tree(x)),
{
    match v {
        ::toml::Value::String(s) => SourceNode::Text(s.clone()),
        ::toml::Value::Integer(i) => SourceNode::Int(*i),
        ::toml::Value::Float(_) => SourceNode::Real(v.to_string()),
        ::toml::Value::Boolean(b) => SourceNode::Bool(*b),
        ::toml::Value::Datetime(d) => SourceNode::Text(d.to_string()),
        ::toml::Value::Array(a) => SourceNode::List(a.iter().collect()),
        ::toml::Value::Table(m) => SourceNode::Mapping(
            m.iter().map(|(k, x)| (Some(k.clone()), x)).collect(),
        ),
    }
}

impl DocumentNode for ::toml::Value {
    open spec fn tree(&self) -> SourceTree {
        toml_tree(*self)
    }

    fn node(&self) -> (r: SourceNode<'_, ::toml::Value>) {
        toml_node(self)
    }
}

/// Relies on `str::parse` into a `toml::Table`: the top-level table of the
/// TOML document `content`, or `None` where it is not valid TOML.
#[verifier::external_body]
fn read_toml(content: &str) -> (r: Option<::toml::Value>)
    ensures
        match toml_document(content@) {
            Some(t) => r is Some && toml_tree(r->0) == t,
            None => r is None,
        },
{
    content.parse::<::toml::Table>().ok().map(::toml::Value::Table)
}

/// Converts TOML documents.
pub struct TomlParser {}

impl TomlParser {
    pub fn new() -> (r: TomlParser) {
        TomlParser {}
    }

    /// The canonical value of a TOML value.
    pub fn parse_value(value: &::toml::Value) -> (r: Option<NixVariableValue>)
        ensures
            opt_value_view(r) == to_nix(toml_tree(*value)),
    {
        convert(value)
    }

    /// The top-level bindings of the TOML document `content`, or why there
    /// are none.
    pub fn try_parse(&self, content: &str) -> (r: Result<Vec<NixVariable>, ConversionError>)
        ensures
            result_vars_view(r) == document_outcome(toml_document(content@)),
            r matches Ok(vars) ==> bindings_well_formed(vars@),
    {
        match read_toml(content) {
            Some(root) => document_bindings(&root),
            None => Err(ConversionError::ParseFailure),
        }
    }

    /// The top-level bindings of the TOML document `content`: `None` where it
    /// is not valid TOML.
    pub fn parse(&self, content: &str) -> (r: Option<Vec<NixVariable>>)
        ensures
            opt_vars_view(r) == outcome_vars(document_outcome(toml_document(content@))),
            r matches Some(vars) ==> bindings_well_formed(vars@),
    {
        match self.try_parse(content) {
            Ok(vars) => Some(vars),
            Err(_) => None,
        }
    }
}

impl Default for TomlParser {
    fn default() -> (r: TomlParser)
        ensures
            r == (TomlParser {}),
    {
        TomlParser::new()
    }
}

} // verus!
