//! The JSON converter.
use vstd::prelude::*;
use super::source::{
    convert, document_bindings, document_outcome, node_agrees, opt_value_view, opt_vars_view,
    outcome_vars, result_vars_view, bindings_well_formed, to_nix, ConversionError, DocumentNode, SourceNode, SourceTree,
};
use super::value::{NixVariable, NixVariableValue};

verus! {

/// `serde_json::Value`, opaque here: it is read through `json_node`.
#[verifier::external_type_specification]
#[verifier::external_body]
pub struct ExJsonValue(serde_json::Value);

/// The document tree of a JSON value. An object is a mapping whose keys are
/// all strings, in the object's order; a number is `Real`, with the text
/// serde_json writes for it.
pub uninterp spec fn json_tree(v: serde_json::Value) -> SourceTree;

/// The document tree of the JSON text `s`; `None` where serde_json does not
/// read `s` as one JSON value.
pub uninterp spec fn json_document(s: Seq<char>) -> Option<SourceTree>;

/// Relies on the variants of `serde_json::Value`, on the `Display` of
/// `serde_json::Number` for the text of a number, and on the iterators of
/// `Vec` and `serde_json::Map` for the children in document order.
#[verifier::external_body]
fn json_node(v: &serde_json::Value) -> (r: SourceNode<'_, serde_json::Value>)
    ensures
        node_agrees(r, json_tree(*v), |x: serde_json::Value| json_tree(x)),
{
    match v {
        serde_json::Value::Null => SourceNode::Null,
        serde_json::Value::Bool(b) => SourceNode::Bool(*b),
        serde_json::Value::Number(n) => SourceNode::Real(n.to_string()),
        serde_json::Value::String(s) => SourceNode::Text(s.clone()),
        serde_json::Value::Array(a) => SourceNode::List(a.iter().collect()),
        serde_json::Value::Object(m) => SourceNode::Mapping(
            m.iter().map(|(k, x)| (Some(k.clone()), x)).collect(),
        ),
    }
}

impl DocumentNode for serde_json::Value {
    open spec fn tree(&self) -> SourceTree {
        json_tree(*self)
    }

    fn node(&self) -> (r: SourceNode<'_, serde_json::Value>) {
        json_node(self)
    }
}

/// Relies on `serde_json::from_str`: the JSON value written in `content`, or
/// `None` where it is not valid JSON.
#[verifier::external_body]
fn read_json(content: &str) -> (r: Option<serde_json::Value>)
    ensures
        match json_document(content@) {
            Some(t) => r is Some && json_tree(r->0) == t,
            None => r is None,
        },
{
    serde_json::from_str::<serde_json::Value>(content).ok()
}

/// Converts JSON documents.
pub struct JsonParser {}

impl JsonParser {
    pub fn new() -> (r: JsonParser) {
        JsonParser {}
    }

    /// The canonical value of a JSON value.
    pub fn parse_value(&self, value: serde_json::Value) -> (r: Option<NixVariableValue>)
        ensures
            opt_value_view(r) == to_nix(json_tree(value)),
    {
        convert(&value)
    }

    /// The top-level bindings of the JSON document `content`, or why there
    /// are none.
    pub fn try_parse(&self, content: &str) -> (r: Result<Vec<NixVariable>, ConversionError>)
        ensures
            result_vars_view(r) == document_outcome(json_document(content@)),
            r matches Ok(vars) ==> bindings_well_formed(vars@),
    {
        match read_json(content) {
            Some(root) => document_bindings(&root),
            None => Err(ConversionError::ParseFailure),
        }
    }

    /// The top-level bindings of the JSON document `content`: `None` where it
    /// is not valid JSON or its root is not an object.
    pub fn parse(&self, content: &str) -> (r: Option<Vec<NixVariable>>)
        ensures
            opt_vars_view(r) == outcome_vars(document_outcome(json_document(content@))),
            r matches Some(vars) ==> bindings_well_formed(vars@),
    {
        match self.try_parse(content) {
            Ok(vars) => Some(vars),
            Err(_) => None,
        }
    }
}

impl Default for JsonParser {
    fn default() -> (r: JsonParser)
        ensures
            r == (JsonParser {}),
    {
        JsonParser::new()
    }
}

} // verus!
