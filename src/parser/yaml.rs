//! The YAML converter.
use vstd::prelude::*;
use yaml_rust2::{Yaml, YamlLoader};
use super::source::{
    convert, document_bindings, document_outcome, node_agrees, opt_value_view, opt_vars_view,
    outcome_vars, result_vars_view, bindings_well_formed, to_nix, ConversionError, DocumentNode, SourceNode, SourceTree,
};
use super::value::{NixVariable, NixVariableValue};

verus! {

/// `yaml_rust2::Yaml`, opaque here: it is read through `yaml_node`.
#[verifier::external_type_specification]
#[verifier::external_body]
pub struct ExYaml(Yaml);

/// The document tree of a YAML node. A mapping keeps its entries in
/// document order, with the key of each as a string where it is a string
/// scalar and `None` otherwise; an integer is `Int`; a real is `Real`, with
/// the text of the double yaml_rust2 reads it as (`Yaml::as_f64`), or
/// `Other` where it reads none; an alias or a bad value is `Other`.
pub uninterp spec fn yaml_tree(v: Yaml) -> SourceTree;

/// The document trees of the YAML text `s`, in order; `None` where
/// yaml_rust2 does not read `s` as a stream of YAML documents.
pub uninterp spec fn yaml_documents(s: Seq<char>) -> Option<Seq<SourceTree>>;

/// The document a YAML text is converted from: its first document, and a
/// null root where it holds none.
pub open spec fn yaml_first_document(s: Seq<char>) -> Option<SourceTree> {
    match yaml_documents(s) {
        Some(docs) => if docs.len() > 0 {
            Some(docs[0])
        } else {
            Some(SourceTree::Null)
        },
        None => None,
    }
}

/// Relies on the variants of `yaml_rust2::Yaml`, on `Yaml::as_f64` for the
/// double a real is read as (and its `Display` for the text of it), on
/// `Yaml::into_string` for the keys that are strings, and on the iterators of `Vec` and
/// `hashlink::LinkedHashMap` for the children in document order.
#[verifier::external_body]
fn yaml_node(v: &Yaml) -> (r: SourceNode<'_, Yaml>)
    ensures
        node_agrees(r, yaml_tree(*v), |x: Yaml| yaml_tree(x)),
{
    match v {
        Yaml::Real(_) => match v.as_f64() {
            Some(f) => SourceNode::Real(f.to_string()),
            None => SourceNode::Other,
        },
        Yaml::Integer(i) => SourceNode::Int(*i),
        Yaml::String(s) => SourceNode::Text(s.clone()),
        Yaml::Boolean(b) => SourceNode::Bool(*b),
        Yaml::Array(a) => SourceNode::List(a.iter().collect()),
        Yaml::Hash(h) => SourceNode::Mapping(h.iter().map(|(k, x)| (k.clone().into_string(), x)).collect()),
        Yaml::Null => SourceNode::Null,
        Yaml::Alias(_) | Yaml::BadValue => SourceNode::Other,
    }
}

impl DocumentNode for Yaml {
    open spec fn tree(&self) -> SourceTree {
        yaml_tree(*self)
    }

    fn node(&self) -> (r: SourceNode<'_, Yaml>) {
        yaml_node(self)
    }
}

/// Relies on `yaml_rust2::YamlLoader::load_from_str`: the documents of the
/// YAML text `content`, or `None` where it is not valid YAML.
#[verifier::external_body]
fn read_yaml(content: &str) -> (r: Option<Vec<Yaml>>)
    ensures
        match yaml_documents(content@) {
            Some(docs) => r is Some && r->0.len() == docs.len() && forall|i: int|
                0 <= i < docs.len() ==> #[trigger] yaml_tree(r->0[i]) == docs[i],
            None => r is None,
        },
{
    YamlLoader::load_from_str(content).ok()
}

/// Converts YAML documents.
pub struct YamlParser {}

impl YamlParser {
    pub fn new() -> (r: YamlParser) {
        YamlParser {}
    }

    /// The top-level bindings of the document rooted at `node`: `None` unless
    /// it is a mapping whose keys, at every level, are strings.
    pub fn parse_node(node: &Yaml) -> (r: Option<Vec<NixVariable>>)
        ensures
            opt_vars_view(r) == outcome_vars(document_outcome(Some(yaml_tree(*node)))),
            r matches Some(vars) ==> bindings_well_formed(vars@),
    {
        match document_bindings(node) {
            Ok(vars) => Some(vars),
            Err(_) => None,
        }
    }

    /// The canonical value of a YAML node: `None` where a mapping in it has a
    /// key that is not a string.
    pub fn parse_variable(variable: &Yaml) -> (r: Option<NixVariableValue>)
        ensures
            opt_value_view(r) == to_nix(yaml_tree(*variable)),
    {
        convert(variable)
    }

    /// The top-level bindings of the YAML text `content` (its first
    /// document), or why there are none.
    pub fn try_parse(&self, content: &str) -> (r: Result<Vec<NixVariable>, ConversionError>)
        ensures
            result_vars_view(r) == document_outcome(yaml_first_document(content@)),
            r matches Ok(vars) ==> bindings_well_formed(vars@),
    {
        match read_yaml(content) {
            Some(docs) => {
                if docs.len() > 0 {
                    document_bindings(&docs[0])
                } else {
                    Err(ConversionError::UnsupportedRootShape)
                }
            },
            None => Err(ConversionError::ParseFailure),
        }
    }

    /// The top-level bindings of the YAML text `content`: `None` where it is
    /// not valid YAML, or its first document is not a mapping with string
    /// keys.
    pub fn parse(&self, content: &str) -> (r: Option<Vec<NixVariable>>)
        ensures
            opt_vars_view(r) == outcome_vars(document_outcome(yaml_first_document(content@))),
            r matches Some(vars) ==> bindings_well_formed(vars@),
    {
        match self.try_parse(content) {
            Ok(vars) => Some(vars),
            Err(_) => None,
        }
    }
}

impl Default for YamlParser {
    fn default() -> (r: YamlParser)
        ensures
            r == (YamlParser {}),
    {
        YamlParser::new()
    }
}

} // verus!
