//! What a converter reads of a parsed document, and how it maps that to the
//! canonical tree. The mapping is the same for every source format; each
//! format only says how its parse tree is read (`DocumentNode`).
use vstd::prelude::*;
use super::number::{
    int_text, integer_text, lemma_integer_numeral_is_canonical, number_text, number_text_of,
};
use super::value::{
    entries_view, lemma_entries_view, lemma_list_view, list_view, value_view, well_formed, NixValue,
    NixVariable, NixVariableValue,
};

verus! {

/// A node of a parsed document, as the converters read it.
pub enum SourceTree {
    Null,
    Bool(bool),
    /// An integer.
    Int(int),
    /// A number that is not read as an integer: the text of the 64-bit
    /// float the format's parser reads it as.
    Real(Seq<char>),
    /// A string, or a date or time as its text.
    Text(Seq<char>),
    List(Seq<SourceTree>),
    /// Entries in document order; a key that is not a string is `None`.
    Mapping(Seq<(Option<Seq<char>>, SourceTree)>),
    /// Any other scalar.
    Other,
}

/// Why a document gave no bindings.
#[derive(Debug, Clone, Copy, PartialEq, Eq, Structural)]
pub enum ConversionError {
    /// The text is not a document of the format tried.
    ParseFailure,
    /// The document is valid but its root is not a mapping.
    UnsupportedRootShape,
    /// A mapping of the document has a key that is not a string.
    NonStringKey,
    /// An explicit format was asked for and no converter is registered for it.
    UnknownFormat,
    /// No format was given, and guessing was off or no converter succeeded.
    AmbiguousOrNoMatch,
}

/// One node of a parse tree, with references to its children.
pub enum SourceNode<'a, T> {
    Null,
    Bool(bool),
    Int(i64),
    Real(String),
    Text(String),
    List(Vec<&'a T>),
    Mapping(Vec<(Option<String>, &'a T)>),
    Other,
}

pub open spec fn key_view(k: Option<String>) -> Option<Seq<char>> {
    match k {
        Some(s) => Some(s@),
        None => None,
    }
}

/// A parse tree of some source format.
pub trait DocumentNode: Sized {
    /// The document tree rooted at this node.
    spec fn tree(&self) -> SourceTree;

    /// This node, with its children in document order.
    fn node(&self) -> (r: SourceNode<'_, Self>)
        ensures
            node_agrees(r, self.tree(), |x: Self| x.tree()),
    ;
}

/// `n` is the node at the root of `t`, where `tree_of` gives the tree of
/// each child.
pub open spec fn node_agrees<'a, T>(
    n: SourceNode<'a, T>,
    t: SourceTree,
    tree_of: spec_fn(T) -> SourceTree,
) -> bool {
    match n {
        SourceNode::Null => t == SourceTree::Null,
        SourceNode::Bool(b) => t == SourceTree::Bool(b),
        SourceNode::Int(i) => t == SourceTree::Int(i as int),
        SourceNode::Real(s) => t == SourceTree::Real(s@),
        SourceNode::Text(s) => t == SourceTree::Text(s@),
        SourceNode::Other => t == SourceTree::Other,
        SourceNode::List(items) => {
            &&& t is List
            &&& t->List_0.len() == items.len()
            &&& forall|i: int| 0 <= i < items.len() ==> tree_of(*#[trigger] items[i]) == t->List_0[i]
        },
        SourceNode::Mapping(entries) => {
            &&& t is Mapping
            &&& t->Mapping_0.len() == entries.len()
            &&& forall|i: int|
                0 <= i < entries.len() ==> key_view(#[trigger] entries[i].0) == t->Mapping_0[i].0
                    && tree_of(*entries[i].1) == t->Mapping_0[i].1
            &&& string_keys_distinct(t->Mapping_0)
        },
    }
}

/// No two entries have the same string key.
pub open spec fn string_keys_distinct(entries: Seq<(Option<Seq<char>>, SourceTree)>) -> bool {
    forall|i: int, j: int|
        0 <= i < j < entries.len() && (#[trigger] entries[i].0) is Some ==> entries[i].0
            != #[trigger] entries[j].0
}

/// The canonical value of a document node: `None` when a mapping anywhere
/// in it has a key that is not a string.
///
/// A number is held as its canonical decimal text (`int_text`,
/// `number_text_of`). Every format hands a non-integer over as the text of
/// the 64-bit float its parser reads, so one number gives one text whatever
/// the format; an integer is kept exactly. A date or time becomes a string;
/// any other scalar becomes `null`.
pub open spec fn to_nix(t: SourceTree) -> Option<NixValue>
    decreases t, 0nat,
{
    match t {
        SourceTree::Null => Some(NixValue::Null),
        SourceTree::Bool(b) => Some(NixValue::Boolean(b)),
        SourceTree::Int(i) => Some(NixValue::Number(int_text(i))),
        SourceTree::Real(x) => Some(NixValue::Number(number_text_of(x))),
        SourceTree::Text(s) => Some(NixValue::Str(s)),
        SourceTree::Other => Some(NixValue::Null),
        SourceTree::List(items) => match list_to_nix(items, items.len()) {
            Some(vs) => Some(NixValue::List(vs)),
            None => None,
        },
        SourceTree::Mapping(entries) => match entries_to_nix(entries, entries.len()) {
            Some(bs) => Some(NixValue::AttributeSet(bs)),
            None => None,
        },
    }
}

/// The canonical values of the first `n` items.
pub open spec fn list_to_nix(items: Seq<SourceTree>, n: nat) -> Option<Seq<NixValue>>
    decreases items, n,
{
    if n == 0 || n > items.len() {
        Some(seq![])
    } else {
        match (list_to_nix(items, (n - 1) as nat), to_nix(items[n - 1])) {
            (Some(vs), Some(v)) => Some(vs.push(v)),
            _ => None,
        }
    }
}

/// The bindings made of the first `n` entries.
pub open spec fn entries_to_nix(entries: Seq<(Option<Seq<char>>, SourceTree)>, n: nat) -> Option<
    Seq<(Seq<char>, NixValue)>,
>
    decreases entries, n,
{
    if n == 0 || n > entries.len() {
        Some(seq![])
    } else {
        match (entries_to_nix(entries, (n - 1) as nat), entries[n - 1].0, to_nix(entries[n - 1].1)) {
            (Some(bs), Some(k), Some(v)) => Some(bs.push((k, v))),
            _ => None,
        }
    }
}

/// Formats that hand an integer over as an integer (TOML, YAML) and those
/// that hand it over as its decimal text (JSON) give the same number.
pub proof fn lemma_integer_forms_agree(i: int)
    ensures
        to_nix(SourceTree::Int(i)) == to_nix(SourceTree::Real(int_text(i))),
{
    lemma_integer_numeral_is_canonical(i);
}

/// The top-level bindings of a document: `None` unless its root is a
/// mapping whose entries all convert.
pub open spec fn document_vars(t: SourceTree) -> Option<Seq<(Seq<char>, NixValue)>> {
    match t {
        SourceTree::Mapping(entries) => entries_to_nix(entries, entries.len()),
        _ => None,
    }
}

/// What converting a document gives: `doc` is `None` where the text could
/// not be parsed.
pub open spec fn document_outcome(doc: Option<SourceTree>) -> Result<
    Seq<(Seq<char>, NixValue)>,
    ConversionError,
> {
    match doc {
        None => Err(ConversionError::ParseFailure),
        Some(t) => match document_vars(t) {
            Some(vs) => Ok(vs),
            None => if t is Mapping {
                Err(ConversionError::NonStringKey)
            } else {
                Err(ConversionError::UnsupportedRootShape)
            },
        },
    }
}

pub open spec fn result_vars_view(r: Result<Vec<NixVariable>, ConversionError>) -> Result<
    Seq<(Seq<char>, NixValue)>,
    ConversionError,
> {
    match r {
        Ok(vs) => Ok(vars_view(vs@)),
        Err(e) => Err(e),
    }
}

pub open spec fn outcome_vars(r: Result<Seq<(Seq<char>, NixValue)>, ConversionError>) -> Option<
    Seq<(Seq<char>, NixValue)>,
> {
    match r {
        Ok(vs) => Some(vs),
        Err(_) => None,
    }
}

/// Top-level bindings with pairwise distinct names and well-formed values.
pub open spec fn bindings_well_formed(vars: Seq<NixVariable>) -> bool {
    &&& forall|i: int| 0 <= i < vars.len() ==> well_formed(#[trigger] vars[i].value@)
    &&& forall|i: int, j: int|
        0 <= i < j < vars.len() ==> #[trigger] vars[i].name@ != #[trigger] vars[j].name@
}

pub open spec fn opt_value_view(r: Option<NixVariableValue>) -> Option<NixValue> {
    match r {
        Some(v) => Some(v@),
        None => None,
    }
}

/// The bindings `vars`, as (name, value) pairs.
pub open spec fn vars_view(vars: Seq<NixVariable>) -> Seq<(Seq<char>, NixValue)> {
    vars.map_values(|v: NixVariable| (v.name@, v.value@))
}

pub open spec fn opt_vars_view(r: Option<Vec<NixVariable>>) -> Option<Seq<(Seq<char>, NixValue)>> {
    match r {
        Some(vs) => Some(vars_view(vs@)),
        None => None,
    }
}

proof fn lemma_list_none(items: Seq<SourceTree>, n: nat, m: nat)
    requires
        n <= m <= items.len(),
        list_to_nix(items, n) is None,
    ensures
        list_to_nix(items, m) is None,
    decreases m - n,
{
    if n < m {
        lemma_list_none(items, n, (m - 1) as nat);
    }
}

proof fn lemma_entries_none(entries: Seq<(Option<Seq<char>>, SourceTree)>, n: nat, m: nat)
    requires
        n <= m <= entries.len(),
        entries_to_nix(entries, n) is None,
    ensures
        entries_to_nix(entries, m) is None,
    decreases m - n,
{
    if n < m {
        lemma_entries_none(entries, n, (m - 1) as nat);
    }
}

/// The canonical value of the document node `v`.
pub fn convert<T: DocumentNode>(v: &T) -> (r: Option<NixVariableValue>)
    ensures
        opt_value_view(r) == to_nix(v.tree()),
        r matches Some(x) ==> well_formed(x@),
    decreases v.tree(),
{
    let ghost t = v.tree();
    match v.node() {
        SourceNode::Null => Some(NixVariableValue::Null),
        SourceNode::Bool(b) => Some(NixVariableValue::Boolean(b)),
        SourceNode::Int(i) => Some(NixVariableValue::Number(integer_text(i))),
        SourceNode::Real(s) => Some(NixVariableValue::Number(number_text(s.as_str()))),
        SourceNode::Text(s) => Some(NixVariableValue::String(s)),
        SourceNode::Other => Some(NixVariableValue::Null),
        SourceNode::List(items) => {
            let ghost ts = t->List_0;
            let mut out: Vec<NixVariableValue> = Vec::new();
            let mut i: usize = 0;
            while i < items.len()
                invariant
                    t == v.tree(),
                    t is List,
                    ts == t->List_0,
                    ts.len() == items.len(),
                    forall|j: int| 0 <= j < items.len() ==> #[trigger] items[j].tree() == ts[j],
                    i <= items.len(),
                    out.len() == i,
                    list_to_nix(ts, i as nat) == Some(list_view(out, i as nat)),
                    forall|j: int| 0 <= j < i ==> well_formed(#[trigger] out@[j]@),
                decreases items.len() - i,
            {
                proof {
                    assert(decreases_to!(t => t->List_0));
                    vstd::seq::axiom_seq_index_decreases(ts, i as int);
                }
                match convert(items[i]) {
                    Some(x) => {
                        let ghost before = out;
                        out.push(x);
                        proof {
                            lemma_list_view(before, i as nat);
                            lemma_list_view(out, (i + 1) as nat);
                            assert(list_view(out, i as nat) =~= list_view(before, i as nat)) by {
                                lemma_list_view(out, i as nat);
                            }
                        }
                    },
                    None => {
                        proof {
                            lemma_list_none(ts, (i + 1) as nat, ts.len());
                        }
                        return None;
                    },
                }
                i = i + 1;
            }
            proof {
                lemma_list_view(out, out.len() as nat);
                let vs = list_view(out, out.len() as nat);
                assert forall|a: int| 0 <= a < vs.len() implies well_formed(#[trigger] vs[a]) by {
                    assert(vs[a] == out@[a]@);
                }
            }
            Some(NixVariableValue::List(out))
        },
        SourceNode::Mapping(entries) => {
            let ghost es = t->Mapping_0;
            let mut out: Vec<(String, NixVariableValue)> = Vec::new();
            let mut i: usize = 0;
            while i < entries.len()
                invariant
                    t == v.tree(),
                    t is Mapping,
                    es == t->Mapping_0,
                    es.len() == entries.len(),
                    forall|j: int|
                        0 <= j < entries.len() ==> key_view(#[trigger] entries[j].0) == es[j].0
                            && entries[j].1.tree() == es[j].1,
                    i <= entries.len(),
                    out.len() == i,
                    entries_to_nix(es, i as nat) == Some(entries_view(out, i as nat)),
                    string_keys_distinct(es),
                    forall|j: int| 0 <= j < i ==> es[j].0 == Some(#[trigger] out@[j].0@),
                    forall|j: int| 0 <= j < i ==> well_formed(#[trigger] out@[j].1@),
                decreases entries.len() - i,
            {
                proof {
                    assert(decreases_to!(t => t->Mapping_0));
                    vstd::seq::axiom_seq_index_decreases(es, i as int);
                    assert(decreases_to!(es[i as int] => es[i as int].1));
                }
                let key = match &entries[i].0 {
                    Some(k) => k.clone(),
                    None => {
                        proof {
                            lemma_entries_none(es, (i + 1) as nat, es.len());
                        }
                        return None;
                    },
                };
                match convert(entries[i].1) {
                    Some(x) => {
                        let ghost before = out;
                        out.push((key, x));
                        proof {
                            lemma_entries_view(before, i as nat);
                            lemma_entries_view(out, (i + 1) as nat);
                            assert(entries_view(out, i as nat) =~= entries_view(before, i as nat))
                                by {
                                lemma_entries_view(out, i as nat);
                            }
                            assert(well_formed(x@));
                            assert forall|j: int| 0 <= j < i + 1 implies well_formed(
                                #[trigger] out@[j].1@,
                            ) && es[j].0 == Some(out@[j].0@) by {
                                if j < i {
                                    assert(out@[j] == before[j]);
                                }
                            }
                        }
                    },
                    None => {
                        proof {
                            lemma_entries_none(es, (i + 1) as nat, es.len());
                        }
                        return None;
                    },
                }
                i = i + 1;
            }
            proof {
                lemma_entries_view(out, out.len() as nat);
                let bs = entries_view(out, out.len() as nat);
                assert forall|a: int, b: int| 0 <= a < b < bs.len() implies #[trigger] bs[a].0
                    != #[trigger] bs[b].0 by {
                    assert(es[a].0 == Some(out@[a].0@));
                    assert(es[b].0 == Some(out@[b].0@));
                }
                assert forall|a: int| 0 <= a < bs.len() implies well_formed(#[trigger] bs[a].1) by {
                    assert(bs[a].1 == out@[a].1@);
                }
            }
            Some(NixVariableValue::AttributeSet(out))
        },
    }
}

/// The top-level bindings of the document rooted at `root`.
pub fn document_bindings<T: DocumentNode>(root: &T) -> (r: Result<Vec<NixVariable>, ConversionError>)
    ensures
        result_vars_view(r) == document_outcome(Some(root.tree())),
        r matches Ok(vars) ==> bindings_well_formed(vars@),
{
    let ghost t = root.tree();
    match root.node() {
        SourceNode::Mapping(entries) => {
            let ghost es = t->Mapping_0;
            let mut out: Vec<NixVariable> = Vec::new();
            let mut i: usize = 0;
            while i < entries.len()
                invariant
                    t == root.tree(),
                    t is Mapping,
                    es == t->Mapping_0,
                    es.len() == entries.len(),
                    forall|j: int|
                        0 <= j < entries.len() ==> key_view(#[trigger] entries[j].0) == es[j].0
                            && entries[j].1.tree() == es[j].1,
                    i <= entries.len(),
                    entries_to_nix(es, i as nat) == Some(vars_view(out@)),
                    forall|j: int| 0 <= j < out.len() ==> well_formed(#[trigger] out@[j].value@),
                    string_keys_distinct(es),
                    out.len() == i,
                    forall|j: int| 0 <= j < i ==> es[j].0 == Some(#[trigger] out@[j].name@),
                decreases entries.len() - i,
            {
                let name = match &entries[i].0 {
                    Some(k) => k.clone(),
                    None => {
                        proof {
                            lemma_entries_none(es, (i + 1) as nat, es.len());
                        }
                        return Err(ConversionError::NonStringKey);
                    },
                };
                match convert(entries[i].1) {
                    Some(value) => {
                        let ghost before = out@;
                        out.push(NixVariable { name, value });
                        assert(vars_view(out@) =~= vars_view(before).push((name@, value@)));
                    },
                    None => {
                        proof {
                            lemma_entries_none(es, (i + 1) as nat, es.len());
                        }
                        return Err(ConversionError::NonStringKey);
                    },
                }
                i = i + 1;
            }
            proof {
                assert forall|a: int, b: int| 0 <= a < b < out.len() implies #[trigger] out@[a].name@
                    != #[trigger] out@[b].name@ by {
                    assert(es[a].0 == Some(out@[a].name@));
                    assert(es[b].0 == Some(out@[b].name@));
                }
            }
            Ok(out)
        },
        _ => Err(ConversionError::UnsupportedRootShape),
    }
}

} // verus!
