//! The converter registry: one converter per format tag, and dispatch by an
//! explicit tag or by guessing.
use vstd::prelude::*;
use indexmap::IndexMap;
use super::json::{json_document, JsonParser};
use super::source::{
    bindings_well_formed, document_outcome, opt_vars_view, SourceTree, outcome_vars, result_vars_view, vars_view, ConversionError,
};
use super::toml::{toml_document, TomlParser};
use super::value::{NixValue, NixVariable};
use super::yaml::{yaml_first_document, YamlParser};

verus! {

/// The format tags a converter can be registered under.
#[allow(non_camel_case_types)]
#[derive(Debug, Copy, Clone, PartialEq, Eq, Hash, Structural)]
pub enum SupportedFormats {
    yaml,
    toml,
    json,
}

/// A converter of one source format.
pub enum FormatParser {
    Json(JsonParser),
    Toml(TomlParser),
    Yaml(YamlParser),
}

/// The document `p` reads from `content`; `None` where it cannot parse it.
pub open spec fn parser_document(p: FormatParser, content: Seq<char>) -> Option<SourceTree> {
    match p {
        FormatParser::Json(_) => json_document(content),
        FormatParser::Toml(_) => toml_document(content),
        FormatParser::Yaml(_) => yaml_first_document(content),
    }
}

/// What converting `content` with `p` gives.
pub open spec fn parser_outcome(p: FormatParser, content: Seq<char>) -> Result<
    Seq<(Seq<char>, NixValue)>,
    ConversionError,
> {
    document_outcome(parser_document(p, content))
}

impl FormatParser {
    /// The top-level bindings of `content`, or why there are none.
    pub fn try_parse(&self, content: &str) -> (r: Result<Vec<NixVariable>, ConversionError>)
        ensures
            result_vars_view(r) == parser_outcome(*self, content@),
            r matches Ok(vars) ==> bindings_well_formed(vars@),
    {
        match self {
            FormatParser::Json(p) => p.try_parse(content),
            FormatParser::Toml(p) => p.try_parse(content),
            FormatParser::Yaml(p) => p.try_parse(content),
        }
    }
}

/// The last successful outcome among the first `n`; `AmbiguousOrNoMatch`
/// where none of them succeeded.
pub open spec fn last_success(
    outcomes: Seq<Result<Seq<(Seq<char>, NixValue)>, ConversionError>>,
    n: nat,
) -> Result<Seq<(Seq<char>, NixValue)>, ConversionError>
    decreases n,
{
    if n == 0 || n > outcomes.len() {
        Err(ConversionError::AmbiguousOrNoMatch)
    } else if outcomes[n - 1] is Ok {
        outcomes[n - 1]
    } else {
        last_success(outcomes, (n - 1) as nat)
    }
}

/// The outcomes that `outcomes` hold.
pub open spec fn outcome_views(outcomes: Seq<Result<Vec<NixVariable>, ConversionError>>) -> Seq<
    Result<Seq<(Seq<char>, NixValue)>, ConversionError>,
> {
    outcomes.map_values(|o: Result<Vec<NixVariable>, ConversionError>| result_vars_view(o))
}

/// The outcome of each registered converter on `content`, in registration
/// order.
pub open spec fn all_outcomes(
    registered: Seq<(SupportedFormats, FormatParser)>,
    content: Seq<char>,
) -> Seq<Result<Seq<(Seq<char>, NixValue)>, ConversionError>> {
    Seq::new(registered.len(), |i: int| parser_outcome(registered[i].1, content))
}

/// The index of the converter registered under `format`, if any.
pub open spec fn index_of(registered: Seq<(SupportedFormats, FormatParser)>, format: SupportedFormats) -> Option<int> {
    if exists|i: int| 0 <= i < registered.len() && registered[i].0 == format {
        Some(choose|i: int| 0 <= i < registered.len() && registered[i].0 == format)
    } else {
        None
    }
}

/// What dispatching `content` gives. With a format tag: the outcome of the
/// converter registered under it, or `UnknownFormat`. Without one: when
/// guessing, the outcome of the last converter in registration order that
/// succeeds; otherwise `AmbiguousOrNoMatch`.
pub open spec fn dispatch(
    registered: Seq<(SupportedFormats, FormatParser)>,
    guessing: bool,
    content: Seq<char>,
    format: Option<SupportedFormats>,
) -> Result<Seq<(Seq<char>, NixValue)>, ConversionError> {
    match format {
        Some(f) => match index_of(registered, f) {
            Some(i) => parser_outcome(registered[i].1, content),
            None => Err(ConversionError::UnknownFormat),
        },
        None => if guessing {
            last_success(all_outcomes(registered, content), registered.len())
        } else {
            Err(ConversionError::AmbiguousOrNoMatch)
        },
    }
}

/// Format tags are pairwise distinct.
pub open spec fn tags_distinct(registered: Seq<(SupportedFormats, FormatParser)>) -> bool {
    forall|i: int, j: int|
        0 <= i < j < registered.len() ==> #[trigger] registered[i].0 != #[trigger] registered[j].0
}

/// The last successful outcome in `outcomes`, or `AmbiguousOrNoMatch` where
/// none succeeded.
pub fn select_last_success(outcomes: Vec<Result<Vec<NixVariable>, ConversionError>>) -> (r: Result<
    Vec<NixVariable>,
    ConversionError,
>)
    ensures
        result_vars_view(r) == last_success(outcome_views(outcomes@), outcomes.len() as nat),
        r is Ok ==> exists|i: int| 0 <= i < outcomes.len() && outcomes@[i] == r,
{
    let ghost views = outcome_views(outcomes@);
    let mut rest = outcomes;
    let ghost n = outcomes.len() as nat;
    while rest.len() > 0
        invariant
            views == outcome_views(outcomes@),
            n == outcomes.len(),
            rest.len() <= n,
            views.len() == n,
            forall|j: int| 0 <= j < rest.len() ==> #[trigger] result_vars_view(rest@[j]) == views[j],
            last_success(views, n) == last_success(views, rest.len() as nat),
            forall|j: int| 0 <= j < rest.len() ==> #[trigger] rest@[j] == outcomes@[j],
        decreases rest.len(),
    {
        let last = rest.pop().unwrap();
        let k = rest.len();
        assert(result_vars_view(last) == views[k as int]);
        match last {
            Ok(vars) => {
                assert(last_success(views, (k + 1) as nat) == views[k as int]);
                assert(outcomes@[k as int] == Ok::<Vec<NixVariable>, ConversionError>(vars));
                return Ok(vars);
            },
            Err(_) => {
                assert(last_success(views, (k + 1) as nat) == last_success(views, k as nat));
            },
        }
    }
    Err(ConversionError::AmbiguousOrNoMatch)
}

proof fn lemma_last_success_from(
    outcomes: Seq<Result<Seq<(Seq<char>, NixValue)>, ConversionError>>,
    n: nat,
    i: int,
)
    requires
        0 <= i < n <= outcomes.len(),
        outcomes[i] is Ok,
        forall|j: int| i < j < outcomes.len() ==> #[trigger] outcomes[j] is Err,
    ensures
        last_success(outcomes, n) == outcomes[i],
    decreases n,
{
    if n > i + 1 {
        lemma_last_success_from(outcomes, (n - 1) as nat, i);
    }
}

proof fn lemma_last_success_none(
    outcomes: Seq<Result<Seq<(Seq<char>, NixValue)>, ConversionError>>,
    n: nat,
)
    requires
        n <= outcomes.len(),
        forall|j: int| 0 <= j < outcomes.len() ==> #[trigger] outcomes[j] is Err,
    ensures
        last_success(outcomes, n) == Err::<Seq<(Seq<char>, NixValue)>, ConversionError>(
            ConversionError::AmbiguousOrNoMatch,
        ),
    decreases n,
{
    if n > 0 {
        lemma_last_success_none(outcomes, (n - 1) as nat);
    }
}

/// Every converter rejects a document whose root is a scalar or a list.
pub proof fn lemma_non_mapping_root_rejected(p: FormatParser, content: Seq<char>)
    requires
        parser_document(p, content) matches Some(t) && !(t is Mapping),
    ensures
        parser_outcome(p, content) == Err::<Seq<(Seq<char>, NixValue)>, ConversionError>(
            ConversionError::UnsupportedRootShape,
        ),
{
}

/// When guessing, the outcome is that of the last converter, in
/// registration order, that succeeds: whatever the converters registered
/// before it give does not count.
pub proof fn lemma_guess_last_success_wins(
    registered: Seq<(SupportedFormats, FormatParser)>,
    content: Seq<char>,
    i: int,
)
    requires
        0 <= i < registered.len(),
        parser_outcome(registered[i].1, content) is Ok,
        forall|j: int|
            i < j < registered.len() ==> #[trigger] parser_outcome(registered[j].1, content) is Err,
    ensures
        dispatch(registered, true, content, None) == parser_outcome(registered[i].1, content),
{
    let all = all_outcomes(registered, content);
    assert forall|j: int| i < j < all.len() implies #[trigger] all[j] is Err by {
        assert(all[j] == parser_outcome(registered[j].1, content));
    }
    lemma_last_success_from(all, registered.len() as nat, i);
}

/// When guessing and no registered converter succeeds, dispatch fails with
/// `AmbiguousOrNoMatch`.
pub proof fn lemma_guess_without_success(
    registered: Seq<(SupportedFormats, FormatParser)>,
    content: Seq<char>,
)
    requires
        forall|j: int|
            0 <= j < registered.len() ==> #[trigger] parser_outcome(registered[j].1, content) is Err,
    ensures
        dispatch(registered, true, content, None) == Err::<Seq<(Seq<char>, NixValue)>, ConversionError>(
            ConversionError::AmbiguousOrNoMatch,
        ),
{
    let all = all_outcomes(registered, content);
    assert forall|j: int| 0 <= j < all.len() implies #[trigger] all[j] is Err by {
        assert(all[j] == parser_outcome(registered[j].1, content));
    }
    lemma_last_success_none(all, registered.len() as nat);
}

/// With an explicit format tag, the outcome is that of the converter
/// registered under that tag, whatever the guessing setting.
pub proof fn lemma_explicit_format_uses_its_converter(
    registered: Seq<(SupportedFormats, FormatParser)>,
    guessing: bool,
    content: Seq<char>,
    i: int,
)
    requires
        tags_distinct(registered),
        0 <= i < registered.len(),
    ensures
        dispatch(registered, guessing, content, Some(registered[i].0)) == parser_outcome(
            registered[i].1,
            content,
        ),
{
    let f = registered[i].0;
    assert(index_of(registered, f) is Some);
    let k = index_of(registered, f)->0;
    assert(registered[k].0 == f);
    if k < i {
        assert(registered[k].0 != registered[i].0);
    } else if i < k {
        assert(registered[i].0 != registered[k].0);
    }
}

/// An explicit format tag under which no converter is registered fails with
/// `UnknownFormat`, whatever the content and the guessing setting: no
/// converter's outcome enters the result.
pub proof fn lemma_unregistered_format_fails(
    registered: Seq<(SupportedFormats, FormatParser)>,
    guessing: bool,
    content: Seq<char>,
    format: SupportedFormats,
)
    requires
        forall|i: int| 0 <= i < registered.len() ==> #[trigger] registered[i].0 != format,
    ensures
        dispatch(registered, guessing, content, Some(format)) == Err::<
            Seq<(Seq<char>, NixValue)>,
            ConversionError,
        >(ConversionError::UnknownFormat),
{
}

/// `indexmap::IndexMap`, opaque here: it holds the registry's converters.
#[verifier::external_type_specification]
#[verifier::external_body]
#[verifier::reject_recursive_types(K)]
#[verifier::reject_recursive_types(V)]
#[verifier::reject_recursive_types(S)]
pub struct ExIndexMap<K, V, S>(indexmap::IndexMap<K, V, S>);

/// The entries of a converter table, in the table's order.
pub uninterp spec fn table_entries(m: IndexMap<SupportedFormats, FormatParser>) -> Seq<
    (SupportedFormats, FormatParser),
>;

/// Relies on `IndexMap::new`: an empty table.
#[verifier::external_body]
fn table_new() -> (r: IndexMap<SupportedFormats, FormatParser>)
    ensures
        table_entries(r) == Seq::<(SupportedFormats, FormatParser)>::empty(),
{
    IndexMap::new()
}

/// Relies on `IndexMap::contains_key`: whether an entry has the key `k`.
#[verifier::external_body]
fn table_contains(m: &IndexMap<SupportedFormats, FormatParser>, k: SupportedFormats) -> (r: bool)
    ensures
        r == (exists|i: int|
            0 <= i < table_entries(*m).len() && (#[trigger] table_entries(*m)[i]).0 == k),
{
    m.contains_key(&k)
}

/// Relies on `IndexMap::insert`: a key that no entry has goes in last.
#[verifier::external_body]
fn table_insert(m: &mut IndexMap<SupportedFormats, FormatParser>, k: SupportedFormats, v: FormatParser)
    requires
        forall|i: int|
            0 <= i < table_entries(*old(m)).len() ==> (#[trigger] table_entries(*old(m))[i]).0 != k,
    ensures
        table_entries(*final(m)) == table_entries(*old(m)).push((k, v)),
{
    m.insert(k, v);
}

/// Relies on `IndexMap::len`: the number of entries.
#[verifier::external_body]
fn table_len(m: &IndexMap<SupportedFormats, FormatParser>) -> (r: usize)
    ensures
        r == table_entries(*m).len(),
{
    m.len()
}

/// Relies on `IndexMap::get_index`: the entry at index `i`, in the table's
/// order.
#[verifier::external_body]
fn table_entry<'a>(m: &'a IndexMap<SupportedFormats, FormatParser>, i: usize) -> (r: (
    SupportedFormats,
    &'a FormatParser,
))
    requires
        i < table_entries(*m).len(),
    ensures
        r.0 == table_entries(*m)[i as int].0,
        *r.1 == table_entries(*m)[i as int].1,
{
    let (k, v) = m.get_index(i).unwrap();
    (*k, v)
}

/// Converters registered by format tag, each tag at most once.
pub struct ExpressionParser {
    parsers: IndexMap<SupportedFormats, FormatParser>,
    guess_format: bool,
}

impl ExpressionParser {
    /// The registered converters, in registration order; their tags are
    /// pairwise distinct (`tags_distinct`).
    pub closed spec fn registered(&self) -> Seq<(SupportedFormats, FormatParser)> {
        table_entries(self.parsers)
    }

    /// Whether dispatch without a format tag guesses.
    pub closed spec fn guessing(&self) -> bool {
        self.guess_format
    }

    /// Each format tag is registered at most once.
    #[verifier::type_invariant]
    closed spec fn tags_are_distinct(&self) -> bool {
        tags_distinct(table_entries(self.parsers))
    }

    /// A registry with no converter and guessing off.
    pub fn new() -> (r: ExpressionParser)
        ensures
            r.registered() == Seq::<(SupportedFormats, FormatParser)>::empty(),
            !r.guessing(),
            tags_distinct(r.registered()),
    {
        ExpressionParser { parsers: table_new(), guess_format: false }
    }

    /// This registry with `parser` registered under `format`; `None` where
    /// a converter is registered under `format` already.
    pub fn add_parser(self, format: SupportedFormats, parser: FormatParser) -> (r: Option<
        ExpressionParser,
    >)
        ensures
            index_of(self.registered(), format) is Some <==> r is None,
            r matches Some(e) ==> {
                &&& e.registered() == self.registered().push((format, parser))
                &&& e.guessing() == self.guessing()
                &&& tags_distinct(e.registered())
            },
            tags_distinct(self.registered()),
    {
        proof {
            use_type_invariant(&self);
        }
        if table_contains(&self.parsers, format) {
            return None;
        }
        let ghost before = table_entries(self.parsers);
        let mut parsers = self.parsers;
        table_insert(&mut parsers, format, parser);
        proof {
            let after = table_entries(parsers);
            assert forall|a: int, b: int| 0 <= a < b < after.len() implies #[trigger] after[a].0
                != #[trigger] after[b].0 by {
                if b < before.len() {
                    assert(after[a] == before[a] && after[b] == before[b]);
                } else {
                    assert(after[a] == before[a]);
                }
            }
        }
        Some(ExpressionParser { parsers, guess_format: self.guess_format })
    }

    /// This registry with guessing on.
    pub fn with_format_guessing(self) -> (r: ExpressionParser)
        ensures
            r.registered() == self.registered(),
            r.guessing(),
            tags_distinct(r.registered()),
    {
        proof {
            use_type_invariant(&self);
        }
        ExpressionParser { parsers: self.parsers, guess_format: true }
    }

    /// The top-level bindings of `content`, or why there are none:
    /// `dispatch(..)`.
    pub fn try_parse(&self, content: &str, format: &Option<SupportedFormats>) -> (r: Result<
        Vec<NixVariable>,
        ConversionError,
    >)
        ensures
            tags_distinct(self.registered()),
            result_vars_view(r) == dispatch(self.registered(), self.guessing(), content@, *format),
            r matches Ok(vars) ==> bindings_well_formed(vars@),
    {
        proof {
            use_type_invariant(self);
        }
        let n = table_len(&self.parsers);
        match format {
            Some(f) => {
                let mut i: usize = 0;
                while i < n
                    invariant
                        i <= n,
                        n == self.registered().len(),
                        tags_distinct(self.registered()),
                        *format == Some(*f),
                        forall|j: int| 0 <= j < i ==> #[trigger] self.registered()[j].0 != *f,
                    decreases n - i,
                {
                    let (tag, parser) = table_entry(&self.parsers, i);
                    if tag == *f {
                        proof {
                            assert(self.registered()[i as int].0 == *f);
                            assert(index_of(self.registered(), *f) is Some);
                            let k = index_of(self.registered(), *f)->0;
                            assert(self.registered()[k].0 == *f);
                            assert(k == i);
                        }
                        return parser.try_parse(content);
                    }
                    i = i + 1;
                }
                Err(ConversionError::UnknownFormat)
            },
            None => {
                if !self.guess_format {
                    return Err(ConversionError::AmbiguousOrNoMatch);
                }
                let mut outcomes: Vec<Result<Vec<NixVariable>, ConversionError>> = Vec::new();
                let ghost all = all_outcomes(self.registered(), content@);
                let mut i: usize = 0;
                while i < n
                    invariant
                        i <= n,
                        n == self.registered().len(),
                        all == all_outcomes(self.registered(), content@),
                        outcomes.len() == i,
                        forall|j: int| 0 <= j < i ==> #[trigger] result_vars_view(outcomes@[j]) == all[j],
                        forall|j: int|
                            0 <= j < i ==> (#[trigger] outcomes@[j] matches Ok(vars)
                                ==> bindings_well_formed(vars@)),
                    decreases n - i,
                {
                    let (_tag, parser) = table_entry(&self.parsers, i);
                    outcomes.push(parser.try_parse(content));
                    i = i + 1;
                }
                let ghost views = outcome_views(outcomes@);
                assert(views =~= all);
                select_last_success(outcomes)
            },
        }
    }

    /// The top-level bindings of `content`: the bindings of
    /// `dispatch(..)` where it succeeds, else `None`.
    pub fn parse(&self, content: &str, format: &Option<SupportedFormats>) -> (r: Option<
        Vec<NixVariable>,
    >)
        ensures
            tags_distinct(self.registered()),
            opt_vars_view(r) == outcome_vars(
                dispatch(self.registered(), self.guessing(), content@, *format),
            ),
            r matches Some(vars) ==> bindings_well_formed(vars@),
    {
        match self.try_parse(content, format) {
            Ok(vars) => Some(vars),
            Err(_) => None,
        }
    }
}

} // verus!
