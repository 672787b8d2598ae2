//! The canonical value model shared by every converter and by the generator,
//! and the Nix text each value is written as.
use vstd::prelude::*;
use vstd::string::*;
use super::text::{push_string_body, string_body};

verus! {

/// A value of the canonical tree, in the form that contracts speak of.
pub enum NixValue {
    Str(Seq<char>),
    Number(Seq<char>),
    Path(Seq<char>),
    Boolean(bool),
    Null,
    List(Seq<NixValue>),
    AttributeSet(Seq<(Seq<char>, NixValue)>),
}

/// A value of the canonical tree.
///
/// A number is held as its decimal text (see `number_text`). An attribute
/// set is held as its bindings in order, in a `Vec`: an outside map type
/// cannot hold this recursive type here, since the verifier refuses a type
/// that recurses through a map's type parameter. `well_formed` says that
/// every name appears at most once, at every level; the converters only
/// produce such values, and `set_attribute` keeps it (a repeated name
/// overwrites). A value built by hand may repeat a name, and the generator
/// then writes both bindings.
#[derive(Debug, PartialEq)]
pub enum NixVariableValue {
    String(String),
    Number(String),
    Path(String),
    Boolean(bool),
    Null,
    List(Vec<NixVariableValue>),
    AttributeSet(Vec<(String, NixVariableValue)>),
}

/// One top-level binding `name = value;` of a module.
#[derive(Debug, PartialEq)]
pub struct NixVariable {
    pub name: String,
    pub value: NixVariableValue,
}

pub open spec fn value_view(v: NixVariableValue) -> NixValue
    decreases v, 0nat,
{
    match v {
        NixVariableValue::String(s) => NixValue::Str(s@),
        NixVariableValue::Number(t) => NixValue::Number(t@),
        NixVariableValue::Path(p) => NixValue::Path(p@),
        NixVariableValue::Boolean(b) => NixValue::Boolean(b),
        NixVariableValue::Null => NixValue::Null,
        NixVariableValue::List(items) => NixValue::List(list_view(items, items.len() as nat)),
        NixVariableValue::AttributeSet(entries) => NixValue::AttributeSet(
            entries_view(entries, entries.len() as nat),
        ),
    }
}

/// The views of the first `n` items.
pub open spec fn list_view(items: Vec<NixVariableValue>, n: nat) -> Seq<NixValue>
    decreases items, n,
{
    if n == 0 || n > items.len() {
        seq![]
    } else {
        list_view(items, (n - 1) as nat).push(value_view(items[n - 1]))
    }
}

/// The views of the first `n` bindings.
pub open spec fn entries_view(entries: Vec<(String, NixVariableValue)>, n: nat) -> Seq<
    (Seq<char>, NixValue),
>
    decreases entries, n,
{
    if n == 0 || n > entries.len() {
        seq![]
    } else {
        entries_view(entries, (n - 1) as nat).push(
            (entries[n - 1].0@, value_view(entries[n - 1].1)),
        )
    }
}

impl View for NixVariableValue {
    type V = NixValue;

    open spec fn view(&self) -> NixValue {
        value_view(*self)
    }
}

pub proof fn lemma_list_view(items: Vec<NixVariableValue>, n: nat)
    requires
        n <= items.len(),
    ensures
        list_view(items, n).len() == n,
        forall|j: int| 0 <= j < n ==> #[trigger] list_view(items, n)[j] == value_view(items[j]),
    decreases n,
{
    if n > 0 {
        lemma_list_view(items, (n - 1) as nat);
    }
}

pub proof fn lemma_entries_view(entries: Vec<(String, NixVariableValue)>, n: nat)
    requires
        n <= entries.len(),
    ensures
        entries_view(entries, n).len() == n,
        forall|j: int|
            0 <= j < n ==> #[trigger] entries_view(entries, n)[j] == (
                entries[j].0@,
                value_view(entries[j].1),
            ),
    decreases n,
{
    if n > 0 {
        lemma_entries_view(entries, (n - 1) as nat);
    }
}

/// The Nix text of a value.
///
/// A string is written between double quotes: as it is when it holds no
/// `"`, and escaped (`string_body`) when it does, so that the result is
/// still one Nix string with the same value. A number and a path are
/// written as held; a list puts each item on a line of its own and
/// an attribute set writes one `name = value;` line per binding, in order.
/// An empty list is `[ ]` and an empty attribute set is `{ }`.
pub open spec fn render(v: NixValue) -> Seq<char>
    decreases v, 0nat,
{
    match v {
        NixValue::Str(s) => "\""@ + string_body(s) + "\""@,
        NixValue::Number(t) => t,
        NixValue::Path(p) => p,
        NixValue::Boolean(b) => if b {
            "true"@
        } else {
            "false"@
        },
        NixValue::Null => "null"@,
        NixValue::List(items) => if items.len() == 0 {
            "[ ]"@
        } else {
            "[\n"@ + render_lines(items, items.len()) + "\n]"@
        },
        NixValue::AttributeSet(entries) => if entries.len() == 0 {
            "{ }"@
        } else {
            "{\n"@ + render_bindings(entries, entries.len()) + "}"@
        },
    }
}

/// The first `n` items, one per line, with no line break after the last.
pub open spec fn render_lines(items: Seq<NixValue>, n: nat) -> Seq<char>
    decreases items, n,
{
    if n == 0 || n > items.len() {
        seq![]
    } else if n == 1 {
        render(items[0])
    } else {
        render_lines(items, (n - 1) as nat) + "\n"@ + render(items[n - 1])
    }
}

/// The first `n` bindings, each as a `name = value;` line.
pub open spec fn render_bindings(entries: Seq<(Seq<char>, NixValue)>, n: nat) -> Seq<char>
    decreases entries, n,
{
    if n == 0 || n > entries.len() {
        seq![]
    } else {
        render_bindings(entries, (n - 1) as nat) + entries[n - 1].0 + " = "@ + render(
            entries[n - 1].1,
        ) + ";\n"@
    }
}

/// The line `name = value;` of a binding.
pub open spec fn binding_text(name: Seq<char>, v: NixValue) -> Seq<char> {
    name + " = "@ + render(v) + ";\n"@
}

/// Names of the bindings of an attribute set are pairwise distinct, at every
/// level of the tree.
pub open spec fn well_formed(v: NixValue) -> bool
    decreases v,
{
    match v {
        NixValue::List(items) => forall|i: int| 0 <= i < items.len() ==> well_formed(#[trigger] items[i]),
        NixValue::AttributeSet(entries) => {
            &&& forall|i: int, j: int|
                0 <= i < j < entries.len() ==> #[trigger] entries[i].0 != #[trigger] entries[j].0
            &&& forall|i: int| 0 <= i < entries.len() ==> well_formed(#[trigger] entries[i].1)
        },
        _ => true,
    }
}

impl NixVariableValue {
    /// Appends the Nix text of this value to `out`.
    pub fn write_to(&self, out: &mut String)
        ensures
            final(out)@ == old(out)@ + render(self@),
        decreases self,
    {
        match self {
            NixVariableValue::String(s) => {
                out.append("\"");
                push_string_body(out, s.as_str());
                out.append("\"");
            },
            NixVariableValue::Number(t) => {
                out.append(t.as_str());
            },
            NixVariableValue::Path(p) => {
                out.append(p.as_str());
            },
            NixVariableValue::Boolean(b) => {
                if *b {
                    out.append("true");
                } else {
                    out.append("false");
                }
            },
            NixVariableValue::Null => {
                out.append("null");
            },
            NixVariableValue::List(items) => {
                let ghost views = list_view(*items, items.len() as nat);
                proof {
                    lemma_list_view(*items, items.len() as nat);
                }
                if items.len() == 0 {
                    out.append("[ ]");
                } else {
                    let ghost start = out@;
                    out.append("[\n");
                    let mut i: usize = 0;
                    while i < items.len()
                        invariant
                            i <= items.len(),
                            *self == NixVariableValue::List(*items),
                            views == list_view(*items, items.len() as nat),
                            views.len() == items.len(),
                            forall|j: int| 0 <= j < items.len() ==> #[trigger] views[j] == value_view(items[j]),
                            out@ == start + "[\n"@ + render_lines(views, i as nat),
                        decreases items.len() - i,
                    {
                        if i > 0 {
                            out.append("\n");
                        }
                        proof {
                            vstd::std_specs::vec::axiom_vec_index_decreases(*items, i as int);
                            assert(decreases_to!(*self => (*self)->List_0));
                            assert(decreases_to!(*items => items[i as int]));
                        }
                        items[i].write_to(out);
                        i = i + 1;
                    }
                    out.append("\n]");
                }
            },
            NixVariableValue::AttributeSet(entries) => {
                let ghost views = entries_view(*entries, entries.len() as nat);
                proof {
                    lemma_entries_view(*entries, entries.len() as nat);
                }
                if entries.len() == 0 {
                    out.append("{ }");
                } else {
                    let ghost start = out@;
                    out.append("{\n");
                    let mut i: usize = 0;
                    while i < entries.len()
                        invariant
                            i <= entries.len(),
                            *self == NixVariableValue::AttributeSet(*entries),
                            views == entries_view(*entries, entries.len() as nat),
                            views.len() == entries.len(),
                            forall|j: int|
                                0 <= j < entries.len() ==> #[trigger] views[j] == (
                                    entries[j].0@,
                                    value_view(entries[j].1),
                                ),
                            out@ == start + "{\n"@ + render_bindings(views, i as nat),
                        decreases entries.len() - i,
                    {
                        out.append(entries[i].0.as_str());
                        out.append(" = ");
                        proof {
                            vstd::std_specs::vec::axiom_vec_index_decreases(*entries, i as int);
                            assert(decreases_to!(*self => (*self)->AttributeSet_0));
                            assert(decreases_to!(*entries => entries[i as int]));
                            assert(decreases_to!(entries[i as int] => entries[i as int].1));
                        }
                        entries[i].1.write_to(out);
                        out.append(";\n");
                        i = i + 1;
                    }
                    out.append("}");
                }
            },
        }
    }

    /// A copy of this value.
    pub fn duplicate(&self) -> (r: NixVariableValue)
        ensures
            r@ == self@,
        decreases self,
    {
        match self {
            NixVariableValue::String(s) => NixVariableValue::String(s.clone()),
            NixVariableValue::Number(t) => NixVariableValue::Number(t.clone()),
            NixVariableValue::Path(p) => NixVariableValue::Path(p.clone()),
            NixVariableValue::Boolean(b) => NixVariableValue::Boolean(*b),
            NixVariableValue::Null => NixVariableValue::Null,
            NixVariableValue::List(items) => {
                let mut copy: Vec<NixVariableValue> = Vec::new();
                let mut i: usize = 0;
                while i < items.len()
                    invariant
                        i <= items.len(),
                        *self == NixVariableValue::List(*items),
                        copy.len() == i,
                        forall|j: int| 0 <= j < i ==> #[trigger] copy@[j]@ == items@[j]@,
                    decreases items.len() - i,
                {
                    proof {
                        vstd::std_specs::vec::axiom_vec_index_decreases(*items, i as int);
                            assert(decreases_to!(*self => (*self)->List_0));
                    }
                    copy.push(items[i].duplicate());
                    i = i + 1;
                }
                proof {
                    lemma_list_view(copy, copy.len() as nat);
                    lemma_list_view(*items, items.len() as nat);
                    assert forall|j: int| 0 <= j < copy.len() implies #[trigger] list_view(
                        copy,
                        copy.len() as nat,
                    )[j] == list_view(*items, items.len() as nat)[j] by {
                        assert(copy@[j]@ == items@[j]@);
                    }
                    assert(list_view(copy, copy.len() as nat) =~= list_view(
                        *items,
                        items.len() as nat,
                    ));
                }
                NixVariableValue::List(copy)
            },
            NixVariableValue::AttributeSet(entries) => {
                let mut copy: Vec<(String, NixVariableValue)> = Vec::new();
                let mut i: usize = 0;
                while i < entries.len()
                    invariant
                        i <= entries.len(),
                        *self == NixVariableValue::AttributeSet(*entries),
                        copy.len() == i,
                        forall|j: int| 0 <= j < i ==> #[trigger] copy@[j].0@ == entries@[j].0@,
                        forall|j: int| 0 <= j < i ==> #[trigger] copy@[j].1@ == entries@[j].1@,
                    decreases entries.len() - i,
                {
                    proof {
                        vstd::std_specs::vec::axiom_vec_index_decreases(*entries, i as int);
                            assert(decreases_to!(*self => (*self)->AttributeSet_0));
                            assert(decreases_to!(*entries => entries[i as int]));
                            assert(decreases_to!(entries[i as int] => entries[i as int].1));
                    }
                    let key = entries[i].0.clone();
                    let value = entries[i].1.duplicate();
                    let ghost before = copy@;
                    copy.push((key, value));
                    assert(value@ == entries@[i as int].1@);
                    assert(key@ == entries@[i as int].0@);
                    assert forall|j: int| 0 <= j < i + 1 implies #[trigger] copy@[j].1@
                        == entries@[j].1@ by {
                        if j < i {
                            assert(copy@[j] == before[j]);
                        }
                    }
                    assert forall|j: int| 0 <= j < i + 1 implies #[trigger] copy@[j].0@
                        == entries@[j].0@ by {
                        if j < i {
                            assert(copy@[j] == before[j]);
                        }
                    }
                    i = i + 1;
                }
                proof {
                    lemma_entries_view(copy, copy.len() as nat);
                    lemma_entries_view(*entries, entries.len() as nat);
                    assert forall|j: int| 0 <= j < copy.len() implies #[trigger] entries_view(
                        copy,
                        copy.len() as nat,
                    )[j] == entries_view(*entries, entries.len() as nat)[j] by {
                        assert(copy@[j].0@ == entries@[j].0@);
                        assert(copy@[j].1@ == entries@[j].1@);
                    }
                    assert(entries_view(copy, copy.len() as nat) =~= entries_view(
                        *entries,
                        entries.len() as nat,
                    ));
                }
                NixVariableValue::AttributeSet(copy)
            },
        }
    }

    /// The Nix text of this value.
    pub fn to_string(&self) -> (r: String)
        ensures
            r@ == render(self@),
    {
        let mut out = String::new();
        self.write_to(&mut out);
        out
    }
}

/// No two bindings have the same name.
pub open spec fn names_distinct(entries: Seq<(String, NixVariableValue)>) -> bool {
    forall|a: int, b: int| 0 <= a < b < entries.len() ==> #[trigger] entries[a].0@ != #[trigger] entries[b].0@
}

/// `i` is the first index of a binding named `name`.
pub open spec fn first_named(entries: Seq<(String, NixVariableValue)>, name: Seq<char>, i: int) -> bool {
    &&& 0 <= i < entries.len()
    &&& entries[i].0@ == name
    &&& forall|j: int| 0 <= j < i ==> (#[trigger] entries[j]).0@ != name
}

/// Sets the binding `name` of an attribute set: the first binding of that
/// name gets `value`, in its place; where there is none, the binding goes
/// last.
pub fn set_attribute(entries: &mut Vec<(String, NixVariableValue)>, name: String, value: NixVariableValue)
    ensures
        forall|i: int|
            first_named(old(entries)@, name@, i) ==> final(entries)@ == old(entries)@.update(
                i,
                (name, value),
            ),
        (forall|i: int| 0 <= i < old(entries)@.len() ==> (#[trigger] old(entries)@[i]).0@ != name@)
            ==> final(entries)@ == old(entries)@.push((name, value)),
        names_distinct(old(entries)@) ==> names_distinct(final(entries)@),
{
    let mut i: usize = 0;
    while i < entries.len()
        invariant
            i <= entries.len(),
            entries@ == old(entries)@,
            forall|j: int| 0 <= j < i ==> (#[trigger] entries@[j]).0@ != name@,
        decreases entries.len() - i,
    {
        if entries[i].0 == name {
            proof {
                assert forall|k: int| first_named(old(entries)@, name@, k) implies k == i by {
                    if k < i {
                        assert(old(entries)@[k].0@ != name@);
                    } else if k > i {
                        assert(old(entries)@[i as int].0@ != name@);
                    }
                }
            }
            entries.set(i, (name, value));
            proof {
                assert forall|a: int, b: int|
                    names_distinct(old(entries)@) && 0 <= a < b < entries@.len() implies
                    #[trigger] entries@[a].0@ != #[trigger] entries@[b].0@ by {
                    assert(old(entries)@[a].0@ != old(entries)@[b].0@);
                }
            }
            return;
        }
        i = i + 1;
    }
    entries.push((name, value));
}

impl NixVariable {
    pub fn new(name: &str, value: &NixVariableValue) -> (r: NixVariable)
        ensures
            r.name@ == name@,
            r.value@ == value@,
    {
        NixVariable { name: name.to_owned(), value: value.duplicate() }
    }

    /// The line `name = value;` of this binding.
    pub fn to_string(&self) -> (r: String)
        ensures
            r@ == binding_text(self.name@, self.value@),
    {
        let mut out = String::new();
        out.append(self.name.as_str());
        out.append(" = ");
        self.value.write_to(&mut out);
        out.append(";\n");
        out
    }
}

} // verus!
