//! The Nix expression generator.
use vstd::prelude::*;
use vstd::string::*;
use super::source::vars_view;
use super::value::{render, render_bindings, NixValue, NixVariable};

verus! {

/// The text of a Nix module that enables `programs.<name>` and holds the
/// bindings `vars`, one `name = value;` line each, in order.
pub open spec fn module_text(name: Seq<char>, vars: Seq<(Seq<char>, NixValue)>) -> Seq<char> {
    "{ config, pkgs, ... }:\n"@ + "{\n"@ + "programs."@ + name + ".enable = true;\n"@
        + render_bindings(vars, vars.len()) + "};\n"@ + "}"@
}

/// What nixpkgs-fmt makes of the text `s`.
pub uninterp spec fn nix_reformat(s: Seq<char>) -> Seq<char>;

/// The text generated for `name` and `vars`, reformatted or not.
pub open spec fn expression_text(
    formatting: bool,
    name: Seq<char>,
    vars: Seq<(Seq<char>, NixValue)>,
) -> Seq<char> {
    if formatting {
        nix_reformat(module_text(name, vars))
    } else {
        module_text(name, vars)
    }
}

/// Relies on `nixpkgs_fmt::reformat_string`: the text laid out with the
/// canonical indentation and line breaks of nixpkgs-fmt.
#[verifier::external_body]
fn reformat(text: &str) -> (r: String)
    ensures
        r@ == nix_reformat(text@),
{
    nixpkgs_fmt::reformat_string(text)
}

/// The module text for `name` and `values`, before any reformatting:
/// `module_text(..)`.
pub fn module_expression(name: &str, values: &Vec<NixVariable>) -> (r: String)
    ensures
        r@ == module_text(name@, vars_view(values@)),
{
    let ghost vars = vars_view(values@);
    let mut out = String::new();
    out.append("{ config, pkgs, ... }:\n");
    out.append("{\n");
    out.append("programs.");
    out.append(name);
    out.append(".enable = true;\n");
    let ghost head = out@;
    let mut i: usize = 0;
    while i < values.len()
        invariant
            i <= values.len(),
            vars == vars_view(values@),
            vars.len() == values.len(),
            out@ == head + render_bindings(vars, i as nat),
        decreases values.len() - i,
    {
        out.append(values[i].name.as_str());
        out.append(" = ");
        values[i].value.write_to(&mut out);
        out.append(";\n");
        i = i + 1;
    }
    out.append("};\n");
    out.append("}");
    assert(out@ =~= module_text(name@, vars));
    out
}

/// With no bindings the module holds the enable line alone, and empty
/// collections inside a tree are written `[ ]` and `{ }`.
pub proof fn lemma_empty_inputs(name: Seq<char>)
    ensures
        module_text(name, seq![]) == "{ config, pkgs, ... }:\n"@ + "{\n"@ + "programs."@ + name
            + ".enable = true;\n"@ + "};\n"@ + "}"@,
        render(NixValue::List(seq![])) == "[ ]"@,
        render(NixValue::AttributeSet(seq![])) == "{ }"@,
{
    let head = "{ config, pkgs, ... }:\n"@ + "{\n"@ + "programs."@ + name + ".enable = true;\n"@;
    assert(head + Seq::<char>::empty() =~= head);
}

/// Generating is a function of the formatting setting, the program name and
/// the tree alone: bindings with the same view give the same text, so
/// generating the same tree again gives the same text again.
pub proof fn lemma_generation_is_deterministic(
    formatting: bool,
    name: Seq<char>,
    a: Seq<NixVariable>,
    b: Seq<NixVariable>,
)
    requires
        vars_view(a) == vars_view(b),
    ensures
        expression_text(formatting, name, vars_view(a)) == expression_text(
            formatting,
            name,
            vars_view(b),
        ),
{
}

/// Writes the canonical tree as a Nix module.
pub struct ExpressionGenerator {
    formatting: bool,
}

impl ExpressionGenerator {
    /// Whether the generated text is passed through nixpkgs-fmt.
    pub closed spec fn formats(&self) -> bool {
        self.formatting
    }

    pub fn new() -> (r: ExpressionGenerator)
        ensures
            !r.formats(),
    {
        ExpressionGenerator { formatting: false }
    }

    pub fn with_formatting(self) -> (r: ExpressionGenerator)
        ensures
            r.formats(),
    {
        ExpressionGenerator { formatting: true }
    }

    /// The Nix module for the program `name` holding `values`, reformatted
    /// when formatting is on. It is always produced.
    pub fn generate_nix_expression(&self, name: &str, values: &Vec<NixVariable>) -> (r: Option<
        String,
    >)
        ensures
            r matches Some(text) && text@ == expression_text(self.formats(), name@, vars_view(values@)),
    {
        let expression = module_expression(name, values);
        if self.formatting {
            Some(reformat(expression.as_str()))
        } else {
            Some(expression)
        }
    }
}

} // verus!
