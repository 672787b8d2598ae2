//! Small verified helpers for building text.
use vstd::prelude::*;
use vstd::string::*;

verus! {

/// Relies on `String::push`: the character is added at the end.
#[verifier::external_body]
pub(crate) fn push_char(s: &mut String, c: char)
    ensures
        final(s)@ == old(s)@.push(c),
{
    s.push(c)
}

/// `s` holds a double quote.
pub open spec fn has_quote(s: Seq<char>) -> bool {
    exists|i: int| 0 <= i < s.len() && s[i] == '"'
}

/// How the character at index `i` of `s` is written when `s` is escaped: a
/// backslash goes before `"`, before `\` and before a `$` that starts `${`.
pub open spec fn escaped_at(s: Seq<char>, i: int) -> Seq<char> {
    if s[i] == '"' || s[i] == '\\' || (s[i] == '$' && i + 1 < s.len() && s[i + 1] == '{') {
        seq!['\\', s[i]]
    } else {
        seq![s[i]]
    }
}

/// The first `n` characters of `s`, escaped.
pub open spec fn escaped_prefix(s: Seq<char>, n: nat) -> Seq<char>
    decreases n,
{
    if n == 0 || n > s.len() {
        seq![]
    } else {
        escaped_prefix(s, (n - 1) as nat) + escaped_at(s, n - 1)
    }
}

/// What stands between the double quotes of the Nix string for `s`: `s`
/// itself when it holds no `"`; otherwise `s` escaped, so that its quotes
/// neither end the string nor let a `\` or `${` of `s` be read as an escape
/// or an interpolation.
pub open spec fn string_body(s: Seq<char>) -> Seq<char> {
    if has_quote(s) {
        escaped_prefix(s, s.len())
    } else {
        s
    }
}

/// Whether `s` holds a double quote.
pub fn contains_quote(s: &str) -> (r: bool)
    ensures
        r == has_quote(s@),
{
    let n = s.unicode_len();
    let mut i: usize = 0;
    while i < n
        invariant
            n == s@.len(),
            i <= n,
            forall|j: int| 0 <= j < i ==> s@[j] != '"',
        decreases n - i,
    {
        if s.get_char(i) == '"' {
            return true;
        }
        i = i + 1;
    }
    false
}

/// Appends `string_body(s@)` to `out`.
pub fn push_string_body(out: &mut String, s: &str)
    ensures
        final(out)@ == old(out)@ + string_body(s@),
{
    if !contains_quote(s) {
        out.append(s);
        return;
    }
    let n = s.unicode_len();
    let mut i: usize = 0;
    while i < n
        invariant
            n == s@.len(),
            i <= n,
            has_quote(s@),
            out@ == old(out)@ + escaped_prefix(s@, i as nat),
        decreases n - i,
    {
        let c = s.get_char(i);
        if c == '"' || c == '\\' || (c == '$' && i + 1 < n && s.get_char(i + 1) == '{') {
            push_char(out, '\\');
        }
        push_char(out, c);
        i = i + 1;
    }
}

} // verus!
