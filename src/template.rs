//! Templates: the names a template reads, and rendering against resolved
//! values, both done by minijinja; and trimming of command output.
use vstd::prelude::*;

use crate::order::views;

verus! {

/// The top-level names that template text `t` reads, or the text of the
/// error that parsing it gives.
pub uninterp spec fn template_refs(t: Seq<char>) -> Result<Set<Seq<char>>, Seq<char>>;

/// What template text `t` renders to with the variables `ctx`, or the text of
/// the error.
pub uninterp spec fn rendered(t: Seq<char>, ctx: Map<Seq<char>, Seq<char>>) -> Result<Seq<char>, Seq<char>>;

/// `c` has the Unicode White_Space property, as `char::is_whitespace`
/// tests.
pub open spec fn is_white_space(c: char) -> bool {
    let x = c as int;
    (0x09 <= x <= 0x0D) || x == 0x20 || x == 0x85 || x == 0xA0 || x == 0x1680 || (0x2000 <= x <= 0x200A) || x == 0x2028
        || x == 0x2029 || x == 0x202F || x == 0x205F || x == 0x3000
}

/// `s` without its trailing whitespace.
pub open spec fn trim_end_of(s: Seq<char>) -> Seq<char>
    decreases s.len(),
{
    if s.len() > 0 && is_white_space(s.last()) {
        trim_end_of(s.drop_last())
    } else {
        s
    }
}

/// `s` without its leading whitespace.
pub open spec fn trim_start_of(s: Seq<char>) -> Seq<char>
    decreases s.len(),
{
    if s.len() > 0 && is_white_space(s[0]) {
        trim_start_of(s.drop_first())
    } else {
        s
    }
}

/// `s` without its leading and trailing whitespace.
pub open spec fn trim_of(s: Seq<char>) -> Seq<char> {
    trim_start_of(trim_end_of(s))
}

/// The name-to-value map of `values`; a later entry wins over an earlier one.
pub open spec fn context_of(values: Seq<(String, String)>) -> Map<Seq<char>, Seq<char>>
    decreases values.len(),
{
    if values.len() == 0 {
        Map::empty()
    } else {
        context_of(values.drop_last()).insert(values.last().0@, values.last().1@)
    }
}

/// Relies on minijinja's `Environment::template_from_str` and
/// `Template::undeclared_variables(false)`: the set of top-level names the
/// template reads (a set, so each once), or the parse error's text.
#[verifier::external_body]
pub(crate) fn template_references(tmpl: &str) -> (r: Result<Vec<String>, String>)
    ensures
        match template_refs(tmpl@) {
            Ok(set) => r matches Ok(v) && views(v@).no_duplicates() && views(v@).to_set() == set,
            Err(m) => r matches Err(e) && e@ == m,
        },
{
    let env = minijinja::Environment::new();
    match env.template_from_str(tmpl) {
        Ok(t) => Ok(t.undeclared_variables(false).into_iter().collect()),
        Err(e) => Err(e.to_string()),
    }
}

/// Relies on minijinja's `Environment::render_str`: renders the template with
/// each name of `values` bound to its value, or gives the error's text.
#[verifier::external_body]
pub(crate) fn render_template(tmpl: &str, values: &Vec<(String, String)>) -> (r: Result<String, String>)
    ensures
        match rendered(tmpl@, context_of(values@)) {
            Ok(s) => r matches Ok(v) && v@ == s,
            Err(m) => r matches Err(e) && e@ == m,
        },
{
    let env = minijinja::Environment::new();
    let ctx: std::collections::BTreeMap<&str, &str> = values.iter().map(|(k, v)| (k.as_str(), v.as_str())).collect();
    env.render_str(tmpl, ctx).map_err(|e| e.to_string())
}

/// Relies on `str::trim_end`: the string with its trailing characters of
/// the White_Space property removed.
#[verifier::external_body]
pub(crate) fn trim_end(s: &str) -> (r: String)
    ensures
        r@ == trim_end_of(s@),
{
    s.trim_end().to_owned()
}

/// Relies on `str::trim`: the string with its leading and trailing
/// characters of the White_Space property removed.
#[verifier::external_body]
pub(crate) fn trim(s: &str) -> (r: String)
    ensures
        r@ == trim_of(s@),
{
    s.trim().to_owned()
}

} // verus!
