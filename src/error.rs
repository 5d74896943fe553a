//! Errors reported by resolution.
use vstd::prelude::*;
use vstd::string::StringExecFns;

use crate::order::views;

verus! {

/// A failure to resolve one variable for one environment.
pub struct ResolveError {
    pub variable: String,
    pub environment: String,
    pub kind: ResolveErrorKind,
}

/// The specific kind of resolution failure.
pub enum ResolveErrorKind {
    /// No source at any level for this environment.
    NoConfig,
    /// The process could not be started.
    CmdFailed { command: Vec<String>, reason: String },
    /// The process exited unsuccessfully, or was killed.
    CmdNonZero { command: Vec<String>, exit_code: Option<i32>, stderr: String },
    /// Template references form a cycle; the chain starts and ends on one name.
    CircularDependency { chain: Vec<String> },
    /// A template references a name outside the resolvable set.
    UnknownReference { name: String },
    /// A template failed to parse or render.
    TemplateRender { reason: String },
    /// The source is malformed.
    InvalidSource { reason: String },
    /// More than one active override is defined on the variable.
    ConflictingOverrides { names: Vec<String> },
}

/// `parts` joined with `sep` between each two.
pub open spec fn joined(parts: Seq<Seq<char>>, sep: Seq<char>) -> Seq<char>
    decreases parts.len(),
{
    if parts.len() == 0 {
        Seq::empty()
    } else if parts.len() == 1 {
        parts[0]
    } else {
        joined(parts.drop_last(), sep) + sep + parts.last()
    }
}

/// `parts` joined with `sep`.
fn join(parts: &[String], sep: &str) -> (r: String)
    ensures
        r@ == joined(views(parts@), sep@),
{
    let mut out = String::new();
    let mut i: usize = 0;
    while i < parts.len()
        invariant
            i <= parts@.len(),
            out@ == joined(views(parts@.subrange(0, i as int)), sep@),
        decreases parts@.len() - i,
    {
        if i > 0 {
            out.append(sep);
        }
        out.append(parts[i].as_str());
        assert(views(parts@.subrange(0, i + 1)).drop_last() =~= views(parts@.subrange(0, i as int)));
        i += 1;
    }
    assert(parts@.subrange(0, parts@.len() as int) =~= parts@);
    out
}

/// A cycle as `A -> B -> C -> A`.
pub fn format_cycle(chain: &[String]) -> (r: String)
    ensures
        r@ == joined(views(chain@), " -> "@),
{
    join(chain, " -> ")
}

/// `n` in single quotes.
pub open spec fn quoted(n: Seq<char>) -> Seq<char> {
    "'"@ + n + "'"@
}

/// Quoted names as a list: `'a'`, `'a' and 'b'`, `'a', 'b' and 'c'`.
pub open spec fn name_list(names: Seq<Seq<char>>) -> Seq<char> {
    let q = names.map_values(|n: Seq<char>| quoted(n));
    if q.len() <= 1 {
        joined(q, ""@)
    } else {
        joined(q.drop_last(), ", "@) + " and "@ + q.last()
    }
}

/// The message of a conflict between the active overrides `names`.
pub open spec fn conflict_message(names: Seq<Seq<char>>) -> Seq<char> {
    name_list(names) + if names.len() > 2 {
        " all define sources for this variable"@
    } else {
        " both define sources for this variable"@
    }
}

/// Describes overrides that define sources for the same variable:
/// `'a' and 'b' both define sources for this variable`.
pub fn format_override_names(names: &[String]) -> (r: String)
    ensures
        r@ == conflict_message(views(names@)),
{
    let ghost q = views(names@).map_values(|n: Seq<char>| quoted(n));
    let mut quoted_names: Vec<String> = Vec::new();
    let mut i: usize = 0;
    while i < names.len()
        invariant
            i <= names@.len(),
            q == views(names@).map_values(|n: Seq<char>| quoted(n)),
            views(quoted_names@) == q.take(i as int),
        decreases names@.len() - i,
    {
        let mut s = String::from_str("'");
        s.append(names[i].as_str());
        s.append("'");
        let ghost prev = views(quoted_names@);
        quoted_names.push(s);
        assert(views(quoted_names@) =~= prev.push(quoted(names@[i as int]@)));
        assert(q.take(i + 1) =~= q.take(i as int).push(q[i as int]));
        i += 1;
    }
    assert(q.take(names@.len() as int) =~= q);
    let n = quoted_names.len();
    let mut list = if n <= 1 {
        join(quoted_names.as_slice(), "")
    } else {
        let last = quoted_names.pop().unwrap();
        assert(views(quoted_names@) =~= q.drop_last());
        let mut l = join(quoted_names.as_slice(), ", ");
        l.append(" and ");
        l.append(last.as_str());
        l
    };
    if n > 2 {
        list.append(" all define sources for this variable");
    } else {
        list.append(" both define sources for this variable");
    }
    list
}

/// How `{:?}` writes a list of strings.
pub uninterp spec fn debug_list(v: Seq<Seq<char>>) -> Seq<char>;

/// How `{:?}` writes an optional exit code.
pub uninterp spec fn debug_code(c: Option<i32>) -> Seq<char>;

/// Relies on `Debug for Vec<String>`: the list in brackets, each string
/// quoted and escaped; the text depends on the strings alone.
#[verifier::external_body]
fn list_debug(v: &Vec<String>) -> (r: String)
    ensures
        r@ == debug_list(views(v@)),
{
    format!("{v:?}")
}

/// Relies on `Debug for Option<i32>`: `Some(n)` or `None`.
#[verifier::external_body]
fn code_debug(c: Option<i32>) -> (r: String)
    ensures
        r@ == debug_code(c),
{
    format!("{c:?}")
}

/// The text of an error kind.
pub open spec fn kind_message(k: ResolveErrorKind) -> Seq<char> {
    match k {
        ResolveErrorKind::NoConfig => "no configuration for this environment"@,
        ResolveErrorKind::CmdFailed { command, reason } => "command `"@ + debug_list(views(command@)) + "` failed: "@ + reason@,
        ResolveErrorKind::CmdNonZero { command, exit_code, stderr } => "command `"@ + debug_list(views(command@)) + "` exited with "@
            + debug_code(exit_code) + ": "@ + stderr@,
        ResolveErrorKind::CircularDependency { chain } => "circular dependency: "@ + joined(views(chain@), " -> "@),
        ResolveErrorKind::UnknownReference { name } => "unknown variable reference: "@ + name@,
        ResolveErrorKind::TemplateRender { reason } => "template error: "@ + reason@,
        ResolveErrorKind::InvalidSource { reason } => "invalid source: "@ + reason@,
        ResolveErrorKind::ConflictingOverrides { names } => "conflicting overrides: "@ + conflict_message(views(names@)),
    }
}

impl ResolveErrorKind {
    /// The kind's text, e.g. `circular dependency: A -> B -> A`.
    pub fn message(&self) -> (r: String)
        ensures
            r@ == kind_message(*self),
    {
        match self {
            ResolveErrorKind::NoConfig => String::from_str("no configuration for this environment"),
            ResolveErrorKind::CmdFailed { command, reason } => {
                let mut m = String::from_str("command `");
                m.append(list_debug(command).as_str());
                m.append("` failed: ");
                m.append(reason.as_str());
                m
            },
            ResolveErrorKind::CmdNonZero { command, exit_code, stderr } => {
                let mut m = String::from_str("command `");
                m.append(list_debug(command).as_str());
                m.append("` exited with ");
                m.append(code_debug(*exit_code).as_str());
                m.append(": ");
                m.append(stderr.as_str());
                m
            },
            ResolveErrorKind::CircularDependency { chain } => {
                let mut m = String::from_str("circular dependency: ");
                m.append(format_cycle(chain.as_slice()).as_str());
                m
            },
            ResolveErrorKind::UnknownReference { name } => {
                let mut m = String::from_str("unknown variable reference: ");
                m.append(name.as_str());
                m
            },
            ResolveErrorKind::TemplateRender { reason } => {
                let mut m = String::from_str("template error: ");
                m.append(reason.as_str());
                m
            },
            ResolveErrorKind::InvalidSource { reason } => {
                let mut m = String::from_str("invalid source: ");
                m.append(reason.as_str());
                m
            },
            ResolveErrorKind::ConflictingOverrides { names } => {
                let mut m = String::from_str("conflicting overrides: ");
                m.append(format_override_names(names.as_slice()).as_str());
                m
            },
        }
    }
}

impl ResolveError {
    /// The error as `{variable} [{environment}]: {message}`.
    pub fn message(&self) -> (r: String)
        ensures
            r@ == self.variable@ + " ["@ + self.environment@ + "]: "@ + kind_message(self.kind),
    {
        let mut m = self.variable.clone();
        m.append(" [");
        m.append(self.environment.as_str());
        m.append("]: ");
        m.append(self.kind.message().as_str());
        m
    }
}

} // verus!
