//! The built-in output format: a shell fragment that assigns each resolved
//! variable, with a header naming the invocation.
use vstd::prelude::*;
use vstd::string::StrSliceExecFns;
use vstd::string::StringExecFns;

use crate::order::chars_of;
use crate::resolve::Resolved;

verus! {

/// Metadata about the invocation, shown in the header.
pub struct Meta {
    /// RFC 3339 timestamp of when the invocation started.
    pub timestamp: String,
    /// The command line as one string (e.g. `"envoke local"`).
    pub invocation: String,
    /// The command line's arguments.
    pub invocation_args: Vec<String>,
    /// Target environment name.
    pub environment: String,
    /// Path to the configuration file used.
    pub config_file: String,
    /// Active tags.
    pub tags: Vec<String>,
    /// Active overrides.
    pub overrides: Vec<String>,
}

/// Everything needed to render output.
pub struct RenderContext {
    /// Resolved variables, in the order they are written.
    pub resolved: Vec<Resolved>,
    pub meta: Meta,
}

/// How one character appears inside single quotes: a quote becomes `'\''`.
pub open spec fn escaped_char(c: char) -> Seq<char> {
    if c == '\'' {
        seq!['\'', '\\', '\'', '\'']
    } else {
        seq![c]
    }
}

/// `v` made safe to place between single quotes.
pub open spec fn shell_escaped(v: Seq<char>) -> Seq<char>
    decreases v.len(),
{
    if v.len() == 0 {
        Seq::empty()
    } else {
        shell_escaped(v.drop_last()) + escaped_char(v.last())
    }
}

/// Escapes a value for a single-quoted shell string: each `'` becomes `'\''`
/// (end quote, escaped quote, start quote).
pub fn shell_escape(value: &str) -> (r: String)
    ensures
        r@ == shell_escaped(value@),
{
    let cs = chars_of(value);
    let mut out = String::new();
    let mut cut: usize = 0;
    let mut i: usize = 0;
    assert(value@.subrange(0, 0) =~= Seq::<char>::empty());
    while i < cs.len()
        invariant
            cs@ == value@,
            cut <= i <= cs@.len(),
            out@ + value@.subrange(cut as int, i as int) == shell_escaped(value@.subrange(0, i as int)),
        decreases cs@.len() - i,
    {
        let ghost before = value@.subrange(0, i as int);
        assert(value@.subrange(0, i + 1).drop_last() =~= before);
        if cs[i] == '\'' {
            out.append(value.substring_char(cut, i));
            out.append("'\\''");
            proof {
                reveal_strlit("'\\''");
            }
            assert(out@ =~= shell_escaped(value@.subrange(0, i + 1)));
            cut = i + 1;
        } else {
            assert(value@.subrange(cut as int, i + 1) =~= value@.subrange(cut as int, i as int).push(cs@[i as int]));
        }
        i += 1;
        assert(value@.subrange(cut as int, i as int).len() == 0 ==> value@.subrange(cut as int, i as int) =~= Seq::<char>::empty());
    }
    out.append(value.substring_char(cut, cs.len()));
    assert(value@.subrange(0, cs@.len() as int) =~= value@);
    out
}

/// The header: who generated the file, when, and from what.
pub open spec fn header(meta: Meta) -> Seq<char> {
    "# @generated by `"@ + meta.invocation@ + "` at "@ + meta.timestamp@ + "\n# Do not edit manually. Modify "@
        + meta.config_file@ + " instead.\n\n"@
}

/// One variable's lines: its description as a comment when it has a
/// non-empty one, then the assignment.
pub open spec fn entry(r: Resolved, export: bool) -> Seq<char> {
    (match r.description {
        Some(d) => if d@.len() > 0 {
            "# "@ + d@ + "\n"@
        } else {
            Seq::empty()
        },
        None => Seq::empty(),
    }) + (if export {
        "export "@
    } else {
        Seq::empty()
    }) + r.name@ + "='"@ + shell_escaped(r.value@) + "'\n"@
}

/// The lines of every variable of `rs`, in order.
pub open spec fn entries(rs: Seq<Resolved>, export: bool) -> Seq<char>
    decreases rs.len(),
{
    if rs.len() == 0 {
        Seq::empty()
    } else {
        entries(rs.drop_last(), export) + entry(rs.last(), export)
    }
}

/// The header, then every variable's lines.
fn render(ctx: &RenderContext, export: bool) -> (r: String)
    ensures
        r@ == header(ctx.meta) + entries(ctx.resolved@, export),
{
    let mut out = String::from_str("# @generated by `");
    out.append(ctx.meta.invocation.as_str());
    out.append("` at ");
    out.append(ctx.meta.timestamp.as_str());
    out.append("\n# Do not edit manually. Modify ");
    out.append(ctx.meta.config_file.as_str());
    out.append(" instead.\n\n");
    let mut i: usize = 0;
    assert(ctx.resolved@.subrange(0, 0) =~= Seq::<Resolved>::empty());
    while i < ctx.resolved.len()
        invariant
            i <= ctx.resolved@.len(),
            out@ == header(ctx.meta) + entries(ctx.resolved@.subrange(0, i as int), export),
        decreases ctx.resolved@.len() - i,
    {
        let r = &ctx.resolved[i];
        let ghost before = out@;
        if let Some(d) = &r.description {
            if d.as_str().unicode_len() > 0 {
                out.append("# ");
                out.append(d.as_str());
                out.append("\n");
            }
        }
        if export {
            out.append("export ");
        }
        out.append(r.name.as_str());
        out.append("='");
        let escaped = shell_escape(r.value.as_str());
        out.append(escaped.as_str());
        out.append("'\n");
        assert(ctx.resolved@.subrange(0, i + 1).drop_last() =~= ctx.resolved@.subrange(0, i as int));
        assert(out@ =~= before + entry(*r, export));
        i += 1;
    }
    assert(ctx.resolved@.subrange(0, ctx.resolved@.len() as int) =~= ctx.resolved@);
    out
}

/// Renders with the built-in format.
pub fn render_default(ctx: &RenderContext) -> (r: String)
    ensures
        r@ == header(ctx.meta) + entries(ctx.resolved@, false),
{
    render(ctx, false)
}

/// Renders with the built-in format, each assignment prefixed by `export`.
pub fn render_default_export(ctx: &RenderContext) -> (r: String)
    ensures
        r@ == header(ctx.meta) + entries(ctx.resolved@, true),
{
    render(ctx, true)
}

} // verus!
