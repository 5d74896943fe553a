use envoke::error::format_cycle;
use envoke::error::format_override_names;
use envoke::error::ResolveError;
use envoke::error::ResolveErrorKind;
use envoke::render::render_default;
use envoke::render::render_default_export;
use envoke::render::shell_escape;
use envoke::render::Meta;
use envoke::render::RenderContext;
use envoke::resolve::Resolved;

fn test_meta() -> Meta {
    Meta {
        timestamp: "2025-01-01T00:00:00+00:00".to_owned(),
        invocation: "envoke local".to_owned(),
        invocation_args: vec!["envoke".to_owned(), "local".to_owned()],
        environment: "local".to_owned(),
        config_file: "envoke.yaml".to_owned(),
        tags: vec![],
        overrides: vec![],
    }
}

fn one(name: &str, value: &str, description: Option<&str>) -> Resolved {
    Resolved { name: name.to_owned(), value: value.to_owned(), description: description.map(ToOwned::to_owned) }
}

#[test]
fn test_render_default_basic() {
    let ctx = RenderContext { resolved: vec![one("FOO", "bar", None)], meta: test_meta() };
    let output = render_default(&ctx);
    assert!(output.contains("FOO='bar'"));
    assert!(output.contains("@generated"));
    assert!(!output.contains("export"));
}

#[test]
fn test_render_default_export() {
    let ctx = RenderContext { resolved: vec![one("FOO", "bar", None)], meta: test_meta() };
    let output = render_default_export(&ctx);
    assert!(output.contains("export FOO='bar'"));
}

#[test]
fn test_render_with_description() {
    let ctx = RenderContext { resolved: vec![one("DB", "localhost", Some("Database host"))], meta: test_meta() };
    let output = render_default(&ctx);
    assert!(output.contains("# Database host\n"));
    assert!(output.contains("DB='localhost'"));
}

#[test]
fn test_render_shell_escape() {
    let ctx = RenderContext { resolved: vec![one("VAL", "it's a test", None)], meta: test_meta() };
    let output = render_default(&ctx);
    assert!(output.contains("VAL='it'\\''s a test'"));
}

#[test]
fn test_default_template_matches_old_output() {
    let ctx = RenderContext {
        resolved: vec![one("A_VAR", "hello", Some("A description")), one("B_VAR", "world", None)],
        meta: test_meta(),
    };
    let output = render_default(&ctx);
    let expected = "\
# @generated by `envoke local` at 2025-01-01T00:00:00+00:00
# Do not edit manually. Modify envoke.yaml instead.

# A description
A_VAR='hello'
B_VAR='world'
";
    assert_eq!(output, expected);
}

#[test]
fn export_output_exact() {
    let ctx = RenderContext {
        resolved: vec![one("A_VAR", "hello", Some("A description")), one("B_VAR", "it's", Some(""))],
        meta: test_meta(),
    };
    let expected = "\
# @generated by `envoke local` at 2025-01-01T00:00:00+00:00
# Do not edit manually. Modify envoke.yaml instead.

# A description
export A_VAR='hello'
export B_VAR='it'\\''s'
";
    assert_eq!(render_default_export(&ctx), expected);
}

#[test]
fn shell_escape_edge_cases() {
    assert_eq!(shell_escape(""), "");
    assert_eq!(shell_escape("plain"), "plain");
    assert_eq!(shell_escape("'"), "'\\''");
    assert_eq!(shell_escape("a''b"), "a'\\'''\\''b");
    assert_eq!(shell_escape("é'ü"), "é'\\''ü");
}

#[test]
fn format_cycle_joins_with_arrows() {
    let chain: Vec<String> = vec!["A".into(), "B".into(), "C".into(), "A".into()];
    assert_eq!(format_cycle(&chain), "A -> B -> C -> A");
    assert_eq!(format_cycle(&[]), "");
}

#[test]
fn format_override_names_lists() {
    let two: Vec<String> = vec!["a".into(), "b".into()];
    assert_eq!(format_override_names(&two), "'a' and 'b' both define sources for this variable");
    let three: Vec<String> = vec!["a".into(), "b".into(), "c".into()];
    assert_eq!(format_override_names(&three), "'a', 'b' and 'c' all define sources for this variable");
    let single: Vec<String> = vec!["a".into()];
    assert_eq!(format_override_names(&single), "'a' both define sources for this variable");
}

fn err(kind: ResolveErrorKind) -> String {
    ResolveError { variable: "VAR".to_owned(), environment: "prod".to_owned(), kind }.message()
}

#[test]
fn error_messages_per_kind() {
    assert_eq!(err(ResolveErrorKind::NoConfig), "VAR [prod]: no configuration for this environment");
    assert_eq!(
        err(ResolveErrorKind::CircularDependency { chain: vec!["A".into(), "B".into(), "A".into()] }),
        "VAR [prod]: circular dependency: A -> B -> A"
    );
    assert_eq!(
        err(ResolveErrorKind::ConflictingOverrides { names: vec!["a".into(), "b".into()] }),
        "VAR [prod]: conflicting overrides: 'a' and 'b' both define sources for this variable"
    );
    assert_eq!(
        err(ResolveErrorKind::CmdNonZero { command: vec!["sh".into(), "-c".into(), "x".into()], exit_code: Some(3), stderr: "oops".into() }),
        "VAR [prod]: command `[\"sh\", \"-c\", \"x\"]` exited with Some(3): oops"
    );
    assert_eq!(
        err(ResolveErrorKind::CmdFailed { command: vec!["prog".into()], reason: "not found".into() }),
        "VAR [prod]: command `[\"prog\"]` failed: not found"
    );
    assert_eq!(err(ResolveErrorKind::UnknownReference { name: "X".into() }), "VAR [prod]: unknown variable reference: X");
    assert_eq!(err(ResolveErrorKind::TemplateRender { reason: "bad".into() }), "VAR [prod]: template error: bad");
    assert_eq!(err(ResolveErrorKind::InvalidSource { reason: "r".into() }), "VAR [prod]: invalid source: r");
}
