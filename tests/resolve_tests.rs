use envoke::config::Config;
use envoke::config::Override;
use envoke::config::Source;
use envoke::config::SourceKind;
use envoke::config::Variable;
use envoke::error::ResolveError;
use envoke::error::ResolveErrorKind;
use envoke::plan::build_graph;
use envoke::plan::Planned;
use envoke::resolve::CommandOutcome;
use envoke::resolve::Resolution;
use envoke::resolve::Resolved;
use envoke::resolve::Step;
use envoke::select::undefined_overrides;

/// Stands in for running a program: `echo` prints its arguments, and a few
/// fixed scripts give fixed outcomes; anything else cannot start.
fn run_command(cmd: &[String]) -> CommandOutcome {
    let exited = |success: bool, code: i32, stdout: &str, stderr: &str| CommandOutcome::Exited {
        success,
        exit_code: Some(code),
        stdout: stdout.to_owned(),
        stderr: stderr.to_owned(),
    };
    let args: Vec<&str> = cmd.iter().map(String::as_str).collect();
    match args.as_slice() {
        ["echo", rest @ ..] => exited(true, 0, &format!("{}\n", rest.join(" ")), ""),
        ["sh", "-c", "echo oops >&2; exit 3"] => exited(false, 3, "", "oops\n"),
        ["sh", "-c", "printf '  padded \\n\\n'"] => exited(true, 0, "  padded \n\n", ""),
        ["sh", "-c", script] if script.starts_with("echo ") => exited(true, 0, &format!("{}\n", &script[5..]), ""),
        _ => CommandOutcome::SpawnFailed { reason: "No such file or directory (os error 2)".to_owned() },
    }
}

/// Runs resolution to its end, answering each command it asks for.
fn resolve_all(
    config: &Config,
    environment: &str,
    tags: &[String],
    overrides: &[String],
) -> Result<Vec<Resolved>, Vec<ResolveError>> {
    let mut res = Resolution::start(config, environment, tags, overrides)?;
    loop {
        match res.advance() {
            Step::Finished(rs) => return Ok(rs),
            Step::Failed(e) => return Err(vec![e]),
            Step::Run(cmd) => {
                res.complete(run_command(&cmd)).map_err(|e| vec![e])?;
            }
        }
    }
}

fn blank() -> Source {
    Source { literal: None, cmd: None, sh: None, template: None, skip: None }
}

fn literal(value: &str) -> Source {
    Source { literal: Some(value.to_owned()), ..blank() }
}

fn template(value: &str) -> Source {
    Source { template: Some(value.to_owned()), ..blank() }
}

fn cmd(args: Vec<&str>) -> Source {
    Source { cmd: Some(args.into_iter().map(ToOwned::to_owned).collect()), ..blank() }
}

fn sh(script: &str) -> Source {
    Source { sh: Some(script.to_owned()), ..blank() }
}

fn skip() -> Source {
    Source { skip: Some(true), ..blank() }
}

fn named<T>(entries: Vec<(&str, T)>) -> Vec<(String, T)> {
    entries.into_iter().map(|(k, v)| (k.to_owned(), v)).collect()
}

fn config(variables: Vec<(&str, Variable)>) -> Config {
    Config { variables: named(variables) }
}

fn var(envs: Vec<(&str, Source)>) -> Variable {
    Variable { description: None, tags: vec![], default: None, envs: named(envs), overrides: Vec::new() }
}

fn var_with_default(default: Source, envs: Vec<(&str, Source)>) -> Variable {
    Variable { description: None, tags: vec![], default: Some(default), envs: named(envs), overrides: Vec::new() }
}

fn var_tagged(tags: Vec<&str>, envs: Vec<(&str, Source)>) -> Variable {
    Variable {
        description: None,
        tags: tags.into_iter().map(ToOwned::to_owned).collect(),
        default: None,
        envs: named(envs),
        overrides: Vec::new(),
    }
}

fn var_with_overrides(default: Option<Source>, envs: Vec<(&str, Source)>, overrides: Vec<(&str, Override)>) -> Variable {
    Variable { description: None, tags: vec![], default, envs: named(envs), overrides: named(overrides) }
}

fn ovr(default: Option<Source>, envs: Vec<(&str, Source)>) -> Override {
    Override { default, envs: named(envs) }
}

fn strings(v: &[&str]) -> Vec<String> {
    v.iter().map(|s| (*s).to_owned()).collect()
}

fn planned_template(name: &str, text: &str) -> Planned {
    Planned { name: name.to_owned(), kind: SourceKind::Template(text.to_owned()), description: None }
}

#[test]
fn test_template_references() {
    let plan = vec![planned_template("CONN", "postgresql://{{ USER }}:{{ PASS }}@localhost/{{ DB }}")];
    let errs = build_graph(&plan, "local").err().unwrap();
    let names: Vec<&str> = errs
        .iter()
        .map(|e| match &e.kind {
            ResolveErrorKind::UnknownReference { name } => name.as_str(),
            _ => panic!("unexpected error"),
        })
        .collect();
    assert_eq!(names, vec!["DB", "PASS", "USER"]);
}

#[test]
fn test_template_references_empty() {
    let plan = vec![planned_template("A", "no references here")];
    let deps = build_graph(&plan, "local").ok().unwrap();
    assert!(deps[0].is_empty());
}

#[test]
fn test_resolve_literal() {
    let mut v = var(vec![("local", literal("bar"))]);
    v.description = Some("A foo".to_owned());
    let c = config(vec![("FOO", v)]);
    let resolved = resolve_all(&c, "local", &[], &[]).ok().unwrap();
    assert_eq!(resolved.len(), 1);
    assert_eq!(resolved[0].name, "FOO");
    assert_eq!(resolved[0].value, "bar");
    assert_eq!(resolved[0].description.as_deref(), Some("A foo"));
}

#[test]
fn test_resolve_template() {
    let c = config(vec![
        ("USER", var(vec![("local", literal("alice"))])),
        ("GREETING", var(vec![("local", template("hello {{ USER }}!"))])),
    ]);
    let resolved = resolve_all(&c, "local", &[], &[]).ok().unwrap();
    let greeting = resolved.iter().find(|r| r.name == "GREETING").unwrap();
    assert_eq!(greeting.value, "hello alice!");
}

#[test]
fn test_resolve_template_urlencode() {
    let c = config(vec![
        ("USER", var(vec![("local", literal("alice"))])),
        ("PASS", var(vec![("local", literal("p@ss:word"))])),
        ("CONN", var(vec![("local", template("{{ USER | urlencode }}:{{ PASS | urlencode }}"))])),
    ]);
    let resolved = resolve_all(&c, "local", &[], &[]).ok().unwrap();
    let conn = resolved.iter().find(|r| r.name == "CONN").unwrap();
    assert_eq!(conn.value, "alice:p%40ss%3Aword");
}

#[test]
fn test_missing_environment() {
    let c = config(vec![("FOO", var(vec![("prod", literal("x"))]))]);
    let err = resolve_all(&c, "local", &[], &[]).err().unwrap();
    assert_eq!(err.len(), 1);
    assert!(matches!(err[0].kind, ResolveErrorKind::NoConfig));
}

#[test]
fn test_circular_dependency() {
    let c = config(vec![
        ("A", var(vec![("local", template("{{ B }}"))])),
        ("B", var(vec![("local", template("{{ A }}"))])),
    ]);
    let err = resolve_all(&c, "local", &[], &[]).err().unwrap();
    assert!(err
        .iter()
        .any(|e| matches!(&e.kind, ResolveErrorKind::CircularDependency { chain } if chain.len() >= 3)));
}

#[test]
fn test_unknown_reference() {
    let c = config(vec![("A", var(vec![("local", template("{{ NONEXISTENT }}"))]))]);
    let err = resolve_all(&c, "local", &[], &[]).err().unwrap();
    assert!(err
        .iter()
        .any(|e| matches!(&e.kind, ResolveErrorKind::UnknownReference { name } if name == "NONEXISTENT")));
}

#[test]
fn test_resolve_cmd_echo() {
    let c = config(vec![("VAL", var(vec![("local", cmd(vec!["echo", "hello"]))]))]);
    let resolved = resolve_all(&c, "local", &[], &[]).ok().unwrap();
    assert_eq!(resolved[0].value, "hello");
}

#[test]
fn test_default_fallback() {
    let c = config(vec![("FOO", var_with_default(literal("fallback"), vec![]))]);
    let resolved = resolve_all(&c, "any-env", &[], &[]).ok().unwrap();
    assert_eq!(resolved[0].value, "fallback");
}

#[test]
fn test_env_overrides_default() {
    let c = config(vec![("FOO", var_with_default(literal("fallback"), vec![("local", literal("override"))]))]);
    let resolved = resolve_all(&c, "local", &[], &[]).ok().unwrap();
    assert_eq!(resolved[0].value, "override");
}

#[test]
fn test_circular_dependency_chain_message() {
    let c = config(vec![
        ("A", var(vec![("local", template("{{ B }}"))])),
        ("B", var(vec![("local", template("{{ C }}"))])),
        ("C", var(vec![("local", template("{{ A }}"))])),
    ]);
    let err = resolve_all(&c, "local", &[], &[]).err().unwrap();
    let cycle = err
        .iter()
        .find_map(|e| match &e.kind {
            ResolveErrorKind::CircularDependency { chain } => Some(chain),
            _ => None,
        })
        .expect("should have a cycle error");
    assert_eq!(cycle.first(), cycle.last(), "chain should start and end with same node");
    assert_eq!(cycle.len(), 4, "3-node cycle should have 4 entries (A->B->C->A)");
}

#[test]
fn test_skip_omits_variable() {
    let c = config(vec![
        ("KEEP", var(vec![("local", literal("yes"))])),
        ("DROP", var(vec![("local", skip())])),
    ]);
    let resolved = resolve_all(&c, "local", &[], &[]).ok().unwrap();
    assert_eq!(resolved.len(), 1);
    assert_eq!(resolved[0].name, "KEEP");
}

#[test]
fn test_skip_as_default() {
    let c = config(vec![("VAR", var_with_default(skip(), vec![("staging", literal("yes"))]))]);
    let resolved = resolve_all(&c, "staging", &[], &[]).ok().unwrap();
    assert_eq!(resolved.len(), 1);
    assert_eq!(resolved[0].value, "yes");
    let resolved = resolve_all(&c, "prod", &[], &[]).ok().unwrap();
    assert!(resolved.is_empty());
}

#[test]
fn test_skip_reference_errors() {
    let c = config(vec![
        ("SKIPPED", var(vec![("local", skip())])),
        ("USER", var(vec![("local", template("hi {{ SKIPPED }}"))])),
    ]);
    let err = resolve_all(&c, "local", &[], &[]).err().unwrap();
    assert!(err
        .iter()
        .any(|e| matches!(&e.kind, ResolveErrorKind::UnknownReference { name } if name == "SKIPPED")));
}

#[test]
fn test_resolve_sh() {
    let c = config(vec![("VAL", var(vec![("local", sh("echo hello"))]))]);
    let resolved = resolve_all(&c, "local", &[], &[]).ok().unwrap();
    assert_eq!(resolved[0].value, "hello");
}

#[test]
fn test_no_cli_tags_excludes_tagged() {
    let c = config(vec![
        ("UNTAGGED", var(vec![("local", literal("a"))])),
        ("TAGGED", var_tagged(vec!["vault"], vec![("local", literal("b"))])),
    ]);
    let resolved = resolve_all(&c, "local", &[], &[]).ok().unwrap();
    assert_eq!(resolved.len(), 1);
    assert_eq!(resolved[0].name, "UNTAGGED");
}

#[test]
fn test_cli_tags_match_includes_variable() {
    let c = config(vec![("SECRET", var_tagged(vec!["vault"], vec![("local", literal("s3cret"))]))]);
    let resolved = resolve_all(&c, "local", &strings(&["vault"]), &[]).ok().unwrap();
    assert_eq!(resolved.len(), 1);
    assert_eq!(resolved[0].value, "s3cret");
}

#[test]
fn test_cli_tags_no_match_excludes_variable() {
    let c = config(vec![("SECRET", var_tagged(vec!["vault"], vec![("local", literal("s3cret"))]))]);
    let resolved = resolve_all(&c, "local", &strings(&["oauth"]), &[]).ok().unwrap();
    assert!(resolved.is_empty());
}

#[test]
fn test_untagged_always_included_with_cli_tags() {
    let c = config(vec![
        ("ALWAYS", var(vec![("local", literal("yes"))])),
        ("CONDITIONAL", var_tagged(vec!["vault"], vec![("local", literal("maybe"))])),
    ]);
    let resolved = resolve_all(&c, "local", &strings(&["other"]), &[]).ok().unwrap();
    assert_eq!(resolved.len(), 1);
    assert_eq!(resolved[0].name, "ALWAYS");
}

#[test]
fn test_or_semantics_one_tag_matches() {
    let c = config(vec![("MULTI", var_tagged(vec!["a", "b", "c"], vec![("local", literal("val"))]))]);
    let resolved = resolve_all(&c, "local", &strings(&["b"]), &[]).ok().unwrap();
    assert_eq!(resolved.len(), 1);
}

#[test]
fn test_multiple_cli_tags() {
    let c = config(vec![
        ("VAULT_VAR", var_tagged(vec!["vault"], vec![("local", literal("v"))])),
        ("OAUTH_VAR", var_tagged(vec!["oauth"], vec![("local", literal("o"))])),
        ("OTHER_VAR", var_tagged(vec!["other"], vec![("local", literal("x"))])),
    ]);
    let resolved = resolve_all(&c, "local", &strings(&["vault", "oauth"]), &[]).ok().unwrap();
    assert_eq!(resolved.len(), 2);
    let names: Vec<&str> = resolved.iter().map(|r| r.name.as_str()).collect();
    assert!(names.contains(&"VAULT_VAR"));
    assert!(names.contains(&"OAUTH_VAR"));
}

#[test]
fn test_excluded_variable_in_template_causes_error() {
    let c = config(vec![
        ("SECRET", var_tagged(vec!["vault"], vec![("local", literal("s3cret"))])),
        ("CONN", var(vec![("local", template("dsn://{{ SECRET }}@host"))])),
    ]);
    let err = resolve_all(&c, "local", &[], &[]).err().unwrap();
    assert!(err
        .iter()
        .any(|e| matches!(&e.kind, ResolveErrorKind::UnknownReference { name } if name == "SECRET")));
}

#[test]
fn test_empty_tags_behaves_as_untagged() {
    let c = config(vec![(
        "VAR",
        Variable {
            description: None,
            tags: vec![],
            default: None,
            envs: named(vec![("local", literal("val"))]),
            overrides: Vec::new(),
        },
    )]);
    let resolved = resolve_all(&c, "local", &strings(&["something"]), &[]).ok().unwrap();
    assert_eq!(resolved.len(), 1);
}

#[test]
fn test_tag_filtering_and_skip_are_orthogonal() {
    let c = config(vec![
        ("TAGGED_SKIP", var_tagged(vec!["vault"], vec![("local", skip())])),
        ("TAGGED_KEEP", var_tagged(vec!["vault"], vec![("local", literal("kept"))])),
    ]);
    let resolved = resolve_all(&c, "local", &strings(&["vault"]), &[]).ok().unwrap();
    assert_eq!(resolved.len(), 1);
    assert_eq!(resolved[0].name, "TAGGED_KEEP");
}

#[test]
fn test_tag_excluded_variable_no_config_no_error() {
    let c = config(vec![
        ("ALWAYS", var(vec![("local", literal("yes"))])),
        ("PROD_ONLY", var_tagged(vec!["prod-secrets"], vec![("prod", literal("secret"))])),
    ]);
    let resolved = resolve_all(&c, "local", &[], &[]).ok().unwrap();
    assert_eq!(resolved.len(), 1);
    assert_eq!(resolved[0].name, "ALWAYS");
}

#[test]
fn test_override_env_specific() {
    let c = config(vec![(
        "DB_HOST",
        var_with_overrides(
            Some(literal("localhost")),
            vec![("prod", literal("172.10.0.1"))],
            vec![("read-replica", ovr(None, vec![("prod", literal("172.10.0.2"))]))],
        ),
    )]);
    let resolved = resolve_all(&c, "prod", &[], &strings(&["read-replica"])).ok().unwrap();
    assert_eq!(resolved[0].value, "172.10.0.2");
}

#[test]
fn test_override_default() {
    let c = config(vec![(
        "DB_HOST",
        var_with_overrides(
            Some(literal("localhost")),
            vec![],
            vec![("read-replica", ovr(Some(literal("localhost-ro")), vec![]))],
        ),
    )]);
    let resolved = resolve_all(&c, "any-env", &[], &strings(&["read-replica"])).ok().unwrap();
    assert_eq!(resolved[0].value, "localhost-ro");
}

#[test]
fn test_override_fallback_to_base_env() {
    let c = config(vec![(
        "DB_HOST",
        var_with_overrides(
            Some(literal("localhost")),
            vec![("staging", literal("staging-host"))],
            vec![("read-replica", ovr(None, vec![("prod", literal("prod-ro"))]))],
        ),
    )]);
    let resolved = resolve_all(&c, "staging", &[], &strings(&["read-replica"])).ok().unwrap();
    assert_eq!(resolved[0].value, "staging-host");
}

#[test]
fn test_override_fallback_to_base_default() {
    let c = config(vec![(
        "DB_HOST",
        var_with_overrides(
            Some(literal("fallback")),
            vec![],
            vec![("read-replica", ovr(None, vec![("prod", literal("prod-ro"))]))],
        ),
    )]);
    let resolved = resolve_all(&c, "staging", &[], &strings(&["read-replica"])).ok().unwrap();
    assert_eq!(resolved[0].value, "fallback");
}

fn full_chain_config() -> Config {
    config(vec![(
        "VAR",
        var_with_overrides(
            Some(literal("base-default")),
            vec![("prod", literal("base-prod"))],
            vec![("alt", ovr(Some(literal("ovr-default")), vec![("prod", literal("ovr-prod"))]))],
        ),
    )])
}

#[test]
fn test_override_full_chain() {
    let c = full_chain_config();
    let r = resolve_all(&c, "prod", &[], &strings(&["alt"])).ok().unwrap();
    assert_eq!(r[0].value, "ovr-prod");
    let r = resolve_all(&c, "staging", &[], &strings(&["alt"])).ok().unwrap();
    assert_eq!(r[0].value, "ovr-default");
    let r = resolve_all(&c, "prod", &[], &[]).ok().unwrap();
    assert_eq!(r[0].value, "base-prod");
    let r = resolve_all(&c, "staging", &[], &[]).ok().unwrap();
    assert_eq!(r[0].value, "base-default");
}

#[test]
fn test_no_override_ignores_data() {
    let c = config(vec![(
        "DB_HOST",
        var_with_overrides(Some(literal("base")), vec![], vec![("read-replica", ovr(Some(literal("override-val")), vec![]))]),
    )]);
    let resolved = resolve_all(&c, "local", &[], &[]).ok().unwrap();
    assert_eq!(resolved[0].value, "base");
}

#[test]
fn test_override_with_skip() {
    let c = config(vec![(
        "VAR",
        var_with_overrides(Some(literal("present")), vec![], vec![("disable", ovr(Some(skip()), vec![]))]),
    )]);
    let resolved = resolve_all(&c, "local", &[], &strings(&["disable"])).ok().unwrap();
    assert!(resolved.is_empty());
}

#[test]
fn test_override_with_template() {
    let c = config(vec![
        ("HOST", var(vec![("local", literal("db.local"))])),
        (
            "CONN",
            var_with_overrides(
                Some(template("postgres://{{ HOST }}/main")),
                vec![],
                vec![("alt", ovr(Some(template("postgres://{{ HOST }}/replica")), vec![]))],
            ),
        ),
    ]);
    let resolved = resolve_all(&c, "local", &[], &strings(&["alt"])).ok().unwrap();
    let conn = resolved.iter().find(|r| r.name == "CONN").unwrap();
    assert_eq!(conn.value, "postgres://db.local/replica");
}

#[test]
fn test_override_with_tags() {
    let c = config(vec![
        (
            "TAGGED",
            Variable {
                description: None,
                tags: vec!["vault".to_owned()],
                default: Some(literal("base")),
                envs: Vec::new(),
                overrides: named(vec![("alt", ovr(Some(literal("alt-val")), vec![]))]),
            },
        ),
        ("ALWAYS", var(vec![("local", literal("yes"))])),
    ]);
    let resolved = resolve_all(&c, "local", &[], &strings(&["alt"])).ok().unwrap();
    assert_eq!(resolved.len(), 1);
    assert_eq!(resolved[0].name, "ALWAYS");
    let resolved = resolve_all(&c, "local", &strings(&["vault"]), &strings(&["alt"])).ok().unwrap();
    let tagged = resolved.iter().find(|r| r.name == "TAGGED").unwrap();
    assert_eq!(tagged.value, "alt-val");
}

#[test]
fn test_override_no_config_error() {
    let c = config(vec![("VAR", var_with_overrides(None, vec![], vec![("alt", ovr(None, vec![]))]))]);
    let err = resolve_all(&c, "local", &[], &strings(&["alt"])).err().unwrap();
    assert!(err.iter().any(|e| matches!(e.kind, ResolveErrorKind::NoConfig)));
}

#[test]
fn test_override_undefined_for_variable() {
    let c = config(vec![("VAR", var_with_default(literal("base"), vec![]))]);
    let resolved = resolve_all(&c, "any", &[], &strings(&["nonexistent"])).ok().unwrap();
    assert_eq!(resolved[0].value, "base");
}

#[test]
fn test_multiple_overrides_disjoint() {
    let c = config(vec![
        (
            "DB_HOST",
            var_with_overrides(Some(literal("main-db")), vec![], vec![("read-replica", ovr(Some(literal("replica-db")), vec![]))]),
        ),
        ("CACHE", var_with_overrides(Some(literal("lru")), vec![], vec![("aggressive", ovr(Some(literal("lfu")), vec![]))])),
    ]);
    let resolved = resolve_all(&c, "prod", &[], &strings(&["read-replica", "aggressive"])).ok().unwrap();
    let db = resolved.iter().find(|r| r.name == "DB_HOST").unwrap();
    assert_eq!(db.value, "replica-db");
    let cache = resolved.iter().find(|r| r.name == "CACHE").unwrap();
    assert_eq!(cache.value, "lfu");
}

#[test]
fn test_multiple_overrides_conflict() {
    let c = config(vec![(
        "VAR",
        var_with_overrides(
            Some(literal("base")),
            vec![],
            vec![("a", ovr(Some(literal("a-val")), vec![])), ("b", ovr(Some(literal("b-val")), vec![]))],
        ),
    )]);
    let err = resolve_all(&c, "prod", &[], &strings(&["a", "b"])).err().unwrap();
    assert!(err
        .iter()
        .any(|e| matches!(&e.kind, ResolveErrorKind::ConflictingOverrides { names } if names.len() == 2)));
}

// Further cases.

#[test]
fn no_templates_output_is_sorted_and_complete() {
    let c = config(vec![
        ("ZETA", var(vec![("local", literal("z"))])),
        ("ALPHA", var(vec![("local", literal("a"))])),
        ("MID", var(vec![("local", skip())])),
        ("BETA", var_tagged(vec!["vault"], vec![("local", literal("b"))])),
        ("GAMMA", var(vec![("local", literal("g"))])),
    ]);
    let resolved = resolve_all(&c, "local", &[], &[]).ok().unwrap();
    let names: Vec<&str> = resolved.iter().map(|r| r.name.as_str()).collect();
    assert_eq!(names, vec!["ALPHA", "GAMMA", "ZETA"]);
}

#[test]
fn cascade_precedence_other_environment() {
    let c = config(vec![("FOO", var_with_default(literal("fallback"), vec![("local", literal("override"))]))]);
    let r = resolve_all(&c, "prod", &[], &[]).ok().unwrap();
    assert_eq!(r[0].value, "fallback");
}

#[test]
fn conflicting_overrides_name_both_in_order() {
    let c = config(vec![(
        "VAR",
        var_with_overrides(
            Some(literal("base")),
            vec![],
            vec![("a", ovr(Some(literal("a-val")), vec![])), ("b", ovr(Some(literal("b-val")), vec![]))],
        ),
    )]);
    let err = resolve_all(&c, "prod", &[], &strings(&["b", "a", "zzz"])).err().unwrap();
    assert_eq!(err.len(), 1);
    assert_eq!(err[0].variable, "VAR");
    assert_eq!(err[0].environment, "prod");
    match &err[0].kind {
        ResolveErrorKind::ConflictingOverrides { names } => assert_eq!(names, &strings(&["b", "a"])),
        _ => panic!("expected a conflict"),
    }
}

#[test]
fn tag_filter_vault_variable() {
    let c = config(vec![("SECRET", var_tagged(vec!["vault"], vec![("local", literal("s"))]))]);
    assert_eq!(resolve_all(&c, "local", &strings(&["x", "vault"]), &[]).ok().unwrap().len(), 1);
    assert_eq!(resolve_all(&c, "local", &strings(&["x", "y"]), &[]).ok().unwrap().len(), 0);
}

#[test]
fn cycle_chain_is_a_to_c() {
    let c = config(vec![
        ("C", var(vec![("local", template("{{ A }}"))])),
        ("B", var(vec![("local", template("{{ C }}"))])),
        ("A", var(vec![("local", template("{{ B }}"))])),
    ]);
    let err = resolve_all(&c, "local", &[], &[]).err().unwrap();
    assert_eq!(err.len(), 1);
    match &err[0].kind {
        ResolveErrorKind::CircularDependency { chain } => {
            assert_eq!(chain.len(), 4);
            assert_eq!(chain[0], chain[3]);
            assert_eq!(err[0].variable, chain[0]);
        }
        _ => panic!("expected a cycle"),
    }
}

#[test]
fn two_separate_cycles_both_reported() {
    let c = config(vec![
        ("A", var(vec![("local", template("{{ B }}"))])),
        ("B", var(vec![("local", template("{{ A }}"))])),
        ("X", var(vec![("local", template("{{ Y }}"))])),
        ("Y", var(vec![("local", template("{{ X }}"))])),
        ("D", var(vec![("local", template("{{ A }}"))])),
    ]);
    let err = resolve_all(&c, "local", &[], &[]).err().unwrap();
    assert_eq!(err.len(), 2);
    assert!(err.iter().all(|e| matches!(&e.kind, ResolveErrorKind::CircularDependency { chain } if chain.len() == 3)));
}

#[test]
fn idempotent_resolution() {
    let c = config(vec![
        ("USER", var(vec![("local", literal("alice"))])),
        ("GREETING", var(vec![("local", template("hello {{ USER }}!"))])),
        ("OTHER", var_with_default(literal("x"), vec![])),
    ]);
    let first = resolve_all(&c, "local", &[], &[]).ok().unwrap();
    let second = resolve_all(&c, "local", &[], &[]).ok().unwrap();
    let view = |rs: &Vec<Resolved>| rs.iter().map(|r| (r.name.clone(), r.value.clone())).collect::<Vec<_>>();
    assert_eq!(view(&first), view(&second));
    assert_eq!(view(&first)[0].0, "GREETING");
}

#[test]
fn selection_errors_are_batched() {
    let c = config(vec![
        ("A", var(vec![("prod", literal("x"))])),
        ("B", var(vec![("local", cmd(vec![]))])),
        ("C", var(vec![("local", blank())])),
        ("D", var(vec![("local", template("{{ NOPE }}"))])),
    ]);
    let err = resolve_all(&c, "local", &[], &[]).err().unwrap();
    assert_eq!(err.len(), 3);
    assert!(matches!(err[0].kind, ResolveErrorKind::NoConfig));
    assert!(matches!(&err[1].kind, ResolveErrorKind::InvalidSource { reason } if reason == "`cmd` must have at least one element"));
    assert!(matches!(&err[2].kind, ResolveErrorKind::InvalidSource { .. }));
}

#[test]
fn template_parse_error_reported() {
    let c = config(vec![("A", var(vec![("local", template("{{ unclosed"))]))]);
    let err = resolve_all(&c, "local", &[], &[]).err().unwrap();
    assert!(matches!(&err[0].kind, ResolveErrorKind::TemplateRender { .. }));
}

#[test]
fn template_render_error_fails_fast() {
    let c = config(vec![
        ("N", var(vec![("local", literal("1"))])),
        ("A", var(vec![("local", template("{{ N // 0 }}"))])),
    ]);
    let err = resolve_all(&c, "local", &[], &[]).err().unwrap();
    assert_eq!(err.len(), 1);
    assert!(matches!(&err[0].kind, ResolveErrorKind::TemplateRender { .. }));
}

#[test]
fn command_failures() {
    let c = config(vec![("A", var(vec![("local", sh("echo oops >&2; exit 3"))]))]);
    let err = resolve_all(&c, "local", &[], &[]).err().unwrap();
    match &err[0].kind {
        ResolveErrorKind::CmdNonZero { command, exit_code, stderr } => {
            assert_eq!(command, &strings(&["sh", "-c", "echo oops >&2; exit 3"]));
            assert_eq!(*exit_code, Some(3));
            assert_eq!(stderr, "oops");
        }
        _ => panic!("expected a non-zero exit"),
    }
    let c = config(vec![("A", var(vec![("local", cmd(vec!["/nonexistent/program-xyz"]))]))]);
    let err = resolve_all(&c, "local", &[], &[]).err().unwrap();
    assert!(matches!(&err[0].kind, ResolveErrorKind::CmdFailed { command, .. } if command == &strings(&["/nonexistent/program-xyz"])));
}

#[test]
fn command_output_trims_only_the_end() {
    let c = config(vec![("A", var(vec![("local", sh("printf '  padded \\n\\n'"))]))]);
    let r = resolve_all(&c, "local", &[], &[]).ok().unwrap();
    assert_eq!(r[0].value, "  padded");
}

#[test]
fn empty_value_participates_in_templates() {
    let c = config(vec![
        ("E", var(vec![("local", literal(""))])),
        ("T", var(vec![("local", template("[{{ E }}]"))])),
    ]);
    let r = resolve_all(&c, "local", &[], &[]).ok().unwrap();
    assert_eq!(r[1].value, "[]");
}

#[test]
fn machine_hands_out_commands_in_order() {
    let c = config(vec![
        ("B", var(vec![("local", template("{{ A }}-b"))])),
        ("A", var(vec![("local", cmd(vec!["prog", "x"]))])),
    ]);
    let mut res = Resolution::start(&c, "local", &[], &[]).ok().unwrap();
    match res.advance() {
        Step::Run(cmd) => assert_eq!(cmd, strings(&["prog", "x"])),
        _ => panic!("expected a command"),
    }
    let done = res.complete(CommandOutcome::Exited {
        success: true,
        exit_code: Some(0),
        stdout: "out\n".to_owned(),
        stderr: String::new(),
    });
    assert!(done.is_ok());
    match res.advance() {
        Step::Finished(rs) => {
            assert_eq!(rs[0].value, "out");
            assert_eq!(rs[1].value, "out-b");
        }
        _ => panic!("expected the end"),
    }
}

#[test]
fn self_reference_is_a_cycle_of_one() {
    let c = config(vec![("A", var(vec![("local", template("{{ A }}"))]))]);
    let err = resolve_all(&c, "local", &[], &[]).err().unwrap();
    assert_eq!(err.len(), 1);
    assert_eq!(err[0].variable, "A");
    assert_eq!(err[0].environment, "local");
    assert!(matches!(&err[0].kind, ResolveErrorKind::CircularDependency { chain } if chain == &strings(&["A", "A"])));
}

#[test]
fn every_cycle_is_met_by_a_report() {
    // X reads Y first, and Y reads itself; X and Z also form a cycle.
    let c = config(vec![
        ("X", var(vec![("local", template("{{ Y }}{{ Z }}"))])),
        ("Y", var(vec![("local", template("{{ Y }}"))])),
        ("Z", var(vec![("local", template("{{ X }}"))])),
    ]);
    let err = resolve_all(&c, "local", &[], &[]).err().unwrap();
    let mut chains: Vec<Vec<String>> = err
        .iter()
        .map(|e| match &e.kind {
            ResolveErrorKind::CircularDependency { chain } => chain.clone(),
            _ => panic!("expected cycles only"),
        })
        .collect();
    chains.sort();
    assert_eq!(chains, vec![strings(&["X", "Z", "X"]), strings(&["Y", "Y"])]);
}

#[test]
fn undefined_override_names_are_listed() {
    let c = config(vec![
        ("A", var_with_overrides(Some(literal("a")), vec![], vec![("alt", ovr(Some(literal("x")), vec![]))])),
        (
            "T",
            Variable {
                description: None,
                tags: vec!["vault".to_owned()],
                default: Some(literal("t")),
                envs: Vec::new(),
                overrides: named(vec![("secret", ovr(Some(literal("y")), vec![]))]),
            },
        ),
    ]);
    let active = strings(&["alt", "nope", "secret"]);
    assert_eq!(undefined_overrides(&c, &[], &active), strings(&["nope", "secret"]));
    assert_eq!(undefined_overrides(&c, &strings(&["vault"]), &active), strings(&["nope"]));
}

#[test]
fn repeated_active_override_is_no_conflict() {
    let c = config(vec![(
        "VAR",
        var_with_overrides(Some(literal("base")), vec![], vec![("a", ovr(Some(literal("a-val")), vec![]))]),
    )]);
    let r = resolve_all(&c, "prod", &[], &strings(&["a", "a"])).ok().unwrap();
    assert_eq!(r[0].value, "a-val");
}
