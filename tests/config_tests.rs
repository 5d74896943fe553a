use envoke::config::Config;
use envoke::config::Override;
use envoke::config::Source;
use envoke::config::SourceKind;
use envoke::config::Variable;

fn source_literal(val: &str) -> Source {
    Source { literal: Some(val.to_string()), cmd: None, sh: None, template: None, skip: None }
}

fn make_config(variables: Vec<(&str, Variable)>) -> Config {
    Config { variables: variables.into_iter().map(|(k, v)| (k.to_string(), v)).collect() }
}

fn named<T>(entries: Vec<(&str, T)>) -> Vec<(String, T)> {
    entries.into_iter().map(|(k, v)| (k.to_string(), v)).collect()
}

fn bare(tags: Vec<&str>, default: Option<Source>, overrides: Vec<(&str, Override)>) -> Variable {
    Variable {
        description: None,
        tags: tags.into_iter().map(ToOwned::to_owned).collect(),
        default,
        envs: Vec::new(),
        overrides: named(overrides),
    }
}

#[test]
fn environments_from_envs_and_overrides() {
    let config = make_config(vec![(
        "VAR",
        Variable {
            description: None,
            tags: vec![],
            default: None,
            envs: named(vec![("prod", source_literal("a")), ("staging", source_literal("b"))]),
            overrides: named(vec![(
                "ovr",
                Override {
                    default: None,
                    envs: named(vec![("staging", source_literal("c")), ("dev", source_literal("d"))]),
                },
            )]),
        },
    )]);
    assert_eq!(config.environments(), vec!["dev", "prod", "staging"]);
}

#[test]
fn environments_empty() {
    let config = make_config(vec![("VAR", bare(vec![], Some(source_literal("x")), vec![]))]);
    assert!(config.environments().is_empty());
}

#[test]
fn override_names_collected_and_deduped() {
    let config = make_config(vec![
        (
            "A",
            bare(
                vec![],
                None,
                vec![
                    ("fast", Override { default: Some(source_literal("x")), envs: Vec::new() }),
                    ("slow", Override { default: Some(source_literal("y")), envs: Vec::new() }),
                ],
            ),
        ),
        ("B", bare(vec![], None, vec![("fast", Override { default: Some(source_literal("z")), envs: Vec::new() })])),
    ]);
    assert_eq!(config.override_names(), vec!["fast", "slow"]);
}

#[test]
fn override_names_empty() {
    let config = make_config(vec![("VAR", bare(vec![], Some(source_literal("x")), vec![]))]);
    assert!(config.override_names().is_empty());
}

#[test]
fn tag_names_collected_and_deduped() {
    let config = make_config(vec![
        ("A", bare(vec!["oauth", "vault"], None, vec![])),
        ("B", bare(vec!["vault", "db"], None, vec![])),
    ]);
    assert_eq!(config.tag_names(), vec!["db", "oauth", "vault"]);
}

#[test]
fn tag_names_empty() {
    let config = make_config(vec![("VAR", bare(vec![], Some(source_literal("x")), vec![]))]);
    assert!(config.tag_names().is_empty());
}

#[test]
fn kind_of_each_single_field() {
    let lit = source_literal("v");
    assert!(matches!(lit.kind(), Ok(SourceKind::Literal(v)) if v == "v"));
    let cmd = Source { literal: None, cmd: Some(vec!["echo".to_string()]), sh: None, template: None, skip: None };
    assert!(matches!(cmd.kind(), Ok(SourceKind::Cmd(v)) if v == vec!["echo".to_string()]));
    let sh = Source { literal: None, cmd: None, sh: Some("true".to_string()), template: None, skip: None };
    assert!(matches!(sh.kind(), Ok(SourceKind::Sh(v)) if v == "true"));
    let tmpl = Source { literal: None, cmd: None, sh: None, template: Some("{{ A }}".to_string()), skip: None };
    assert!(matches!(tmpl.kind(), Ok(SourceKind::Template(v)) if v == "{{ A }}"));
    let skip = Source { literal: None, cmd: None, sh: None, template: None, skip: Some(true) };
    assert!(matches!(skip.kind(), Ok(SourceKind::Skip)));
}

#[test]
fn kind_rejects_malformed_sources() {
    let empty_cmd = Source { literal: None, cmd: Some(vec![]), sh: None, template: None, skip: None };
    assert_eq!(empty_cmd.kind().err(), Some("`cmd` must have at least one element"));
    let none = Source { literal: None, cmd: None, sh: None, template: None, skip: None };
    assert_eq!(none.kind().err(), Some("one of `literal`, `cmd`, `sh`, `template`, or `skip` must be specified"));
    let skip_false = Source { literal: None, cmd: None, sh: None, template: None, skip: Some(false) };
    assert_eq!(skip_false.kind().err(), Some("one of `literal`, `cmd`, `sh`, `template`, or `skip` must be specified"));
    let two = Source { literal: Some("a".to_string()), cmd: None, sh: Some("b".to_string()), template: None, skip: None };
    assert_eq!(two.kind().err(), Some("only one of `literal`, `cmd`, `sh`, `template`, or `skip` may be specified"));
    let lit_and_skip = Source { literal: Some("a".to_string()), cmd: None, sh: None, template: None, skip: Some(false) };
    assert_eq!(lit_and_skip.kind().err(), Some("only one of `literal`, `cmd`, `sh`, `template`, or `skip` may be specified"));
}
