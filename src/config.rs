//! The in-memory configuration: variables, their overrides and their sources.
use vstd::prelude::*;

use crate::order::insert_sorted;
use crate::order::lemma_push_to_set;
use crate::order::strictly_sorted;
use crate::order::views;

verus! {

/// Top-level configuration: named variable definitions, names unique.
pub struct Config {
    pub variables: Vec<(String, Variable)>,
}

/// A single variable with per-environment sources.
pub struct Variable {
    /// Human-readable description, carried through to the output unchanged.
    pub description: Option<String>,
    /// Tags for conditional inclusion; empty means always included.
    pub tags: Vec<String>,
    /// Source used when the environment has no entry in `envs`.
    pub default: Option<Source>,
    /// Environment name to source.
    pub envs: Vec<(String, Source)>,
    /// Named overrides, each activated by name.
    pub overrides: Vec<(String, Override)>,
}

/// Alternative sources for a variable while the override is active.
pub struct Override {
    pub default: Option<Source>,
    pub envs: Vec<(String, Source)>,
}

/// How to obtain a value; exactly one field must be set.
pub struct Source {
    /// A fixed string value.
    pub literal: Option<String>,
    /// A program and its arguments; standard output is the value.
    pub cmd: Option<Vec<String>>,
    /// A script run by `sh -c`; standard output is the value.
    pub sh: Option<String>,
    /// A template that may reference other variables as `{{ NAME }}`.
    pub template: Option<String>,
    /// When `true`, the variable is omitted.
    pub skip: Option<bool>,
}

/// A validated source.
pub enum SourceKind {
    Literal(String),
    Cmd(Vec<String>),
    Sh(String),
    Template(String),
    Skip,
}

pub open spec fn msg_empty_cmd() -> Seq<char> {
    "`cmd` must have at least one element"@
}

pub open spec fn msg_none_set() -> Seq<char> {
    "one of `literal`, `cmd`, `sh`, `template`, or `skip` must be specified"@
}

pub open spec fn msg_many_set() -> Seq<char> {
    "only one of `literal`, `cmd`, `sh`, `template`, or `skip` may be specified"@
}

/// What validating `s` gives: its kind, or why it is malformed.
pub open spec fn kind_of(s: Source) -> Result<SourceKind, Seq<char>> {
    match (s.literal, s.cmd, s.sh, s.template, s.skip) {
        (None, None, None, None, Some(true)) => Ok(SourceKind::Skip),
        (Some(v), None, None, None, None) => Ok(SourceKind::Literal(v)),
        (None, Some(v), None, None, None) => if v@.len() == 0 {
            Err(msg_empty_cmd())
        } else {
            Ok(SourceKind::Cmd(v))
        },
        (None, None, Some(v), None, None) => Ok(SourceKind::Sh(v)),
        (None, None, None, Some(v), None) => Ok(SourceKind::Template(v)),
        (None, None, None, None, None) => Err(msg_none_set()),
        (None, None, None, None, Some(false)) => Err(msg_none_set()),
        _ => Err(msg_many_set()),
    }
}

/// Two kinds that hold the same variant and the same text.
pub open spec fn same_kind(a: SourceKind, b: SourceKind) -> bool {
    match (a, b) {
        (SourceKind::Literal(x), SourceKind::Literal(y)) => x@ == y@,
        (SourceKind::Cmd(x), SourceKind::Cmd(y)) => views(x@) == views(y@),
        (SourceKind::Sh(x), SourceKind::Sh(y)) => x@ == y@,
        (SourceKind::Template(x), SourceKind::Template(y)) => x@ == y@,
        (SourceKind::Skip, SourceKind::Skip) => true,
        _ => false,
    }
}

/// A copy of a list of strings.
pub fn clone_strings(v: &Vec<String>) -> (r: Vec<String>)
    ensures
        views(r@) == views(v@),
{
    let mut out: Vec<String> = Vec::new();
    let mut i: usize = 0;
    while i < v.len()
        invariant
            i <= v@.len(),
            views(out@) =~= views(v@.subrange(0, i as int)),
        decreases v@.len() - i,
    {
        out.push(v[i].clone());
        assert(views(v@.subrange(0, i + 1)) =~= views(v@.subrange(0, i as int)).push(v@[i as int]@));
        i += 1;
    }
    assert(v@.subrange(0, v@.len() as int) =~= v@);
    out
}

impl Source {
    /// Validates that exactly one field is set and returns the kind.
    pub fn kind(&self) -> (r: Result<SourceKind, &'static str>)
        ensures
            match kind_of(*self) {
                Ok(k) => r matches Ok(k2) && same_kind(k, k2),
                Err(m) => r matches Err(m2) && m2@ == m,
            },
    {
        let n_set: usize = (if self.literal.is_some() { 1usize } else { 0 }) + (if self.cmd.is_some() {
            1usize
        } else {
            0
        }) + (if self.sh.is_some() { 1usize } else { 0 }) + (if self.template.is_some() {
            1usize
        } else {
            0
        }) + (if self.skip.is_some() { 1usize } else { 0 });
        if n_set > 1 {
            return Err("only one of `literal`, `cmd`, `sh`, `template`, or `skip` may be specified");
        }
        if let Some(v) = &self.literal {
            Ok(SourceKind::Literal(v.clone()))
        } else if let Some(v) = &self.cmd {
            if v.len() == 0 {
                Err("`cmd` must have at least one element")
            } else {
                Ok(SourceKind::Cmd(clone_strings(v)))
            }
        } else if let Some(v) = &self.sh {
            Ok(SourceKind::Sh(v.clone()))
        } else if let Some(v) = &self.template {
            Ok(SourceKind::Template(v.clone()))
        } else if let Some(true) = self.skip {
            Ok(SourceKind::Skip)
        } else {
            Err("one of `literal`, `cmd`, `sh`, `template`, or `skip` must be specified")
        }
    }
}

/// The keys of a list of named entries.
pub open spec fn keys<V>(entries: Seq<(String, V)>) -> Seq<Seq<char>> {
    entries.map_values(|e: (String, V)| e.0@)
}

/// Every environment named in `envs` of a variable or of one of its overrides.
pub open spec fn env_names_of(v: Variable) -> Set<Seq<char>> {
    keys(v.envs@).to_set().union(
        Set::new(|e: Seq<char>| exists|k: int| 0 <= k < v.overrides@.len() && keys(#[trigger] v.overrides@[k].1.envs@).contains(e)),
    )
}

/// Every environment named anywhere in the configuration.
pub open spec fn all_env_names(c: Config) -> Set<Seq<char>> {
    Set::new(|e: Seq<char>| exists|i: int| 0 <= i < c.variables@.len() && env_names_of(#[trigger] c.variables@[i].1).contains(e))
}

/// Every override name defined on some variable.
pub open spec fn all_override_names(c: Config) -> Set<Seq<char>> {
    Set::new(|e: Seq<char>| exists|i: int| 0 <= i < c.variables@.len() && keys(#[trigger] c.variables@[i].1.overrides@).contains(e))
}

/// Every tag carried by some variable.
pub open spec fn all_tag_names(c: Config) -> Set<Seq<char>> {
    Set::new(|e: Seq<char>| exists|i: int| 0 <= i < c.variables@.len() && views(#[trigger] c.variables@[i].1.tags@).contains(e))
}

/// Adds the keys of `entries` to the sorted list `list`.
fn insert_keys<V>(list: &mut Vec<String>, entries: &Vec<(String, V)>)
    requires
        strictly_sorted(views(old(list)@)),
    ensures
        strictly_sorted(views(final(list)@)),
        views(final(list)@).to_set() == views(old(list)@).to_set().union(keys(entries@).to_set()),
{
    let mut i: usize = 0;
    while i < entries.len()
        invariant
            i <= entries@.len(),
            strictly_sorted(views(list@)),
            views(list@).to_set() == views(old(list)@).to_set().union(
                keys(entries@.subrange(0, i as int)).to_set(),
            ),
        decreases entries@.len() - i,
    {
        insert_sorted(list, &entries[i].0);
        assert(keys(entries@.subrange(0, i + 1)).to_set() =~= keys(
            entries@.subrange(0, i as int),
        ).to_set().insert(entries@[i as int].0@)) by {
            assert(keys(entries@.subrange(0, i + 1)) =~= keys(entries@.subrange(0, i as int)).push(
                entries@[i as int].0@,
            ));
            lemma_push_to_set(keys(entries@.subrange(0, i as int)), entries@[i as int].0@);
        }
        i += 1;
    }
    assert(entries@.subrange(0, entries@.len() as int) =~= entries@);
    assert(views(list@).to_set() =~= views(old(list)@).to_set().union(keys(entries@).to_set()));
}

impl Config {
    /// Names are unique: the variables' names, and within each variable the
    /// names of its environments and of its overrides, and within each
    /// override the names of its environments.
    pub open spec fn wf(self) -> bool {
        &&& keys(self.variables@).no_duplicates()
        &&& forall|i: int| 0 <= i < self.variables@.len() ==> {
            let v = #[trigger] self.variables@[i].1;
            &&& keys(v.envs@).no_duplicates()
            &&& keys(v.overrides@).no_duplicates()
            &&& forall|k: int| 0 <= k < v.overrides@.len() ==> keys((#[trigger] v.overrides@[k]).1.envs@).no_duplicates()
        }
    }

    /// Sorted, deduplicated environment names found in every variable's
    /// `envs` and in every override's `envs`.
    pub fn environments(&self) -> (r: Vec<String>)
        ensures
            strictly_sorted(views(r@)),
            views(r@).to_set() == all_env_names(*self),
    {
        let mut set: Vec<String> = Vec::new();
        let mut i: usize = 0;
        while i < self.variables.len()
            invariant
                i <= self.variables@.len(),
                strictly_sorted(views(set@)),
                views(set@).to_set() == Set::new(|e: Seq<char>| exists|j: int| 0 <= j < i && env_names_of(#[trigger] self.variables@[j].1).contains(e)),
            decreases self.variables@.len() - i,
        {
            let var = &self.variables[i].1;
            let ghost before = views(set@).to_set();
            insert_keys(&mut set, &var.envs);
            let mut k: usize = 0;
            while k < var.overrides.len()
                invariant
                    k <= var.overrides@.len(),
                    strictly_sorted(views(set@)),
                    views(set@).to_set() == before.union(keys(var.envs@).to_set()).union(
                        Set::new(|e: Seq<char>| exists|m: int| 0 <= m < k && keys(#[trigger] var.overrides@[m].1.envs@).contains(e)),
                    ),
                decreases var.overrides@.len() - k,
            {
                insert_keys(&mut set, &var.overrides[k].1.envs);
                assert(Set::new(|e: Seq<char>| exists|m: int| 0 <= m < k + 1 && keys(#[trigger] var.overrides@[m].1.envs@).contains(e)) =~= Set::new(|e: Seq<char>| exists|m: int| 0 <= m < k && keys(#[trigger] var.overrides@[m].1.envs@).contains(e)).union(keys(var.overrides@[k as int].1.envs@).to_set()));
                assert(views(set@).to_set() =~= before.union(keys(var.envs@).to_set()).union(
                        Set::new(|e: Seq<char>| exists|m: int| 0 <= m < k + 1 && keys(#[trigger] var.overrides@[m].1.envs@).contains(e))));
                k += 1;
            }
            assert(env_names_of(*var) =~= keys(var.envs@).to_set().union(
                Set::new(|e: Seq<char>| exists|m: int| 0 <= m < var.overrides@.len() && keys(#[trigger] var.overrides@[m].1.envs@).contains(e))));
            assert(views(set@).to_set() =~= Set::new(|e: Seq<char>| exists|j: int| 0 <= j < i + 1 && env_names_of(#[trigger] self.variables@[j].1).contains(e)));
            i += 1;
        }
        assert(views(set@).to_set() =~= all_env_names(*self));
        set
    }

    /// Sorted, deduplicated override names found across all variables.
    pub fn override_names(&self) -> (r: Vec<String>)
        ensures
            strictly_sorted(views(r@)),
            views(r@).to_set() == all_override_names(*self),
    {
        let mut set: Vec<String> = Vec::new();
        let mut i: usize = 0;
        while i < self.variables.len()
            invariant
                i <= self.variables@.len(),
                strictly_sorted(views(set@)),
                views(set@).to_set() == Set::new(|e: Seq<char>| exists|j: int| 0 <= j < i && keys(#[trigger] self.variables@[j].1.overrides@).contains(e)),
            decreases self.variables@.len() - i,
        {
            insert_keys(&mut set, &self.variables[i].1.overrides);
            assert(views(set@).to_set() =~= Set::new(|e: Seq<char>| exists|j: int| 0 <= j < i + 1 && keys(#[trigger] self.variables@[j].1.overrides@).contains(e)));
            i += 1;
        }
        assert(views(set@).to_set() =~= all_override_names(*self));
        set
    }

    /// Sorted, deduplicated tag names found across all variables.
    pub fn tag_names(&self) -> (r: Vec<String>)
        ensures
            strictly_sorted(views(r@)),
            views(r@).to_set() == all_tag_names(*self),
    {
        let mut set: Vec<String> = Vec::new();
        let mut i: usize = 0;
        while i < self.variables.len()
            invariant
                i <= self.variables@.len(),
                strictly_sorted(views(set@)),
                views(set@).to_set() == Set::new(|e: Seq<char>| exists|j: int| 0 <= j < i && views(#[trigger] self.variables@[j].1.tags@).contains(e)),
            decreases self.variables@.len() - i,
        {
            let tags = &self.variables[i].1.tags;
            let ghost before = views(set@).to_set();
            let mut k: usize = 0;
            while k < tags.len()
                invariant
                    k <= tags@.len(),
                    strictly_sorted(views(set@)),
                    views(set@).to_set() == before.union(views(tags@.subrange(0, k as int)).to_set()),
                decreases tags@.len() - k,
            {
                insert_sorted(&mut set, &tags[k]);
                assert(views(tags@.subrange(0, k + 1)) =~= views(tags@.subrange(0, k as int)).push(tags@[k as int]@));
                proof { lemma_push_to_set(views(tags@.subrange(0, k as int)), tags@[k as int]@); }
                assert(views(set@).to_set() =~= before.union(views(tags@.subrange(0, k + 1)).to_set()));
                k += 1;
            }
            assert(tags@.subrange(0, tags@.len() as int) =~= tags@);
            assert(views(set@).to_set() =~= Set::new(|e: Seq<char>| exists|j: int| 0 <= j < i + 1 && views(#[trigger] self.variables@[j].1.tags@).contains(e)));
            i += 1;
        }
        assert(views(set@).to_set() =~= all_tag_names(*self));
        set
    }
}

} // verus!
