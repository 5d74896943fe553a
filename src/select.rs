//! Source selection for one variable: the tag filter, the override
//! cascade and validation.
use vstd::prelude::*;

use crate::config::Config;
use crate::config::kind_of;
use crate::config::same_kind;
use crate::config::Source;
use crate::config::SourceKind;
use crate::config::Variable;
use crate::error::ResolveErrorKind;
use crate::order::str_eq;
use crate::order::views;

verus! {

/// The value of the first entry named `key`.
pub open spec fn lookup<V>(entries: Seq<(String, V)>, key: Seq<char>) -> Option<V>
    decreases entries.len(),
{
    if entries.len() == 0 {
        None
    } else if entries[0].0@ == key {
        Some(entries[0].1)
    } else {
        lookup(entries.drop_first(), key)
    }
}

/// `a` if it holds a value, else `b`.
pub open spec fn first_some<T>(a: Option<T>, b: Option<T>) -> Option<T> {
    if a is Some {
        a
    } else {
        b
    }
}

/// A variable with no tags is always included; a tagged one only when it
/// shares a tag with `active`.
pub open spec fn tags_match(tags: Seq<String>, active: Seq<String>) -> bool {
    tags.len() == 0 || exists|i: int, j: int|
        0 <= i < tags.len() && 0 <= j < active.len() && #[trigger] tags[i]@ == #[trigger] active[j]@
}

/// The active override names that `defs` defines, each once, in the order
/// they were first given.
pub open spec fn matching<V>(defs: Seq<(String, V)>, active: Seq<String>) -> Seq<String>
    decreases active.len(),
{
    if active.len() == 0 {
        Seq::empty()
    } else {
        let rest = matching(defs, active.drop_last());
        if lookup(defs, active.last()@) is Some && !views(rest).contains(active.last()@) {
            rest.push(active.last())
        } else {
            rest
        }
    }
}

/// The source a variable takes for `env` under the matched overrides `m`
/// (at most one): the override's environment entry, then its default, then
/// the variable's environment entry, then its default.
pub open spec fn chosen_source(v: Variable, env: Seq<char>, m: Seq<String>) -> Option<Source> {
    let base = first_some(lookup(v.envs@, env), v.default);
    if m.len() == 1 {
        let o = lookup(v.overrides@, m[0]@)->Some_0;
        first_some(lookup(o.envs@, env), first_some(o.default, base))
    } else {
        base
    }
}

/// `r` is what selecting a source for `v` gives: `Ok(None)` when the variable
/// is left out (by its tags, or by a skip source), `Ok(Some(kind))` when it
/// takes part, and the error otherwise.
#[verifier::opaque]
pub open spec fn selection_is(
    v: Variable,
    env: Seq<char>,
    tags: Seq<String>,
    overrides: Seq<String>,
    r: Result<Option<SourceKind>, ResolveErrorKind>,
) -> bool {
    if !tags_match(v.tags@, tags) {
        r matches Ok(None)
    } else {
        let m = matching(v.overrides@, overrides);
        if m.len() > 1 {
            r matches Err(ResolveErrorKind::ConflictingOverrides { names }) && views(names@) == views(m)
        } else {
            match chosen_source(v, env, m) {
                None => r matches Err(ResolveErrorKind::NoConfig),
                Some(s) => match kind_of(s) {
                    Err(msg) => r matches Err(ResolveErrorKind::InvalidSource { reason }) && reason@ == msg,
                    Ok(SourceKind::Skip) => r matches Ok(None),
                    Ok(k) => r matches Ok(Some(k2)) && same_kind(k, k2),
                },
            }
        }
    }
}

/// Selecting a source for `v` fails.
#[verifier::opaque]
pub open spec fn selection_fails(v: Variable, env: Seq<char>, tags: Seq<String>, overrides: Seq<String>) -> bool {
    tags_match(v.tags@, tags) && {
        let m = matching(v.overrides@, overrides);
        m.len() > 1 || match chosen_source(v, env, m) {
            None => true,
            Some(s) => kind_of(s) is Err,
        }
    }
}

/// The kind that `v` takes part with, if it takes part.
#[verifier::opaque]
pub open spec fn selected(v: Variable, env: Seq<char>, tags: Seq<String>, overrides: Seq<String>) -> Option<SourceKind> {
    if !tags_match(v.tags@, tags) || selection_fails(v, env, tags, overrides) {
        None
    } else {
        match kind_of(chosen_source(v, env, matching(v.overrides@, overrides))->Some_0) {
            Ok(SourceKind::Skip) => None,
            Ok(k) => Some(k),
            Err(_) => None,
        }
    }
}

/// The position of the first entry named `key`.
pub fn find<V>(entries: &Vec<(String, V)>, key: &str) -> (r: Option<usize>)
    ensures
        match r {
            Some(i) => i < entries@.len() && lookup(entries@, key@) == Some(entries@[i as int].1),
            None => lookup(entries@, key@) is None,
        },
{
    let mut i: usize = 0;
    assert(entries@.skip(0) =~= entries@);
    while i < entries.len()
        invariant
            i <= entries@.len(),
            lookup(entries@, key@) == lookup(entries@.skip(i as int), key@),
        decreases entries@.len() - i,
    {
        assert(entries@.skip(i as int)[0] == entries@[i as int]);
        if str_eq(entries[i].0.as_str(), key) {
            return Some(i);
        }
        assert(entries@.skip(i as int).drop_first() =~= entries@.skip(i + 1));
        i += 1;
    }
    None
}

/// Whether the variable's tags let it take part under the active tags.
fn tags_included(v: &Variable, active: &[String]) -> (r: bool)
    ensures
        r == tags_match(v.tags@, active@),
{
    if v.tags.len() == 0 {
        return true;
    }
    let mut i: usize = 0;
    while i < v.tags.len()
        invariant
            i <= v.tags@.len(),
            forall|a: int, b: int| 0 <= a < i && 0 <= b < active@.len() ==> #[trigger] v.tags@[a]@ != #[trigger] active@[b]@,
        decreases v.tags@.len() - i,
    {
        let mut j: usize = 0;
        while j < active.len()
            invariant
                i < v.tags@.len(),
                j <= active@.len(),
                forall|a: int, b: int| 0 <= a < i && 0 <= b < active@.len() ==> #[trigger] v.tags@[a]@ != #[trigger] active@[b]@,
                forall|b: int| 0 <= b < j ==> v.tags@[i as int]@ != #[trigger] active@[b]@,
            decreases active@.len() - j,
        {
            if str_eq(v.tags[i].as_str(), active[j].as_str()) {
                return true;
            }
            j += 1;
        }
        i += 1;
    }
    false
}

/// The active overrides that the variable defines, in the order given.
fn matching_overrides(v: &Variable, active: &[String]) -> (r: Vec<String>)
    ensures
        views(r@) == views(matching(v.overrides@, active@)),
{
    let mut out: Vec<String> = Vec::new();
    let mut i: usize = 0;
    assert(active@.subrange(0, 0) =~= Seq::<String>::empty());
    while i < active.len()
        invariant
            i <= active@.len(),
            views(out@) == views(matching(v.overrides@, active@.subrange(0, i as int))),
        decreases active@.len() - i,
    {
        let ghost prev = active@.subrange(0, i as int);
        assert(active@.subrange(0, i + 1).drop_last() =~= prev);
        assert(active@.subrange(0, i + 1).last() == active@[i as int]);
        let mut seen = false;
        let mut m: usize = 0;
        while m < out.len()
            invariant
                i < active@.len(),
                m <= out@.len(),
                seen == exists|q: int| 0 <= q < m && out@[q]@ == active@[i as int]@,
            decreases out@.len() - m,
        {
            if !seen && str_eq(out[m].as_str(), active[i].as_str()) {
                seen = true;
            }
            m += 1;
        }
        proof {
            if seen {
                let q = choose|q: int| 0 <= q < out@.len() && out@[q]@ == active@[i as int]@;
                assert(views(out@)[q] == active@[i as int]@);
            }
            if views(out@).contains(active@[i as int]@) {
                let q = choose|q: int| 0 <= q < views(out@).len() && views(out@)[q] == active@[i as int]@;
                assert(out@[q]@ == active@[i as int]@);
            }
            assert(views(matching(v.overrides@, prev)).contains(active@[i as int]@) == views(out@).contains(active@[i as int]@));
        }
        if !seen && find(&v.overrides, active[i].as_str()).is_some() {
            out.push(active[i].clone());
            assert(views(out@) =~= views(matching(v.overrides@, prev)).push(active@[i as int]@));
            assert(views(matching(v.overrides@, prev).push(active@[i as int])) =~= views(matching(v.overrides@, prev)).push(active@[i as int]@));
        }
        i += 1;
    }
    assert(active@.subrange(0, active@.len() as int) =~= active@);
    out
}

/// Picks and validates the source of one variable for `env`.
pub fn select_source(v: &Variable, env: &str, tags: &[String], overrides: &[String]) -> (r: Result<Option<SourceKind>, ResolveErrorKind>)
    ensures
        selection_is(*v, env@, tags@, overrides@, r),
        r is Err <==> selection_fails(*v, env@, tags@, overrides@),
        r matches Ok(Some(k)) ==> selected(*v, env@, tags@, overrides@) matches Some(k2) && same_kind(k2, k),
        r matches Ok(None) ==> selected(*v, env@, tags@, overrides@) is None,
        r is Err ==> selected(*v, env@, tags@, overrides@) is None,
{
    reveal(selection_is);
    reveal(selection_fails);
    reveal(selected);
    if !tags_included(v, tags) {
        return Ok(None);
    }
    let m = matching_overrides(v, overrides);
    let ghost ms = matching(v.overrides@, overrides@);
    assert(m@.len() == ms.len()) by {
        assert(views(m@).len() == views(ms).len());
    }
    if m.len() > 1 {
        return Err(ResolveErrorKind::ConflictingOverrides { names: m });
    }
    let base: Option<&Source> = match find(&v.envs, env) {
        Some(i) => Some(&v.envs[i].1),
        None => v.default.as_ref(),
    };
    let chosen: Option<&Source> = if m.len() == 1 {
        assert(views(m@)[0] == views(ms)[0]);
        match find(&v.overrides, m[0].as_str()) {
            Some(oi) => {
                let o = &v.overrides[oi].1;
                match find(&o.envs, env) {
                    Some(i) => Some(&o.envs[i].1),
                    None => match &o.default {
                        Some(d) => Some(d),
                        None => base,
                    },
                }
            },
            None => base,
        }
    } else {
        base
    };
    proof {
        if m@.len() == 1 {
            lemma_matching_defined(v.overrides@, overrides@, 0);
        }
    }
    match chosen {
        None => Err(ResolveErrorKind::NoConfig),
        Some(s) => match s.kind() {
            Err(msg) => Err(ResolveErrorKind::InvalidSource { reason: msg.to_owned() }),
            Ok(SourceKind::Skip) => Ok(None),
            Ok(k) => Ok(Some(k)),
        },
    }
}

/// Every matched name is defined.
proof fn lemma_matching_defined<V>(defs: Seq<(String, V)>, active: Seq<String>, k: int)
    requires
        0 <= k < matching(defs, active).len(),
    ensures
        lookup(defs, matching(defs, active)[k]@) is Some,
    decreases active.len(),
{
    let rest = matching(defs, active.drop_last());
    if k < rest.len() {
        lemma_matching_defined(defs, active.drop_last(), k);
    }
}

/// The active override `o` is defined on some variable of `config` that its
/// tags let in.
pub open spec fn override_defined(config: Config, tags: Seq<String>, o: Seq<char>) -> bool {
    exists|i: int|
        0 <= i < config.variables@.len() && tags_match((#[trigger] config.variables@[i]).1.tags@, tags)
            && lookup(config.variables@[i].1.overrides@, o) is Some
}

/// The active override names, in the order given, that no variable the tags
/// let in defines.
pub fn undefined_overrides(config: &Config, tags: &[String], overrides: &[String]) -> (r: Vec<String>)
    ensures
        views(r@) == views(overrides@).filter(|o: Seq<char>| !override_defined(*config, tags@, o)),
{
    let mut out: Vec<String> = Vec::new();
    let mut k: usize = 0;
    while k < overrides.len()
        invariant
            k <= overrides@.len(),
            views(out@) == views(overrides@.take(k as int)).filter(|o: Seq<char>| !override_defined(*config, tags@, o)),
        decreases overrides@.len() - k,
    {
        let o = &overrides[k];
        let mut defined = false;
        let mut i: usize = 0;
        while i < config.variables.len()
            invariant
                i <= config.variables@.len(),
                k < overrides@.len(),
                o == overrides@[k as int],
                defined == exists|j: int|
                    0 <= j < i && tags_match((#[trigger] config.variables@[j]).1.tags@, tags@)
                        && lookup(config.variables@[j].1.overrides@, o@) is Some,
            decreases config.variables@.len() - i,
        {
            let v = &config.variables[i].1;
            if !defined && tags_included(v, tags) && find(&v.overrides, o.as_str()).is_some() {
                defined = true;
            }
            i += 1;
        }
        let ghost prev = views(overrides@.take(k as int));
        assert(views(overrides@.take(k + 1)) =~= prev.push(o@));
        proof {
            prev.lemma_filter_push(o@, |o: Seq<char>| !override_defined(*config, tags@, o));
        }
        if !defined {
            out.push(o.clone());
            assert(views(out@) =~= views(overrides@.take(k as int)).filter(|o: Seq<char>| !override_defined(*config, tags@, o)).push(o@));
        }
        k += 1;
    }
    assert(overrides@.take(overrides@.len() as int) =~= overrides@);
    out
}

} // verus!
