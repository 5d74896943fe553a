//! The plan of a resolution: the variables that take part, and what each
//! reads.
use vstd::prelude::*;

use crate::config::Config;
use crate::config::same_kind;
use crate::config::SourceKind;
use crate::config::Variable;
use crate::error::ResolveError;
use crate::error::ResolveErrorKind;
use crate::order::insert_sorted;
use crate::order::lemma_lt_irreflexive;
use crate::order::str_eq;
use crate::order::strictly_sorted;
use crate::order::views;
use crate::select::select_source;
use crate::select::selected;
use crate::select::selection_fails;
use crate::select::selection_is;
use crate::template::template_references;
use crate::template::template_refs;

verus! {

/// A variable that takes part in resolution, with the source it takes part
/// with.
pub struct Planned {
    pub name: String,
    pub kind: SourceKind,
    pub description: Option<String>,
}

/// `plan` lists, in order, each variable of `vars` that takes part, with its
/// kind and description.
pub open spec fn plan_agrees(
    vars: Seq<(String, Variable)>,
    env: Seq<char>,
    tags: Seq<String>,
    overrides: Seq<String>,
    plan: Seq<Planned>,
) -> bool
    decreases vars.len(),
{
    if vars.len() == 0 {
        plan.len() == 0
    } else {
        let last = vars.last();
        match selected(last.1, env, tags, overrides) {
            Some(k) => plan.len() > 0 && plan.last().name@ == last.0@ && same_kind(k, plan.last().kind)
                && plan.last().description == last.1.description && plan_agrees(
                vars.drop_last(),
                env,
                tags,
                overrides,
                plan.drop_last(),
            ),
            None => plan_agrees(vars.drop_last(), env, tags, overrides, plan),
        }
    }
}

/// `e` reports the failed selection of a variable of `vars`, with its name
/// and the environment.
pub open spec fn reports_selection(
    vars: Seq<(String, Variable)>,
    env: Seq<char>,
    tags: Seq<String>,
    overrides: Seq<String>,
    e: ResolveError,
) -> bool {
    exists|i: int|
        0 <= i < vars.len() && e.variable@ == (#[trigger] vars[i]).0@ && e.environment@ == env
            && selection_is(vars[i].1, env, tags, overrides, Err(e.kind))
}

/// Every variable of `vars` whose selection fails has an error in `es`.
pub open spec fn reports_every_failure(
    vars: Seq<(String, Variable)>,
    env: Seq<char>,
    tags: Seq<String>,
    overrides: Seq<String>,
    es: Seq<ResolveError>,
) -> bool {
    forall|i: int|
        0 <= i < vars.len() && selection_fails(#[trigger] vars[i].1, env, tags, overrides) ==> exists|k: int|
            0 <= k < es.len() && (#[trigger] es[k]).variable@ == vars[i].0@
}

/// The names of the variables of `vars` whose selection fails, in order.
pub open spec fn failing_names(vars: Seq<(String, Variable)>, env: Seq<char>, tags: Seq<String>, overrides: Seq<String>) -> Seq<Seq<char>>
    decreases vars.len(),
{
    if vars.len() == 0 {
        Seq::empty()
    } else {
        let rest = failing_names(vars.drop_last(), env, tags, overrides);
        if selection_fails(vars.last().1, env, tags, overrides) {
            rest.push(vars.last().0@)
        } else {
            rest
        }
    }
}

/// The variable named by each error, in order.
pub open spec fn error_vars(es: Seq<ResolveError>) -> Seq<Seq<char>> {
    es.map_values(|e: ResolveError| e.variable@)
}

/// A copy of an optional string.
pub(crate) fn clone_opt(o: &Option<String>) -> (r: Option<String>)
    ensures
        r == *o,
{
    match o {
        Some(s) => Some(s.clone()),
        None => None,
    }
}

/// Runs selection on every variable: the variables that take part, or every
/// selection error.
pub fn collect_sources(config: &Config, env: &str, tags: &[String], overrides: &[String]) -> (r: Result<Vec<Planned>, Vec<ResolveError>>)
    ensures
        r is Ok <==> forall|i: int| 0 <= i < config.variables@.len() ==> !selection_fails(#[trigger] config.variables@[i].1, env@, tags@, overrides@),
        r matches Ok(p) ==> plan_agrees(config.variables@, env@, tags@, overrides@, p@),
        r matches Err(es) ==> es@.len() > 0 && forall|k: int| 0 <= k < es@.len() ==> reports_selection(config.variables@, env@, tags@, overrides@, #[trigger] es@[k]),
        r matches Err(es) ==> reports_every_failure(config.variables@, env@, tags@, overrides@, es@),
        r matches Err(es) ==> error_vars(es@) == failing_names(config.variables@, env@, tags@, overrides@),
{
    let vars = &config.variables;
    let mut plan: Vec<Planned> = Vec::new();
    let mut errors: Vec<ResolveError> = Vec::new();
    let mut i: usize = 0;
    while i < vars.len()
        invariant
            i <= vars@.len(),
            vars == config.variables,
            plan_agrees(vars@.subrange(0, i as int), env@, tags@, overrides@, plan@),
            error_vars(errors@) == failing_names(vars@.subrange(0, i as int), env@, tags@, overrides@),
            errors@.len() == 0 <==> forall|a: int| 0 <= a < i ==> !selection_fails(#[trigger] vars@[a].1, env@, tags@, overrides@),
            forall|k: int| 0 <= k < errors@.len() ==> reports_selection(vars@, env@, tags@, overrides@, #[trigger] errors@[k]),
            forall|a: int| 0 <= a < i && selection_fails(#[trigger] vars@[a].1, env@, tags@, overrides@)
                ==> exists|k: int| 0 <= k < errors@.len() && (#[trigger] errors@[k]).variable@ == vars@[a].0@,
        decreases vars@.len() - i,
    {
        let ghost sub = vars@.subrange(0, i + 1);
        assert(sub.drop_last() =~= vars@.subrange(0, i as int));
        assert(sub.last() == vars@[i as int]);
        let (name, var) = (&vars[i].0, &vars[i].1);
        match select_source(var, env, tags, overrides) {
            Ok(Some(kind)) => {
                let ghost old_plan = plan@;
                plan.push(Planned { name: name.clone(), kind, description: clone_opt(&var.description) });
                assert(plan@.drop_last() =~= old_plan);
            },
            Ok(None) => {},
            Err(kind) => {
                let ghost old_errors = errors@;
                let e = ResolveError { variable: name.clone(), environment: env.to_owned(), kind };
                assert(reports_selection(vars@, env@, tags@, overrides@, e));
                errors.push(e);
                assert(error_vars(errors@) =~= error_vars(old_errors).push(name@));
                assert forall|a: int| 0 <= a < i + 1 && selection_fails(#[trigger] vars@[a].1, env@, tags@, overrides@)
                    implies exists|k: int| 0 <= k < errors@.len() && (#[trigger] errors@[k]).variable@ == vars@[a].0@ by {
                    if a < i {
                        let k = choose|k: int| 0 <= k < old_errors.len() && (#[trigger] old_errors[k]).variable@ == vars@[a].0@;
                        assert(errors@[k] == old_errors[k]);
                    } else {
                        assert(errors@[old_errors.len() as int].variable@ == vars@[a].0@);
                    }
                }
            },
        }
        i += 1;
    }
    assert(vars@.subrange(0, vars@.len() as int) =~= vars@);
    assert(reports_every_failure(config.variables@, env@, tags@, overrides@, errors@));
    if errors.len() > 0 {
        Err(errors)
    } else {
        Ok(plan)
    }
}

/// The names a source reads: a template's references; none for other kinds.
pub open spec fn refs_of(k: SourceKind) -> Result<Set<Seq<char>>, Seq<char>> {
    match k {
        SourceKind::Template(t) => template_refs(t@),
        _ => Ok(Set::empty()),
    }
}

/// A source of kind `k` reads the name `r`.
pub open spec fn reads(k: SourceKind, r: Seq<char>) -> bool {
    refs_of(k) matches Ok(s) && s.contains(r)
}

/// The names of the planned variables.
pub open spec fn plan_names(plan: Seq<Planned>) -> Seq<Seq<char>> {
    plan.map_values(|p: Planned| p.name@)
}

/// Every planned template parses, and every name it reads is planned.
pub open spec fn graph_sound(plan: Seq<Planned>) -> bool {
    forall|i: int|
        0 <= i < plan.len() ==> (refs_of(#[trigger] plan[i].kind) matches Ok(s) && forall|r: Seq<char>|
            s.contains(r) ==> plan_names(plan).contains(r))
}

/// `deps[i]` holds planned variables that `plan[i]` reads, one for each name
/// it reads.
pub open spec fn deps_agree(plan: Seq<Planned>, deps: Seq<Vec<usize>>) -> bool {
    &&& deps.len() == plan.len()
    &&& forall|i: int, k: int| 0 <= i < plan.len() && 0 <= k < deps[i]@.len() ==> {
        &&& #[trigger] deps[i]@[k] < plan.len()
        &&& reads(plan[i].kind, plan[deps[i]@[k] as int].name@)
    }
    &&& forall|i: int, r: Seq<char>| 0 <= i < plan.len() && #[trigger] reads(plan[i].kind, r)
        ==> exists|k: int| 0 <= k < deps[i]@.len() && plan[#[trigger] deps[i]@[k] as int].name@ == r
}

/// `e` reports a template of the plan that does not parse, or that reads a
/// name that is not planned.
pub open spec fn reports_graph(plan: Seq<Planned>, env: Seq<char>, e: ResolveError) -> bool {
    exists|i: int|
        0 <= i < plan.len() && e.variable@ == (#[trigger] plan[i]).name@ && e.environment@ == env && match refs_of(plan[i].kind) {
            Err(m) => e.kind matches ResolveErrorKind::TemplateRender { reason } && reason@ == m,
            Ok(s) => e.kind matches ResolveErrorKind::UnknownReference { name } && s.contains(name@) && !plan_names(plan).contains(name@),
        }
}

/// `e` is the error of the variable named `var` for reading `r`, which is not
/// planned.
pub open spec fn is_unknown_ref(e: ResolveError, var: Seq<char>, r: Seq<char>) -> bool {
    &&& e.variable@ == var
    &&& e.kind matches ResolveErrorKind::UnknownReference { name } && name@ == r
}

/// `e` is the error of the variable named `var` for a template that does not
/// parse.
pub open spec fn is_parse_error(e: ResolveError, var: Seq<char>) -> bool {
    e.variable@ == var && e.kind is TemplateRender
}

/// Among the first `upto` planned variables, every template that does not
/// parse, and every name read that is not planned, has its error in `es`.
pub open spec fn reports_every_fault(plan: Seq<Planned>, es: Seq<ResolveError>, upto: int) -> bool {
    &&& forall|i: int| 0 <= i < upto && refs_of(#[trigger] plan[i].kind) is Err ==> exists|k: int|
        0 <= k < es.len() && is_parse_error(#[trigger] es[k], plan[i].name@)
    &&& forall|i: int, r: Seq<char>| 0 <= i < upto && #[trigger] reads(plan[i].kind, r) && !plan_names(plan).contains(r) ==> exists|k: int|
        0 <= k < es.len() && #[trigger] is_unknown_ref(es[k], plan[i].name@, r)
}

/// Two errors report the same fault: the same variable's template fails to
/// parse, or the same variable reads the same unplanned name.
pub open spec fn same_fault(a: ResolveError, b: ResolveError) -> bool {
    &&& a.variable@ == b.variable@
    &&& (a.kind is TemplateRender && b.kind is TemplateRender) || (a.kind matches ResolveErrorKind::UnknownReference { name: x }
        && b.kind matches ResolveErrorKind::UnknownReference { name: y } && x@ == y@)
}

/// No fault is reported twice.
pub open spec fn each_fault_once(es: Seq<ResolveError>) -> bool {
    forall|p: int, q: int| 0 <= p < q < es.len() ==> !same_fault(#[trigger] es[p], #[trigger] es[q])
}

/// An error for a variable after those of the earlier errors reports a new
/// fault.
proof fn lemma_push_new_variable(plan: Seq<Planned>, es: Seq<ResolveError>, e: ResolveError, i: int)
    requires
        0 <= i < plan.len(),
        e.variable@ == plan[i].name@,
        forall|q: int| 0 <= q < es.len() ==> exists|a: int| 0 <= a < i && (#[trigger] es[q]).variable@ == plan[a].name@,
        plan_names(plan).no_duplicates() ==> each_fault_once(es),
    ensures
        forall|q: int| 0 <= q < es.push(e).len() ==> exists|a: int| 0 <= a < i + 1 && (#[trigger] es.push(e)[q]).variable@ == plan[a].name@,
        plan_names(plan).no_duplicates() ==> each_fault_once(es.push(e)),
{
    let es2 = es.push(e);
    assert forall|q: int| 0 <= q < es2.len() implies exists|a: int| 0 <= a < i + 1 && (#[trigger] es2[q]).variable@ == plan[a].name@ by {
        if q < es.len() {
            assert(es2[q] == es[q]);
            let a = choose|a: int| 0 <= a < i && (#[trigger] es[q]).variable@ == plan[a].name@;
        } else {
            assert(es2[q] == e);
        }
    }
    if plan_names(plan).no_duplicates() {
        assert forall|p: int, q: int| 0 <= p < q < es2.len() implies !same_fault(#[trigger] es2[p], #[trigger] es2[q]) by {
            assert(es2[p] == es[p]);
            if q == es.len() {
                let a = choose|a: int| 0 <= a < i && (#[trigger] es[p]).variable@ == plan[a].name@;
                assert(plan_names(plan)[a] != plan_names(plan)[i]);
            } else {
                assert(es2[q] == es[q]);
            }
        }
    }
}

/// Adding an error keeps every report.
proof fn lemma_fault_reports_grow(plan: Seq<Planned>, es: Seq<ResolveError>, e: ResolveError, upto: int)
    requires
        reports_every_fault(plan, es, upto),
    ensures
        reports_every_fault(plan, es.push(e), upto),
{
    let es2 = es.push(e);
    assert forall|i: int| 0 <= i < upto && refs_of(#[trigger] plan[i].kind) is Err implies exists|k: int|
        0 <= k < es2.len() && is_parse_error(#[trigger] es2[k], plan[i].name@) by {
        let k = choose|k: int| 0 <= k < es.len() && is_parse_error(#[trigger] es[k], plan[i].name@);
        assert(es2[k] == es[k]);
    }
    assert forall|i: int, r: Seq<char>| 0 <= i < upto && #[trigger] reads(plan[i].kind, r) && !plan_names(plan).contains(r) implies exists|k: int|
        0 <= k < es2.len() && #[trigger] is_unknown_ref(es2[k], plan[i].name@, r) by {
        let k = choose|k: int| 0 <= k < es.len() && #[trigger] is_unknown_ref(es[k], plan[i].name@, r);
        assert(es2[k] == es[k]);
    }
}

/// The position of the planned variable named `name`.
fn find_planned(plan: &Vec<Planned>, name: &str) -> (r: Option<usize>)
    ensures
        match r {
            Some(j) => j < plan@.len() && plan@[j as int].name@ == name@,
            None => !plan_names(plan@).contains(name@),
        },
{
    let mut j: usize = 0;
    while j < plan.len()
        invariant
            j <= plan@.len(),
            forall|m: int| 0 <= m < j ==> (#[trigger] plan@[m]).name@ != name@,
        decreases plan@.len() - j,
    {
        if str_eq(plan[j].name.as_str(), name) {
            return Some(j);
        }
        j += 1;
    }
    proof {
        if plan_names(plan@).contains(name@) {
            let m = choose|m: int| 0 <= m < plan@.len() && plan_names(plan@)[m] == name@;
            assert(plan@[m].name@ == name@);
        }
    }
    None
}

/// The strings of `v`, sorted.
fn sorted_strings(v: &Vec<String>) -> (r: Vec<String>)
    ensures
        views(r@).to_set() == views(v@).to_set(),
        strictly_sorted(views(r@)),
{
    let mut out: Vec<String> = Vec::new();
    let mut i: usize = 0;
    assert(views(out@).to_set() =~= views(v@.subrange(0, 0)).to_set());
    while i < v.len()
        invariant
            i <= v@.len(),
            strictly_sorted(views(out@)),
            views(out@).to_set() == views(v@.subrange(0, i as int)).to_set(),
        decreases v@.len() - i,
    {
        insert_sorted(&mut out, &v[i]);
        assert(views(v@.subrange(0, i + 1)) =~= views(v@.subrange(0, i as int)).push(v@[i as int]@));
        proof { crate::order::lemma_push_to_set(views(v@.subrange(0, i as int)), v@[i as int]@); }
        i += 1;
    }
    assert(v@.subrange(0, v@.len() as int) =~= v@);
    out
}

/// Builds the dependency lists of the plan from its templates, or gives every
/// template that does not parse and every reference to a name that is not
/// planned.
pub fn build_graph(plan: &Vec<Planned>, env: &str) -> (r: Result<Vec<Vec<usize>>, Vec<ResolveError>>)
    ensures
        r is Ok <==> graph_sound(plan@),
        r matches Ok(deps) ==> deps_agree(plan@, deps@),
        r matches Err(es) ==> es@.len() > 0 && forall|k: int| 0 <= k < es@.len() ==> reports_graph(plan@, env@, #[trigger] es@[k]),
        r matches Err(es) ==> reports_every_fault(plan@, es@, plan@.len() as int),
        plan_names(plan@).no_duplicates() ==> (r matches Err(es) ==> each_fault_once(es@)),
{
    let n = plan.len();
    let mut deps: Vec<Vec<usize>> = Vec::new();
    let mut errors: Vec<ResolveError> = Vec::new();
    let mut i: usize = 0;
    while i < n
        invariant
            n == plan@.len(),
            i <= n,
            deps@.len() == i,
            errors@.len() == 0 <==> forall|a: int| 0 <= a < i ==> (refs_of(#[trigger] plan@[a].kind) matches Ok(s) && forall|r: Seq<char>|
                s.contains(r) ==> plan_names(plan@).contains(r)),
            forall|k: int| 0 <= k < errors@.len() ==> reports_graph(plan@, env@, #[trigger] errors@[k]),
            reports_every_fault(plan@, errors@, i as int),
            forall|q: int| 0 <= q < errors@.len() ==> exists|a: int| 0 <= a < i && (#[trigger] errors@[q]).variable@ == plan@[a].name@,
            plan_names(plan@).no_duplicates() ==> each_fault_once(errors@),
            forall|a: int, k: int| 0 <= a < i && 0 <= k < deps@[a]@.len() ==> {
                &&& #[trigger] deps@[a]@[k] < n
                &&& reads(plan@[a].kind, plan@[deps@[a]@[k] as int].name@)
            },
            forall|a: int, r: Seq<char>| 0 <= a < i && #[trigger] reads(plan@[a].kind, r) && plan_names(plan@).contains(r)
                ==> exists|k: int| 0 <= k < deps@[a]@.len() && plan@[#[trigger] deps@[a]@[k] as int].name@ == r,
        decreases n - i,
    {
        let mut d: Vec<usize> = Vec::new();
        let ghost old_errors_len = errors@.len();
        match &plan[i].kind {
            SourceKind::Template(t) => match template_references(t.as_str()) {
                Err(m) => {
                    let e = ResolveError { variable: plan[i].name.clone(), environment: env.to_owned(), kind: ResolveErrorKind::TemplateRender { reason: m } };
                    assert(reports_graph(plan@, env@, e));
                    proof { lemma_fault_reports_grow(plan@, errors@, e, i as int); }
                    let ghost before = errors@;
                    errors.push(e);
                    assert(is_parse_error(errors@[errors@.len() - 1], plan@[i as int].name@));
                    proof {
                        lemma_push_new_variable(plan@, before, e, i as int);
                    }
                    assert(reports_every_fault(plan@, errors@, i + 1));
                },
                Ok(refs) => {
                    let sorted = sorted_strings(&refs);
                    let ghost set = views(refs@).to_set();
                    let mut k: usize = 0;
                    while k < sorted.len()
                        invariant
                            n == plan@.len(),
                            i < n,
                            k <= sorted@.len(),
                            refs_of(plan@[i as int].kind) == Ok::<Set<Seq<char>>, Seq<char>>(set),
                            views(sorted@).to_set() == set,
                            errors@.len() >= old_errors_len,
                            forall|k2: int| 0 <= k2 < errors@.len() ==> reports_graph(plan@, env@, #[trigger] errors@[k2]),
                            reports_every_fault(plan@, errors@, i as int),
                            strictly_sorted(views(sorted@)),
                            old_errors_len <= errors@.len(),
                            forall|q: int| 0 <= q < old_errors_len ==> exists|a: int| 0 <= a < i && (#[trigger] errors@[q]).variable@ == plan@[a].name@,
                            forall|q: int| old_errors_len <= q < errors@.len() ==> (#[trigger] errors@[q]).variable@ == plan@[i as int].name@
                                && exists|m: int| 0 <= m < k && is_unknown_ref(errors@[q], plan@[i as int].name@, views(sorted@)[m]),
                            plan_names(plan@).no_duplicates() ==> each_fault_once(errors@),
                            forall|m: int| 0 <= m < k && !plan_names(plan@).contains(#[trigger] views(sorted@)[m]) ==> exists|q: int|
                                0 <= q < errors@.len() && is_unknown_ref(errors@[q], plan@[i as int].name@, views(sorted@)[m]),
                            errors@.len() == old_errors_len <==> forall|m: int| 0 <= m < k ==> plan_names(plan@).contains(#[trigger] views(sorted@)[m]),
                            forall|m: int| 0 <= m < d@.len() ==> #[trigger] d@[m] < n && set.contains(plan@[d@[m] as int].name@),
                            forall|m: int| 0 <= m < k && plan_names(plan@).contains(#[trigger] views(sorted@)[m]) ==> exists|q: int| 0 <= q < d@.len() && plan@[#[trigger] d@[q] as int].name@ == views(sorted@)[m],
                        decreases sorted@.len() - k,
                    {
                        assert(views(sorted@)[k as int] == sorted@[k as int]@);
                        assert(set.contains(sorted@[k as int]@));
                        match find_planned(plan, sorted[k].as_str()) {
                            Some(j) => {
                                assert(plan_names(plan@)[j as int] == views(sorted@)[k as int]);
                                let ghost old_d = d@;
                                d.push(j);
                                assert forall|m: int| 0 <= m < k + 1 && plan_names(plan@).contains(#[trigger] views(sorted@)[m]) implies exists|q: int| 0 <= q < d@.len() && plan@[#[trigger] d@[q] as int].name@ == views(sorted@)[m] by {
                                    if m < k {
                                        let q = choose|q: int| 0 <= q < old_d.len() && plan@[#[trigger] old_d[q] as int].name@ == views(sorted@)[m];
                                        assert(d@[q] == old_d[q]);
                                    } else {
                                        assert(d@[old_d.len() as int] == j);
                                    }
                                }
                            },
                            None => {
                                let e = ResolveError { variable: plan[i].name.clone(), environment: env.to_owned(), kind: ResolveErrorKind::UnknownReference { name: sorted[k].clone() } };
                                assert(reports_graph(plan@, env@, e));
                                let ghost old_errors = errors@;
                                proof { lemma_fault_reports_grow(plan@, errors@, e, i as int); }
                                errors.push(e);
                                proof {
                                    assert forall|q: int| old_errors_len <= q < errors@.len() implies (#[trigger] errors@[q]).variable@ == plan@[i as int].name@
                                        && exists|m: int| 0 <= m < k + 1 && is_unknown_ref(errors@[q], plan@[i as int].name@, views(sorted@)[m]) by {
                                        if q < old_errors.len() {
                                            assert(errors@[q] == old_errors[q]);
                                            let m = choose|m: int| 0 <= m < k && is_unknown_ref(old_errors[q], plan@[i as int].name@, views(sorted@)[m]);
                                        } else {
                                            assert(is_unknown_ref(errors@[q], plan@[i as int].name@, views(sorted@)[k as int]));
                                        }
                                    }
                                    assert forall|q: int| 0 <= q < old_errors_len implies exists|a: int| 0 <= a < i && (#[trigger] errors@[q]).variable@ == plan@[a].name@ by {
                                        assert(errors@[q] == old_errors[q]);
                                    }
                                    if plan_names(plan@).no_duplicates() {
                                        assert forall|p: int, q: int| 0 <= p < q < errors@.len() implies !same_fault(#[trigger] errors@[p], #[trigger] errors@[q]) by {
                                            if q == old_errors.len() {
                                                assert(errors@[p] == old_errors[p]);
                                                if p < old_errors_len {
                                                    let a = choose|a: int| 0 <= a < i && (#[trigger] old_errors[p]).variable@ == plan@[a].name@;
                                                    assert(plan_names(plan@)[a] != plan_names(plan@)[i as int]);
                                                } else {
                                                    let m = choose|m: int| 0 <= m < k && is_unknown_ref(old_errors[p], plan@[i as int].name@, views(sorted@)[m]);
                                                    assert(crate::order::seq_lt(views(sorted@)[m], views(sorted@)[k as int]));
                                                    lemma_lt_irreflexive(views(sorted@)[k as int]);
                                                }
                                            } else {
                                                assert(errors@[p] == old_errors[p]);
                                                assert(errors@[q] == old_errors[q]);
                                            }
                                        }
                                    }
                                }
                                assert(is_unknown_ref(errors@[old_errors.len() as int], plan@[i as int].name@, views(sorted@)[k as int]));
                                assert forall|m: int| 0 <= m < k + 1 && !plan_names(plan@).contains(#[trigger] views(sorted@)[m]) implies exists|q: int|
                                    0 <= q < errors@.len() && is_unknown_ref(errors@[q], plan@[i as int].name@, views(sorted@)[m]) by {
                                    if m < k {
                                        let q = choose|q: int| 0 <= q < old_errors.len() && is_unknown_ref(old_errors[q], plan@[i as int].name@, views(sorted@)[m]);
                                        assert(errors@[q] == old_errors[q]);
                                    } else {
                                        assert(is_unknown_ref(errors@[old_errors.len() as int], plan@[i as int].name@, views(sorted@)[m]));
                                    }
                                }
                                assert(!plan_names(plan@).contains(views(sorted@)[k as int]));
                            },
                        }
                        k += 1;
                    }
                    proof {
                        assert forall|q: int| 0 <= q < errors@.len() implies exists|a: int| 0 <= a < i + 1 && (#[trigger] errors@[q]).variable@ == plan@[a].name@ by {
                            if q >= old_errors_len {
                                assert(errors@[q].variable@ == plan@[i as int].name@);
                            } else {
                                let a = choose|a: int| 0 <= a < i && (#[trigger] errors@[q]).variable@ == plan@[a].name@;
                            }
                        }
                        assert forall|r: Seq<char>| set.contains(r) && plan_names(plan@).contains(r) implies exists|q: int| 0 <= q < d@.len() && plan@[#[trigger] d@[q] as int].name@ == r by {
                            assert(views(sorted@).to_set().contains(r));
                            let m = choose|m: int| 0 <= m < views(sorted@).len() && views(sorted@)[m] == r;
                        }
                        assert forall|a: int, r: Seq<char>| 0 <= a < i + 1 && #[trigger] reads(plan@[a].kind, r) && !plan_names(plan@).contains(r) implies exists|q: int|
                            0 <= q < errors@.len() && #[trigger] is_unknown_ref(errors@[q], plan@[a].name@, r) by {
                            if a == i {
                                assert(views(sorted@).to_set().contains(r));
                                let m = choose|m: int| 0 <= m < views(sorted@).len() && views(sorted@)[m] == r;
                                let q = choose|q: int| 0 <= q < errors@.len() && is_unknown_ref(errors@[q], plan@[i as int].name@, views(sorted@)[m]);
                                assert(is_unknown_ref(errors@[q], plan@[a].name@, r));
                            }
                        }
                        assert(reports_every_fault(plan@, errors@, i + 1));
                        if errors@.len() == old_errors_len {
                            assert forall|r: Seq<char>| set.contains(r) implies plan_names(plan@).contains(r) by {
                                assert(views(sorted@).to_set().contains(r));
                                let m = choose|m: int| 0 <= m < views(sorted@).len() && views(sorted@)[m] == r;
                            }
                        } else {
                            let m = choose|m: int| 0 <= m < k && !plan_names(plan@).contains(#[trigger] views(sorted@)[m]);
                            assert(set.contains(views(sorted@)[m]));
                        }
                    }
                },
            },
            _ => {
                assert(reports_every_fault(plan@, errors@, i + 1)) by {
                    assert(refs_of(plan@[i as int].kind) == Ok::<Set<Seq<char>>, Seq<char>>(Set::empty()));
                }
            },
        }
        let ghost old_deps = deps@;
        deps.push(d);
        proof {
            assert(deps@[i as int] == d);
            assert forall|a: int, k: int| 0 <= a < i + 1 && 0 <= k < deps@[a]@.len() implies {
                &&& #[trigger] deps@[a]@[k] < n
                &&& reads(plan@[a].kind, plan@[deps@[a]@[k] as int].name@)
            } by {
                if a < i {
                    assert(deps@[a] == old_deps[a]);
                }
            }
            assert forall|a: int, r: Seq<char>| 0 <= a < i + 1 && #[trigger] reads(plan@[a].kind, r) && plan_names(plan@).contains(r)
                implies exists|k: int| 0 <= k < deps@[a]@.len() && plan@[#[trigger] deps@[a]@[k] as int].name@ == r by {
                if a < i {
                    assert(deps@[a] == old_deps[a]);
                    let k = choose|k: int| 0 <= k < old_deps[a]@.len() && plan@[#[trigger] old_deps[a]@[k] as int].name@ == r;
                    assert(deps@[a]@[k] == old_deps[a]@[k]);
                }
            }
        }
        i += 1;
    }
    if errors.len() > 0 {
        Err(errors)
    } else {
        proof {
            assert forall|a: int, r: Seq<char>| 0 <= a < n && #[trigger] reads(plan@[a].kind, r)
                implies exists|k: int| 0 <= k < deps@[a]@.len() && plan@[#[trigger] deps@[a]@[k] as int].name@ == r by {
                assert(refs_of(plan@[a].kind) matches Ok(s) && forall|r2: Seq<char>| s.contains(r2) ==> plan_names(plan@).contains(r2));
            }
        }
        Ok(deps)
    }
}

/// No planned variable has a skip source.
pub(crate) proof fn lemma_plan_has_no_skip(
    vars: Seq<(String, Variable)>,
    env: Seq<char>,
    tags: Seq<String>,
    overrides: Seq<String>,
    plan: Seq<Planned>,
)
    requires
        plan_agrees(vars, env, tags, overrides, plan),
    ensures
        forall|i: int| 0 <= i < plan.len() ==> !(#[trigger] plan[i].kind is Skip),
    decreases vars.len(),
{
    reveal(selected);
    if vars.len() > 0 {
        match selected(vars.last().1, env, tags, overrides) {
            Some(k) => {
                lemma_plan_has_no_skip(vars.drop_last(), env, tags, overrides, plan.drop_last());
                assert forall|i: int| 0 <= i < plan.len() implies !(#[trigger] plan[i].kind is Skip) by {
                    if i < plan.len() - 1 {
                        assert(plan[i] == plan.drop_last()[i]);
                    }
                }
            },
            None => lemma_plan_has_no_skip(vars.drop_last(), env, tags, overrides, plan),
        }
    }
}

} // verus!
