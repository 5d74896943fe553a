//! Resolution of a whole configuration: ordering the plan, then evaluating
//! it, handing out commands to run.
use vstd::prelude::*;

use crate::config::clone_strings;
use crate::config::Config;
use crate::config::keys;
use crate::config::same_kind;
use crate::config::SourceKind;
use crate::config::Variable;
use crate::error::ResolveError;
use crate::error::ResolveErrorKind;
use crate::graph::covers_cycles;
use crate::graph::disjoint_chains;
use crate::graph::is_cycle;
use crate::graph::is_simple_cycle;
use crate::graph::is_topological;
use crate::graph::least_first;
use crate::graph::order_nodes;
use crate::graph::ready;
use crate::order::lemma_lt_total;
use crate::order::seq_lt;
use crate::order::views;
use crate::plan::build_graph;
use crate::plan::clone_opt;
use crate::plan::collect_sources;
use crate::plan::deps_agree;
use crate::plan::each_fault_once;
use crate::plan::error_vars;
use crate::plan::failing_names;
use crate::plan::graph_sound;
use crate::plan::lemma_plan_has_no_skip;
use crate::plan::plan_agrees;
use crate::plan::plan_names;
use crate::plan::Planned;
use crate::plan::reads;
use crate::plan::refs_of;
use crate::plan::reports_every_failure;
use crate::plan::reports_every_fault;
use crate::plan::reports_graph;
use crate::plan::reports_selection;
use crate::select::lookup;
use crate::select::matching;
use crate::select::selected;
use crate::select::selection_fails;
use crate::select::selection_is;
use crate::select::tags_match;
use crate::template::context_of;
use crate::template::render_template;
use crate::template::rendered;
use crate::template::trim;
use crate::template::trim_end;
use crate::template::trim_end_of;
use crate::template::trim_of;

verus! {

/// A successfully resolved variable.
pub struct Resolved {
    pub name: String,
    pub value: String,
    pub description: Option<String>,
}

/// What came of running a command.
pub enum CommandOutcome {
    /// The process could not be started.
    SpawnFailed { reason: String },
    /// The process ran to its end; `exit_code` is `None` when a signal ended it.
    Exited { success: bool, exit_code: Option<i32>, stdout: String, stderr: String },
}

/// What resolution needs next.
pub enum Step {
    /// Run this program with these arguments, then hand the outcome to
    /// `complete`.
    Run(Vec<String>),
    /// Evaluation failed; nothing is resolved.
    Failed(ResolveError),
    /// Every variable is resolved; sorted by name.
    Finished(Vec<Resolved>),
}

/// The program and arguments that a command or shell source runs.
pub open spec fn command_of(k: SourceKind) -> Seq<Seq<char>> {
    match k {
        SourceKind::Cmd(v) => views(v@),
        SourceKind::Sh(s) => seq!["sh"@, "-c"@, s@],
        _ => Seq::empty(),
    }
}

/// `v` is the value of a literal or template source of kind `k`, with the
/// variables resolved before it in `ctx`. Command output is not constrained.
pub open spec fn value_ok(k: SourceKind, ctx: Map<Seq<char>, Seq<char>>, v: Seq<char>) -> bool {
    match k {
        SourceKind::Literal(s) => v == s@,
        SourceKind::Template(t) => rendered(t@, ctx) == Ok::<Seq<char>, Seq<char>>(v),
        _ => true,
    }
}

/// Selecting a source succeeds for every variable of the configuration.
pub open spec fn selection_all_ok(config: Config, env: Seq<char>, tags: Seq<String>, overrides: Seq<String>) -> bool {
    forall|i: int| 0 <= i < config.variables@.len() ==> !selection_fails(#[trigger] config.variables@[i].1, env, tags, overrides)
}

/// `chain` names a cycle of the plan: it ends where it starts, and each name
/// belongs to a variable that reads the next.
pub open spec fn is_name_cycle(plan: Seq<Planned>, chain: Seq<Seq<char>>) -> bool {
    &&& chain.len() >= 2
    &&& chain[0] == chain[chain.len() - 1]
    &&& forall|m: int| 0 <= m < chain.len() - 1 ==> exists|i: int| 0 <= i < plan.len() && plan[i].name@ == #[trigger] chain[m] && reads(plan[i].kind, chain[m + 1])
}

/// `e` reports a cycle of the plan, attributed to the cycle's first name.
pub open spec fn reports_cycle(plan: Seq<Planned>, env: Seq<char>, e: ResolveError) -> bool {
    &&& e.environment@ == env
    &&& e.kind matches ResolveErrorKind::CircularDependency { chain } && is_name_cycle(plan, views(chain@))
        && e.variable@ == chain@[0]@
}

/// `e` reports that the command of `var` could not start, for `reason`.
pub open spec fn is_cmd_failed(e: ResolveError, var: Planned, env: Seq<char>, reason: Seq<char>) -> bool {
    &&& e.variable@ == var.name@
    &&& e.environment@ == env
    &&& e.kind matches ResolveErrorKind::CmdFailed { command, reason: why } && views(command@) == command_of(var.kind) && why@ == reason
}

/// `e` reports that the command of `var` exited unsuccessfully.
pub open spec fn is_cmd_nonzero(e: ResolveError, var: Planned, env: Seq<char>, code: Option<i32>, stderr: Seq<char>) -> bool {
    &&& e.variable@ == var.name@
    &&& e.environment@ == env
    &&& e.kind matches ResolveErrorKind::CmdNonZero { command, exit_code, stderr: err } && views(command@) == command_of(var.kind)
        && exit_code == code && err@ == stderr
}

/// Each variable of `order` comes after a variable of each name it reads.
pub open spec fn reads_before(plan: Seq<Planned>, order: Seq<usize>) -> bool {
    forall|p: int, r: Seq<char>|
        0 <= p < order.len() && #[trigger] reads(plan[order[p] as int].kind, r) ==> exists|q: int|
            0 <= q < p && plan[#[trigger] order[q] as int].name@ == r
}

/// `e` reports a cycle through the names `names`.
pub open spec fn chain_is(e: ResolveError, names: Seq<Seq<char>>) -> bool {
    e.kind matches ResolveErrorKind::CircularDependency { chain } && views(chain@) == names
}

/// The names of the planned variables at the positions of `c`.
pub open spec fn names_along(plan: Seq<Planned>, c: Seq<usize>) -> Seq<Seq<char>> {
    c.map_values(|i: usize| plan[i as int].name@)
}

/// `es` reports, one error each, chains of the plan's reference graph that
/// pass their variables once, share no variable, and between them meet
/// every cycle of the graph.
pub open spec fn reports_all_cycles(plan: Seq<Planned>, es: Seq<ResolveError>) -> bool {
    exists|deps: Seq<Vec<usize>>, cycles: Seq<Vec<usize>>| {
        &&& deps_agree(plan, deps)
        &&& cycles.len() == es.len()
        &&& forall|c: int| 0 <= c < cycles.len() ==> is_simple_cycle(plan.len(), deps, #[trigger] cycles[c]@)
        &&& disjoint_chains(cycles)
        &&& covers_cycles(plan.len(), deps, cycles)
        &&& forall|k: int| 0 <= k < es.len() ==> chain_is(#[trigger] es[k], names_along(plan, cycles[k]@))
    }
}

/// Resolution of one configuration for one environment, in progress.
pub struct Resolution {
    pub environment: String,
    /// The variables that take part, in the configuration's order.
    pub plan: Vec<Planned>,
    /// Positions in `plan`, in evaluation order.
    pub order: Vec<usize>,
    /// The names and values resolved so far, in evaluation order.
    pub resolved: Vec<(String, String)>,
}

impl Resolution {
    /// The order and the values so far are consistent with the plan: every
    /// variable comes after the variables it reads, and every literal or
    /// template value is what its source gives.
    pub open spec fn wf(self) -> bool {
        &&& self.order@.len() == self.plan@.len()
        &&& self.order@.no_duplicates()
        &&& forall|p: int| 0 <= p < self.order@.len() ==> #[trigger] self.order@[p] < self.plan@.len()
        &&& forall|i: int| 0 <= i < self.plan@.len() ==> !(#[trigger] self.plan@[i].kind is Skip)
        &&& reads_before(self.plan@, self.order@)
        &&& self.resolved@.len() <= self.plan@.len()
        &&& forall|p: int| 0 <= p < self.resolved@.len() ==> (#[trigger] self.resolved@[p]).0@ == self.plan@[self.order@[p] as int].name@
            && value_ok(self.plan@[self.order@[p] as int].kind, context_of(self.resolved@.take(p)), self.resolved@[p].1@)
    }

    /// The source evaluated next.
    pub open spec fn pending(self) -> Planned {
        self.plan@[self.order@[self.resolved@.len() as int] as int]
    }

    /// `rs` holds every resolved variable once, sorted by name, with its value
    /// and description.
    pub open spec fn results_agree(self, rs: Seq<Resolved>) -> bool {
        &&& rs.len() == self.resolved@.len()
        &&& forall|p: int, q: int| 0 <= p < q < rs.len() ==> !seq_lt(#[trigger] rs[q].name@, #[trigger] rs[p].name@)
        &&& exists|perm: Seq<usize>| {
            &&& perm.len() == rs.len()
            &&& perm.no_duplicates()
            &&& forall|p: int| 0 <= p < rs.len() ==> {
                &&& #[trigger] perm[p] < rs.len()
                &&& rs[p].name@ == self.resolved@[perm[p] as int].0@
                &&& rs[p].value@ == self.resolved@[perm[p] as int].1@
                &&& rs[p].description == self.plan@[self.order@[perm[p] as int] as int].description
            }
        }
    }
}

/// Each variable in `order` comes after the variables it reads.
proof fn lemma_order_respects_reads(plan: Seq<Planned>, deps: Seq<Vec<usize>>, order: Seq<usize>)
    requires
        deps_agree(plan, deps),
        is_topological(plan.len(), deps, order),
    ensures
        reads_before(plan, order),
{
    assert forall|p: int, r: Seq<char>| 0 <= p < order.len() && #[trigger] reads(plan[order[p] as int].kind, r) implies exists|q: int|
        0 <= q < p && plan[#[trigger] order[q] as int].name@ == r by {
        let i = order[p] as int;
        let k = choose|k: int| 0 <= k < deps[i]@.len() && plan[#[trigger] deps[i]@[k] as int].name@ == r;
        assert(ready(deps, order.take(p), i));
        assert(order.take(p).contains(deps[i]@[k]));
        let q = choose|q: int| 0 <= q < order.take(p).len() && order.take(p)[q] == deps[i]@[k];
        assert(order[q] == deps[i]@[k]);
    }
}

/// The names of the planned variables at the positions of `chain`.
fn chain_names(plan: &Vec<Planned>, chain: &Vec<usize>) -> (r: Vec<String>)
    requires
        forall|m: int| 0 <= m < chain@.len() ==> #[trigger] chain@[m] < plan@.len(),
    ensures
        r@.len() == chain@.len(),
        forall|m: int| 0 <= m < chain@.len() ==> #[trigger] r@[m]@ == plan@[chain@[m] as int].name@,
{
    let mut out: Vec<String> = Vec::new();
    let mut m: usize = 0;
    while m < chain.len()
        invariant
            m <= chain@.len(),
            out@.len() == m,
            forall|m: int| 0 <= m < chain@.len() ==> #[trigger] chain@[m] < plan@.len(),
            forall|k: int| 0 <= k < m ==> #[trigger] out@[k]@ == plan@[chain@[k] as int].name@,
        decreases chain@.len() - m,
    {
        out.push(plan[chain[m]].name.clone());
        m += 1;
    }
    out
}

/// The program and arguments of a command or shell source.
fn command_for(k: &SourceKind) -> (r: Vec<String>)
    requires
        k is Cmd || k is Sh,
    ensures
        views(r@) == command_of(*k),
{
    match k {
        SourceKind::Cmd(v) => clone_strings(v),
        SourceKind::Sh(s) => {
            let r = vec!["sh".to_owned(), "-c".to_owned(), s.clone()];
            assert(views(r@) =~= seq!["sh"@, "-c"@, s@]);
            r
        },
        _ => Vec::new(),
    }
}

/// Orders the plan so that each variable comes after the variables its
/// template reads, taking at each turn the ready variable with the least
/// name. Fails with every template that does not parse and every reference
/// to a variable that is not planned; else with the cycles among templates.
pub fn topological_sort(plan: &Vec<Planned>, environment: &str) -> (r: Result<Vec<usize>, Vec<ResolveError>>)
    ensures
        r matches Ok(order) ==> {
            &&& graph_sound(plan@)
            &&& reads_before(plan@, order@)
            &&& exists|deps: Seq<Vec<usize>>| deps_agree(plan@, deps) && is_topological(plan@.len(), deps, order@)
                && least_first(plan_names(plan@), deps, order@)
        },
        r matches Err(es) ==> es@.len() > 0 && if graph_sound(plan@) {
            &&& forall|k: int| 0 <= k < es@.len() ==> reports_cycle(plan@, environment@, #[trigger] es@[k])
            &&& reports_all_cycles(plan@, es@)
        } else {
            &&& forall|k: int| 0 <= k < es@.len() ==> reports_graph(plan@, environment@, #[trigger] es@[k])
            &&& reports_every_fault(plan@, es@, plan@.len() as int)
            &&& plan_names(plan@).no_duplicates() ==> each_fault_once(es@)
        },
{
    let deps = match build_graph(plan, environment) {
        Ok(d) => d,
        Err(es) => return Err(es),
    };
    let mut names: Vec<String> = Vec::new();
    let mut i: usize = 0;
    while i < plan.len()
        invariant
            i <= plan@.len(),
            views(names@) == plan_names(plan@).take(i as int),
        decreases plan@.len() - i,
    {
        let ghost prev = views(names@);
        names.push(plan[i].name.clone());
        assert(views(names@) =~= prev.push(plan@[i as int].name@));
        assert(plan_names(plan@).take(i + 1) =~= plan_names(plan@).take(i as int).push(plan@[i as int].name@));
        i += 1;
    }
    assert(plan_names(plan@).take(plan@.len() as int) =~= plan_names(plan@));
    assert(names@.map_values(|s: String| s@) =~= plan_names(plan@));
    match order_nodes(&names, &deps) {
        Ok(order) => {
            proof {
                lemma_order_respects_reads(plan@, deps@, order@);
            }
            Ok(order)
        },
        Err(cycles) => {
            let mut errors: Vec<ResolveError> = Vec::new();
            let mut c: usize = 0;
            while c < cycles.len()
                invariant
                    c <= cycles@.len(),
                    deps_agree(plan@, deps@),
                    forall|c: int| 0 <= c < cycles@.len() ==> is_cycle(plan@.len(), deps@, #[trigger] cycles@[c]@),
                    errors@.len() == c,
                    forall|k: int| 0 <= k < errors@.len() ==> reports_cycle(plan@, environment@, #[trigger] errors@[k]),
                    forall|k: int| 0 <= k < errors@.len() ==> chain_is(#[trigger] errors@[k], names_along(plan@, cycles@[k]@)),
                decreases cycles@.len() - c,
            {
                let chain = chain_names(plan, &cycles[c]);
                let ghost cyc = cycles@[c as int]@;
                proof {
                    assert(is_cycle(plan@.len(), deps@, cyc));
                    assert forall|m: int| 0 <= m < views(chain@).len() - 1 implies exists|i: int|
                        0 <= i < plan@.len() && plan@[i].name@ == #[trigger] views(chain@)[m] && reads(plan@[i].kind, views(chain@)[m + 1]) by {
                        let i = cyc[m] as int;
                        assert(deps@[i]@.contains(cyc[m + 1]));
                        let k = choose|k: int| 0 <= k < deps@[i]@.len() && deps@[i]@[k] == cyc[m + 1];
                        assert(reads(plan@[i].kind, plan@[deps@[i]@[k] as int].name@));
                        assert(views(chain@)[m + 1] == chain@[m + 1]@);
                    }
                    assert(views(chain@)[0] == views(chain@)[views(chain@).len() - 1]) by {
                        assert(chain@[0]@ == plan@[cyc[0] as int].name@);
                    }
                }
                assert(views(chain@) =~= names_along(plan@, cyc));
                let e = ResolveError {
                    variable: chain[0].clone(),
                    environment: environment.to_owned(),
                    kind: ResolveErrorKind::CircularDependency { chain },
                };
                let ghost old_errors = errors@;
                assert(chain_is(e, names_along(plan@, cyc)));
                errors.push(e);
                proof {
                    assert forall|k: int| 0 <= k < errors@.len() implies chain_is(#[trigger] errors@[k], names_along(plan@, cycles@[k]@)) by {
                        if k < old_errors.len() {
                            assert(errors@[k] == old_errors[k]);
                        }
                    }
                }
                c += 1;
            }
            assert(reports_all_cycles(plan@, errors@));
            Err(errors)
        },
    }
}

impl Resolution {
    /// Selects a source for every variable and orders the variables that
    /// take part so that each comes after the variables its template reads,
    /// taking at each turn the ready variable with the least name.
    ///
    /// Fails with every selection error; else with every template that does
    /// not parse and every reference to a variable that does not take part;
    /// else with the cycles among templates.
    pub fn start(config: &Config, environment: &str, tags: &[String], overrides: &[String]) -> (r: Result<Resolution, Vec<ResolveError>>)
        ensures
            !selection_all_ok(*config, environment@, tags@, overrides@) ==> (r matches Err(es) && es@.len() > 0
                && reports_every_failure(config.variables@, environment@, tags@, overrides@, es@)
                && error_vars(es@) == failing_names(config.variables@, environment@, tags@, overrides@)
                && forall|k: int| 0 <= k < es@.len() ==> reports_selection(config.variables@, environment@, tags@, overrides@, #[trigger] es@[k])),
            selection_all_ok(*config, environment@, tags@, overrides@) && r is Err ==> (r matches Err(es) && es@.len() > 0 && exists|plan: Seq<Planned>|
                #[trigger] plan_agrees(config.variables@, environment@, tags@, overrides@, plan) && (if graph_sound(plan) {
                    &&& forall|k: int| 0 <= k < es@.len() ==> reports_cycle(plan, environment@, #[trigger] es@[k])
                    &&& reports_all_cycles(plan, es@)
                } else {
                    &&& forall|k: int| 0 <= k < es@.len() ==> reports_graph(plan, environment@, #[trigger] es@[k])
                    &&& reports_every_fault(plan, es@, plan.len() as int)
                    &&& plan_names(plan).no_duplicates() ==> each_fault_once(es@)
                })),
            r matches Ok(res) ==> {
                &&& res.wf()
                &&& res.resolved@.len() == 0
                &&& res.environment@ == environment@
                &&& selection_all_ok(*config, environment@, tags@, overrides@)
                &&& plan_agrees(config.variables@, environment@, tags@, overrides@, res.plan@)
                &&& graph_sound(res.plan@)
                &&& exists|deps: Seq<Vec<usize>>| deps_agree(res.plan@, deps) && is_topological(res.plan@.len(), deps, res.order@)
                    && least_first(plan_names(res.plan@), deps, res.order@)
            },
    {
        let plan = match collect_sources(config, environment, tags, overrides) {
            Ok(p) => p,
            Err(es) => return Err(es),
        };
        proof {
            lemma_plan_has_no_skip(config.variables@, environment@, tags@, overrides@, plan@);
        }
        let order = match topological_sort(&plan, environment) {
            Ok(o) => o,
            Err(es) => {
                assert(plan_agrees(config.variables@, environment@, tags@, overrides@, plan@) && (if graph_sound(plan@) {
                    &&& forall|k: int| 0 <= k < es@.len() ==> reports_cycle(plan@, environment@, #[trigger] es@[k])
                    &&& reports_all_cycles(plan@, es@)
                } else {
                    &&& forall|k: int| 0 <= k < es@.len() ==> reports_graph(plan@, environment@, #[trigger] es@[k])
                    &&& reports_every_fault(plan@, es@, plan@.len() as int)
                    &&& plan_names(plan@).no_duplicates() ==> each_fault_once(es@)
                }));
                return Err(es);
            },
        };
        Ok(Resolution { environment: environment.to_owned(), plan, order, resolved: Vec::new() })
    }

    /// The resolved variables, sorted by name.
    fn results(&self) -> (rs: Vec<Resolved>)
        requires
            self.wf(),
        ensures
            self.results_agree(rs@),
    {
        let n = self.resolved.len();
        let mut names: Vec<String> = Vec::new();
        let mut deps: Vec<Vec<usize>> = Vec::new();
        while names.len() < n
            invariant
                n == self.resolved@.len(),
                names@.len() <= n,
                deps@.len() == names@.len(),
                forall|k: int| 0 <= k < names@.len() ==> #[trigger] names@[k]@ == self.resolved@[k].0@,
                forall|k: int| 0 <= k < deps@.len() ==> (#[trigger] deps@[k])@.len() == 0,
            decreases n - names@.len(),
        {
            names.push(self.resolved[names.len()].0.clone());
            deps.push(Vec::new());
        }
        let perm = match order_nodes(&names, &deps) {
            Ok(o) => o,
            Err(cycles) => {
                proof {
                    assert(is_cycle(names@.len(), deps@, cycles@[0]@));
                    assert(deps@[cycles@[0]@[0] as int]@.contains(cycles@[0]@[1]));
                }
                return Vec::new();
            },
        };
        let ghost nv = names@.map_values(|s: String| s@);
        let mut rs: Vec<Resolved> = Vec::new();
        let mut p: usize = 0;
        while p < n
            invariant
                self.wf(),
                n == self.resolved@.len(),
                names@.len() == n,
                perm@.len() == n,
                p <= n,
                rs@.len() == p,
                forall|k: int| 0 <= k < names@.len() ==> #[trigger] names@[k]@ == self.resolved@[k].0@,
                forall|k: int| 0 <= k < n ==> #[trigger] perm@[k] < n,
                forall|k: int| 0 <= k < p ==> {
                    &&& (#[trigger] rs@[k]).name@ == self.resolved@[perm@[k] as int].0@
                    &&& rs@[k].value@ == self.resolved@[perm@[k] as int].1@
                    &&& rs@[k].description == self.plan@[self.order@[perm@[k] as int] as int].description
                },
            decreases n - p,
        {
            let q = perm[p];
            rs.push(Resolved {
                name: self.resolved[q].0.clone(),
                value: self.resolved[q].1.clone(),
                description: clone_opt(&self.plan[self.order[q]].description),
            });
            p += 1;
        }
        proof {
            assert forall|a: int, b: int| 0 <= a < b < rs@.len() implies !seq_lt(#[trigger] rs@[b].name@, #[trigger] rs@[a].name@) by {
                let j = perm@[b] as int;
                assert(!perm@.take(a).contains(perm@[b])) by {
                    if perm@.take(a).contains(perm@[b]) {
                        let x = choose|x: int| 0 <= x < perm@.take(a).len() && perm@.take(a)[x] == perm@[b];
                        assert(perm@[x] == perm@[b]);
                    }
                }
                assert(ready(deps@, perm@.take(a), j));
                assert(nv[j] == rs@[b].name@);
                assert(nv[perm@[a] as int] == rs@[a].name@);
            }
            assert(self.results_agree(rs@)) by {
                assert(perm@.len() == rs@.len());
            }
        }
        rs
    }

    /// Evaluates literal and template sources in order until a command must
    /// run, a template fails, or every variable is resolved.
    pub fn advance(&mut self) -> (s: Step)
        requires
            old(self).wf(),
        ensures
            final(self).wf(),
            final(self).plan == old(self).plan,
            final(self).order == old(self).order,
            final(self).environment == old(self).environment,
            final(self).resolved@.len() >= old(self).resolved@.len(),
            final(self).resolved@.take(old(self).resolved@.len() as int) == old(self).resolved@,
            forall|p: int| old(self).resolved@.len() <= p < final(self).resolved@.len() ==> {
                let k = #[trigger] final(self).plan@[final(self).order@[p] as int].kind;
                k is Literal || k is Template
            },
            match s {
                Step::Run(cmd) => final(self).resolved@.len() < final(self).plan@.len() && (final(self).pending().kind is Cmd
                    || final(self).pending().kind is Sh) && views(cmd@) == command_of(final(self).pending().kind),
                Step::Failed(e) => final(self).resolved@.len() < final(self).plan@.len() && (final(self).pending().kind matches SourceKind::Template(t)
                    && rendered(t@, context_of(final(self).resolved@)) matches Err(m) && e.kind matches ResolveErrorKind::TemplateRender { reason }
                    && reason@ == m) && e.variable@ == final(self).pending().name@ && e.environment@ == final(self).environment@,
                Step::Finished(rs) => final(self).resolved@.len() == final(self).plan@.len() && final(self).results_agree(rs@),
            },
    {
        loop
            invariant
                self.wf(),
                self.plan == old(self).plan,
                self.order == old(self).order,
                self.environment == old(self).environment,
                self.resolved@.len() >= old(self).resolved@.len(),
                self.resolved@.take(old(self).resolved@.len() as int) == old(self).resolved@,
                forall|p: int| old(self).resolved@.len() <= p < self.resolved@.len() ==> {
                    let k = #[trigger] self.plan@[self.order@[p] as int].kind;
                    k is Literal || k is Template
                },
            decreases self.plan@.len() - self.resolved@.len(),
        {
            let p = self.resolved.len();
            if p == self.plan.len() {
                let rs = self.results();
                return Step::Finished(rs);
            }
            let i = self.order[p];
            let ghost before = self.resolved@;
            let value: String = match &self.plan[i].kind {
                SourceKind::Literal(v) => v.clone(),
                SourceKind::Template(t) => match render_template(t.as_str(), &self.resolved) {
                    Ok(v) => v,
                    Err(m) => {
                        return Step::Failed(ResolveError {
                            variable: self.plan[i].name.clone(),
                            environment: self.environment.clone(),
                            kind: ResolveErrorKind::TemplateRender { reason: m },
                        });
                    },
                },
                SourceKind::Skip => {
                    proof {
                        assert(!(self.plan@[i as int].kind is Skip));
                    }
                    return Step::Run(Vec::new());
                },
                k => {
                    return Step::Run(command_for(k));
                },
            };
            self.resolved.push((self.plan[i].name.clone(), value));
            proof {
                assert(self.resolved@.take(p as int) =~= before);
                assert forall|q: int| 0 <= q < p implies self.resolved@.take(q) == before.take(q) by {
                    assert(self.resolved@.take(q) =~= before.take(q));
                }
                assert(self.resolved@.take(old(self).resolved@.len() as int) =~= before.take(old(self).resolved@.len() as int));
                assert(before.take(old(self).resolved@.len() as int) =~= old(self).resolved@.take(old(self).resolved@.len() as int));
                assert(old(self).resolved@.take(old(self).resolved@.len() as int) =~= old(self).resolved@);
            }
        }
    }

    /// Takes what came of running the pending command: its output, trimmed of
    /// trailing whitespace, becomes the variable's value; a failure to start
    /// or an unsuccessful exit is the error.
    pub fn complete(&mut self, outcome: CommandOutcome) -> (r: Result<(), ResolveError>)
        requires
            old(self).wf(),
            old(self).resolved@.len() < old(self).plan@.len(),
            old(self).pending().kind is Cmd || old(self).pending().kind is Sh,
        ensures
            final(self).wf(),
            final(self).plan == old(self).plan,
            final(self).order == old(self).order,
            final(self).environment == old(self).environment,
            match outcome {
                CommandOutcome::SpawnFailed { reason } => {
                    &&& final(self).resolved == old(self).resolved
                    &&& r matches Err(e) && is_cmd_failed(e, old(self).pending(), old(self).environment@, reason@)
                },
                CommandOutcome::Exited { success, exit_code, stdout, stderr } => if success {
                    &&& r is Ok
                    &&& final(self).resolved@.len() == old(self).resolved@.len() + 1
                    &&& final(self).resolved@.take(old(self).resolved@.len() as int) == old(self).resolved@
                    &&& final(self).resolved@.last().0@ == old(self).pending().name@
                    &&& final(self).resolved@.last().1@ == trim_end_of(stdout@)
                } else {
                    &&& final(self).resolved == old(self).resolved
                    &&& r matches Err(e) && is_cmd_nonzero(e, old(self).pending(), old(self).environment@, exit_code, trim_of(stderr@))
                },
            },
    {
        let p = self.resolved.len();
        let i = self.order[p];
        let command = command_for(&self.plan[i].kind);
        match outcome {
            CommandOutcome::SpawnFailed { reason } => Err(ResolveError {
                variable: self.plan[i].name.clone(),
                environment: self.environment.clone(),
                kind: ResolveErrorKind::CmdFailed { command, reason },
            }),
            CommandOutcome::Exited { success, exit_code, stdout, stderr } => {
                if !success {
                    return Err(ResolveError {
                        variable: self.plan[i].name.clone(),
                        environment: self.environment.clone(),
                        kind: ResolveErrorKind::CmdNonZero { command, exit_code, stderr: trim(stderr.as_str()) },
                    });
                }
                let ghost before = self.resolved@;
                let value = trim_end(stdout.as_str());
                self.resolved.push((self.plan[i].name.clone(), value));
                proof {
                    assert(self.resolved@.take(p as int) =~= before);
                    assert forall|q: int| 0 <= q < p implies self.resolved@.take(q) == before.take(q) by {
                        assert(self.resolved@.take(q) =~= before.take(q));
                    }
                }
                Ok(())
            },
        }
    }
}

/// A sequence of `n` distinct nodes below `n` holds every node below `n`.
proof fn lemma_permutation_covers(s: Seq<usize>, n: nat, j: usize)
    requires
        s.len() == n,
        s.no_duplicates(),
        forall|m: int| 0 <= m < s.len() ==> #[trigger] s[m] < n,
        j < n,
    ensures
        s.contains(j),
{
    if !s.contains(j) {
        let t = s.map_values(|x: usize| if x < j { x } else { (x - 1) as usize });
        assert forall|m: int| 0 <= m < t.len() implies #[trigger] t[m] < n - 1 by {
            assert(s[m] != j);
        }
        assert forall|a: int, b: int| 0 <= a < t.len() && 0 <= b < t.len() && a != b implies t[a] != t[b] by {
            assert(s[a] != s[b]);
            assert(s[a] != j && s[b] != j);
        }
        crate::graph::lemma_distinct_bounded(t, (n - 1) as nat);
    }
}

/// Without templates nothing is read: the plan's references are sound, no
/// variable waits on another, and the finished results hold exactly the
/// planned variables, sorted by name.
pub proof fn law_without_templates(res: Resolution, rs: Seq<Resolved>)
    requires
        res.wf(),
        res.plan@.len() <= usize::MAX,
        res.resolved@.len() == res.plan@.len(),
        res.results_agree(rs),
        forall|i: int| 0 <= i < res.plan@.len() ==> !(#[trigger] res.plan@[i].kind is Template),
    ensures
        graph_sound(res.plan@),
        forall|deps: Seq<Vec<usize>>| #[trigger] deps_agree(res.plan@, deps) ==> forall|i: int| 0 <= i < deps.len() ==> (#[trigger] deps[i])@.len() == 0,
        rs.map_values(|r: Resolved| r.name@).to_set() == plan_names(res.plan@).to_set(),
        forall|p: int, q: int| 0 <= p < q < rs.len() ==> !seq_lt(#[trigger] rs[q].name@, #[trigger] rs[p].name@),
{
    let plan = res.plan@;
    let n = plan.len();
    assert forall|i: int| 0 <= i < n implies refs_of(#[trigger] plan[i].kind) == Ok::<Set<Seq<char>>, Seq<char>>(Set::empty()) by {
        assert(!(plan[i].kind is Template));
    }
    assert(graph_sound(plan));
    assert forall|deps: Seq<Vec<usize>>| #[trigger] deps_agree(plan, deps) implies forall|i: int| 0 <= i < deps.len() ==> (#[trigger] deps[i])@.len() == 0 by {
        assert forall|i: int| 0 <= i < deps.len() implies (#[trigger] deps[i])@.len() == 0 by {
            if deps[i]@.len() > 0 {
                assert(reads(plan[i].kind, plan[deps[i]@[0] as int].name@));
            }
        }
    }
    let perm = choose|perm: Seq<usize>| {
        &&& perm.len() == rs.len()
        &&& perm.no_duplicates()
        &&& forall|p: int| 0 <= p < rs.len() ==> {
            &&& #[trigger] perm[p] < rs.len()
            &&& rs[p].name@ == res.resolved@[perm[p] as int].0@
            &&& rs[p].value@ == res.resolved@[perm[p] as int].1@
            &&& rs[p].description == res.plan@[res.order@[perm[p] as int] as int].description
        }
    };
    let names = rs.map_values(|r: Resolved| r.name@);
    assert forall|x: Seq<char>| names.to_set().contains(x) <==> plan_names(plan).to_set().contains(x) by {
        if names.to_set().contains(x) {
            let p = choose|p: int| 0 <= p < names.len() && names[p] == x;
            let i = res.order@[perm[p] as int] as int;
            assert(res.resolved@[perm[p] as int].0@ == plan[i].name@);
            assert(plan_names(plan)[i] == x);
        }
        if plan_names(plan).to_set().contains(x) {
            let i = choose|i: int| 0 <= i < plan.len() && plan_names(plan)[i] == x;
            lemma_permutation_covers(res.order@, n, i as usize);
            let q = choose|q: int| 0 <= q < n && res.order@[q] == i as usize;
            lemma_permutation_covers(perm, n, q as usize);
            let p = choose|p: int| 0 <= p < n && perm[p] == q as usize;
            assert(res.resolved@[q].0@ == plan[res.order@[q] as int].name@);
            assert(rs[p].name@ == res.resolved@[q].0@);
            assert(names[p] == rs[p].name@);
            assert(names[p] == x);
        }
    }
    assert(names.to_set() =~= plan_names(plan).to_set());
}

/// Two different active overrides that are both defined on a variable its
/// tags let in are a conflict that names both, in the order they were given.
pub proof fn law_two_active_overrides_conflict(
    v: Variable,
    env: Seq<char>,
    tags: Seq<String>,
    a: String,
    b: String,
    r: Result<Option<SourceKind>, ResolveErrorKind>,
)
    requires
        tags_match(v.tags@, tags),
        a@ != b@,
        lookup(v.overrides@, a@) is Some,
        lookup(v.overrides@, b@) is Some,
        selection_is(v, env, tags, seq![a, b], r),
    ensures
        r matches Err(ResolveErrorKind::ConflictingOverrides { names }) && views(names@) == seq![a@, b@],
{
    reveal(selection_is);
    let ab = seq![a, b];
    assert(ab.drop_last() =~= seq![a]);
    assert(seq![a].drop_last() =~= Seq::<String>::empty());
    assert(ab.last() == b);
    assert(seq![a].last() == a);
    assert(matching(v.overrides@, Seq::<String>::empty()) == Seq::<String>::empty());
    assert(matching(v.overrides@, seq![a]) =~= seq![a]);
    assert(views(seq![a]) =~= seq![a@]);
    assert(matching(v.overrides@, ab) =~= seq![a, b]);
    assert(views(seq![a, b]) =~= seq![a@, b@]);
}

/// A variable without tags always passes the tag filter; one tagged only
/// `t` passes exactly when `t` is active; one that does not pass is left out,
/// without error.
pub proof fn law_tag_filter(
    v: Variable,
    env: Seq<char>,
    tags: Seq<String>,
    overrides: Seq<String>,
    r: Result<Option<SourceKind>, ResolveErrorKind>,
)
    requires
        selection_is(v, env, tags, overrides, r),
    ensures
        v.tags@.len() == 0 ==> tags_match(v.tags@, tags),
        v.tags@.len() == 1 ==> (tags_match(v.tags@, tags) <==> exists|j: int| 0 <= j < tags.len() && #[trigger] tags[j]@ == v.tags@[0]@),
        !tags_match(v.tags@, tags) ==> r matches Ok(None),
{
    reveal(selection_is);
    if v.tags@.len() == 1 {
        if exists|j: int| 0 <= j < tags.len() && #[trigger] tags[j]@ == v.tags@[0]@ {
            let j = choose|j: int| 0 <= j < tags.len() && #[trigger] tags[j]@ == v.tags@[0]@;
            assert(v.tags@[0]@ == tags[j]@);
        }
    }
}

/// Every planned name is the name of a variable that takes part.
proof fn lemma_planned_names_defined(
    vars: Seq<(String, Variable)>,
    env: Seq<char>,
    tags: Seq<String>,
    overrides: Seq<String>,
    plan: Seq<Planned>,
)
    requires
        plan_agrees(vars, env, tags, overrides, plan),
    ensures
        forall|i: int| 0 <= i < plan.len() ==> exists|j: int|
            0 <= j < vars.len() && vars[j].0@ == (#[trigger] plan[i]).name@ && selected(vars[j].1, env, tags, overrides) is Some,
    decreases vars.len(),
{
    if vars.len() > 0 {
        let rest = vars.drop_last();
        match selected(vars.last().1, env, tags, overrides) {
            Some(_) => {
                lemma_planned_names_defined(rest, env, tags, overrides, plan.drop_last());
                assert forall|i: int| 0 <= i < plan.len() implies exists|j: int|
                    0 <= j < vars.len() && vars[j].0@ == (#[trigger] plan[i]).name@ && selected(vars[j].1, env, tags, overrides) is Some by {
                    if i < plan.len() - 1 {
                        assert(plan[i] == plan.drop_last()[i]);
                        let j = choose|j: int| 0 <= j < rest.len() && rest[j].0@ == (#[trigger] plan.drop_last()[i]).name@ && selected(rest[j].1, env, tags, overrides) is Some;
                        assert(vars[j] == rest[j]);
                    } else {
                        assert(vars[vars.len() - 1] == vars.last());
                    }
                }
            },
            None => {
                lemma_planned_names_defined(rest, env, tags, overrides, plan);
                assert forall|i: int| 0 <= i < plan.len() implies exists|j: int|
                    0 <= j < vars.len() && vars[j].0@ == (#[trigger] plan[i]).name@ && selected(vars[j].1, env, tags, overrides) is Some by {
                    let j = choose|j: int| 0 <= j < rest.len() && rest[j].0@ == (#[trigger] plan[i]).name@ && selected(rest[j].1, env, tags, overrides) is Some;
                    assert(vars[j] == rest[j]);
                }
            },
        }
    }
}

/// A variable that does not take part (left out by its tags, or skipped) is
/// not planned, so a template that reads it fails the reference check
/// instead of being silently dropped.
pub proof fn law_excluded_is_unknown(
    config: Config,
    env: Seq<char>,
    tags: Seq<String>,
    overrides: Seq<String>,
    plan: Seq<Planned>,
    x: int,
)
    requires
        config.wf(),
        plan_agrees(config.variables@, env, tags, overrides, plan),
        0 <= x < config.variables@.len(),
        selected(config.variables@[x].1, env, tags, overrides) is None,
    ensures
        !plan_names(plan).contains(config.variables@[x].0@),
        (exists|i: int| 0 <= i < plan.len() && reads(#[trigger] plan[i].kind, config.variables@[x].0@)) ==> !graph_sound(plan),
{
    let vars = config.variables@;
    lemma_planned_names_defined(vars, env, tags, overrides, plan);
    if plan_names(plan).contains(vars[x].0@) {
        let i = choose|i: int| 0 <= i < plan.len() && plan_names(plan)[i] == vars[x].0@;
        let j = choose|j: int| 0 <= j < vars.len() && vars[j].0@ == (#[trigger] plan[i]).name@ && selected(vars[j].1, env, tags, overrides) is Some;
        assert(keys(vars)[j] == keys(vars)[x]);
    }
}

/// With unique variable names, the planned names are unique too.
pub proof fn law_plan_names_distinct(
    vars: Seq<(String, Variable)>,
    env: Seq<char>,
    tags: Seq<String>,
    overrides: Seq<String>,
    plan: Seq<Planned>,
)
    requires
        keys(vars).no_duplicates(),
        plan_agrees(vars, env, tags, overrides, plan),
    ensures
        plan_names(plan).no_duplicates(),
    decreases vars.len(),
{
    if vars.len() > 0 {
        let rest = vars.drop_last();
        assert(keys(rest) =~= keys(vars).drop_last());
        match selected(vars.last().1, env, tags, overrides) {
            Some(_) => {
                let pr = plan.drop_last();
                law_plan_names_distinct(rest, env, tags, overrides, pr);
                lemma_planned_names_defined(rest, env, tags, overrides, pr);
                assert forall|a: int, b: int| 0 <= a < b < plan.len() implies plan_names(plan)[a] != plan_names(plan)[b] by {
                    assert(plan[a] == pr[a]);
                    if b < plan.len() - 1 {
                        assert(plan[b] == pr[b]);
                        assert(plan_names(pr)[a] != plan_names(pr)[b]);
                    } else {
                        let j = choose|j: int| 0 <= j < rest.len() && rest[j].0@ == (#[trigger] pr[a]).name@ && selected(rest[j].1, env, tags, overrides) is Some;
                        assert(keys(vars)[j] != keys(vars)[vars.len() - 1]);
                    }
                }
            },
            None => law_plan_names_distinct(rest, env, tags, overrides, plan),
        }
    }
}

/// Two plans that agree with one configuration are the same.
pub proof fn law_plan_is_determined(
    vars: Seq<(String, Variable)>,
    env: Seq<char>,
    tags: Seq<String>,
    overrides: Seq<String>,
    p1: Seq<Planned>,
    p2: Seq<Planned>,
)
    requires
        plan_agrees(vars, env, tags, overrides, p1),
        plan_agrees(vars, env, tags, overrides, p2),
    ensures
        p1.len() == p2.len(),
        forall|i: int| 0 <= i < p1.len() ==> (#[trigger] p1[i]).name@ == p2[i].name@ && same_kind(p1[i].kind, p2[i].kind)
            && p1[i].description == p2[i].description,
    decreases vars.len(),
{
    if vars.len() > 0 {
        match selected(vars.last().1, env, tags, overrides) {
            Some(k) => {
                law_plan_is_determined(vars.drop_last(), env, tags, overrides, p1.drop_last(), p2.drop_last());
                assert forall|i: int| 0 <= i < p1.len() implies (#[trigger] p1[i]).name@ == p2[i].name@ && same_kind(p1[i].kind, p2[i].kind)
                    && p1[i].description == p2[i].description by {
                    if i < p1.len() - 1 {
                        assert(p1[i] == p1.drop_last()[i]);
                        assert(p2[i] == p2.drop_last()[i]);
                    } else {
                        assert(same_kind(k, p1.last().kind) && same_kind(k, p2.last().kind));
                    }
                }
            },
            None => law_plan_is_determined(vars.drop_last(), env, tags, overrides, p1, p2),
        }
    }
}

/// With distinct names, the evaluation order is determined: two orders that
/// each place every variable after what it reads, taking the least ready name
/// each turn, are the same.
pub proof fn law_order_is_determined(
    plan: Seq<Planned>,
    deps1: Seq<Vec<usize>>,
    deps2: Seq<Vec<usize>>,
    o1: Seq<usize>,
    o2: Seq<usize>,
)
    requires
        plan_names(plan).no_duplicates(),
        deps_agree(plan, deps1),
        deps_agree(plan, deps2),
        is_topological(plan.len(), deps1, o1),
        is_topological(plan.len(), deps2, o2),
        least_first(plan_names(plan), deps1, o1),
        least_first(plan_names(plan), deps2, o2),
    ensures
        o1 == o2,
{
    let names = plan_names(plan);
    assert forall|done: Seq<usize>, j: int| 0 <= j < plan.len() && ready(deps1, done, j) implies ready(deps2, done, j) by {
        assert forall|k: int| 0 <= k < deps2[j]@.len() implies done.contains(#[trigger] deps2[j]@[k]) by {
            let r = plan[deps2[j]@[k] as int].name@;
            assert(reads(plan[j].kind, r));
            let k1 = choose|k1: int| 0 <= k1 < deps1[j]@.len() && plan[#[trigger] deps1[j]@[k1] as int].name@ == r;
            assert(names[deps1[j]@[k1] as int] == names[deps2[j]@[k] as int]);
            assert(done.contains(deps1[j]@[k1]));
        }
    }
    assert forall|done: Seq<usize>, j: int| 0 <= j < plan.len() && ready(deps2, done, j) implies ready(deps1, done, j) by {
        assert forall|k: int| 0 <= k < deps1[j]@.len() implies done.contains(#[trigger] deps1[j]@[k]) by {
            let r = plan[deps1[j]@[k] as int].name@;
            assert(reads(plan[j].kind, r));
            let k2 = choose|k2: int| 0 <= k2 < deps2[j]@.len() && plan[#[trigger] deps2[j]@[k2] as int].name@ == r;
            assert(names[deps2[j]@[k2] as int] == names[deps1[j]@[k] as int]);
            assert(done.contains(deps2[j]@[k2]));
        }
    }
    lemma_orders_agree_upto(plan, deps1, deps2, o1, o2, o1.len() as int);
    assert(o1 =~= o1.take(o1.len() as int));
    assert(o2 =~= o2.take(o2.len() as int));
}

/// Two least-first orders over graphs with the same readiness agree on their
/// first `p` places.
proof fn lemma_orders_agree_upto(
    plan: Seq<Planned>,
    deps1: Seq<Vec<usize>>,
    deps2: Seq<Vec<usize>>,
    o1: Seq<usize>,
    o2: Seq<usize>,
    p: int,
)
    requires
        plan_names(plan).no_duplicates(),
        forall|done: Seq<usize>, j: int| 0 <= j < plan.len() ==> (ready(deps1, done, j) <==> #[trigger] ready(deps2, done, j)),
        is_topological(plan.len(), deps1, o1),
        is_topological(plan.len(), deps2, o2),
        least_first(plan_names(plan), deps1, o1),
        least_first(plan_names(plan), deps2, o2),
        0 <= p <= o1.len(),
    ensures
        o1.take(p) == o2.take(p),
    decreases p,
{
    let names = plan_names(plan);
    if p > 0 {
        let p0 = p - 1;
        lemma_orders_agree_upto(plan, deps1, deps2, o1, o2, p0);
        let a = o1[p0];
        let b = o2[p0];
        assert(!o1.take(p0).contains(b)) by {
            if o1.take(p0).contains(b) {
                let x = choose|x: int| 0 <= x < o2.take(p0).len() && o2.take(p0)[x] == b;
                assert(o2[x] == o2[p0]);
            }
        }
        assert(!o1.take(p0).contains(a)) by {
            if o1.take(p0).contains(a) {
                let x = choose|x: int| 0 <= x < o1.take(p0).len() && o1.take(p0)[x] == a;
                assert(o1[x] == o1[p0]);
            }
        }
        assert(ready(deps2, o2.take(p0), b as int));
        assert(ready(deps1, o1.take(p0), b as int));
        assert(ready(deps1, o1.take(p0), a as int));
        assert(ready(deps2, o2.take(p0), a as int));
        assert(!seq_lt(names[b as int], names[a as int]));
        assert(!seq_lt(names[a as int], names[b as int]));
        if a != b {
            lemma_lt_total(names[a as int], names[b as int]);
        }
        assert(o1.take(p) =~= o1.take(p0).push(a));
        assert(o2.take(p) =~= o2.take(p0).push(b));
    }
}

/// Literal and template values depend on nothing but the plan, the order and
/// the values before them: two evaluations of one plan in one order that got
/// the same output from every command hold the same values.
pub proof fn law_values_are_determined(r1: Resolution, r2: Resolution)
    requires
        r1.wf(),
        r2.wf(),
        r1.plan == r2.plan,
        r1.order == r2.order,
        r1.resolved@.len() == r2.resolved@.len(),
        forall|p: int| 0 <= p < r1.resolved@.len() && !(r1.plan@[r1.order@[p] as int].kind is Literal)
            && !(r1.plan@[r1.order@[p] as int].kind is Template) ==> (#[trigger] r1.resolved@[p]).1@ == r2.resolved@[p].1@,
    ensures
        forall|p: int| 0 <= p < r1.resolved@.len() ==> (#[trigger] r1.resolved@[p]).0@ == r2.resolved@[p].0@ && r1.resolved@[p].1@
            == r2.resolved@[p].1@,
{
    lemma_values_agree_upto(r1, r2, r1.resolved@.len() as int);
}

/// The first `p` resolved names and values of the two evaluations agree.
#[verifier::rlimit(60)]
proof fn lemma_values_agree_upto(r1: Resolution, r2: Resolution, p: int)
    requires
        r1.wf(),
        r2.wf(),
        r1.plan == r2.plan,
        r1.order == r2.order,
        r1.resolved@.len() == r2.resolved@.len(),
        forall|q: int| 0 <= q < r1.resolved@.len() && !(r1.plan@[r1.order@[q] as int].kind is Literal)
            && !(r1.plan@[r1.order@[q] as int].kind is Template) ==> (#[trigger] r1.resolved@[q]).1@ == r2.resolved@[q].1@,
        0 <= p <= r1.resolved@.len(),
    ensures
        forall|q: int| 0 <= q < p ==> (#[trigger] r1.resolved@[q]).0@ == r2.resolved@[q].0@ && r1.resolved@[q].1@ == r2.resolved@[q].1@,
        context_of(r1.resolved@.take(p)) == context_of(r2.resolved@.take(p)),
    decreases p,
{
    if p == 0 {
        assert(r1.resolved@.take(0) =~= Seq::<(String, String)>::empty());
        assert(r2.resolved@.take(0) =~= Seq::<(String, String)>::empty());
    } else {
        let p0 = p - 1;
        lemma_values_agree_upto(r1, r2, p0);
        assert(r1.resolved@[p0].0@ == r2.resolved@[p0].0@);
        assert(r1.resolved@[p0].1@ == r2.resolved@[p0].1@);
        assert(r1.resolved@.take(p).drop_last() =~= r1.resolved@.take(p0));
        assert(r2.resolved@.take(p).drop_last() =~= r2.resolved@.take(p0));
    }
}

} // verus!
