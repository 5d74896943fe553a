//! Dependency ordering over nodes `0..n`, where `deps[i]` lists the nodes
//! that node `i` reads.
use vstd::prelude::*;

use crate::order::lemma_lt_irreflexive;
use crate::order::lemma_lt_transitive;
use crate::order::seq_lt;
use crate::order::str_lt;

verus! {

/// Every dependency names a node.
pub open spec fn graph_wf(n: nat, deps: Seq<Vec<usize>>) -> bool {
    &&& deps.len() == n
    &&& forall|i: int, k: int| 0 <= i < n && 0 <= k < deps[i]@.len() ==> #[trigger] deps[i]@[k] < n
}

/// Every dependency of `j` is in `done`.
pub open spec fn ready(deps: Seq<Vec<usize>>, done: Seq<usize>, j: int) -> bool {
    forall|k: int| 0 <= k < deps[j]@.len() ==> done.contains(#[trigger] deps[j]@[k])
}

/// `order` lists each node once, and each after all of its dependencies.
pub open spec fn is_topological(n: nat, deps: Seq<Vec<usize>>, order: Seq<usize>) -> bool {
    &&& order.len() == n
    &&& order.no_duplicates()
    &&& forall|p: int| 0 <= p < order.len() ==> #[trigger] order[p] < n
    &&& forall|p: int| 0 <= p < order.len() ==> ready(deps, order.take(p), #[trigger] order[p] as int)
}

/// Each node of `order` has the least name among the nodes that were ready
/// and not yet placed at its turn.
pub open spec fn least_first(names: Seq<Seq<char>>, deps: Seq<Vec<usize>>, order: Seq<usize>) -> bool {
    forall|p: int, j: int|
        0 <= p < order.len() && 0 <= j < names.len() && !order.take(p).contains(j as usize)
            && ready(deps, order.take(p), j) ==> !seq_lt(#[trigger] names[j], names[#[trigger] order[p] as int])
}

/// `chain` walks dependency edges and comes back to where it started.
pub open spec fn is_cycle(n: nat, deps: Seq<Vec<usize>>, chain: Seq<usize>) -> bool {
    &&& chain.len() >= 2
    &&& chain[0] == chain[chain.len() - 1]
    &&& forall|k: int| 0 <= k < chain.len() ==> #[trigger] chain[k] < n
    &&& forall|k: int| 0 <= k < chain.len() - 1 ==> deps[#[trigger] chain[k] as int]@.contains(chain[k + 1])
}

/// Whether every dependency of `j` is marked in `done`.
fn deps_done(deps: &Vec<usize>, done: &Vec<bool>) -> (r: bool)
    requires
        forall|k: int| 0 <= k < deps@.len() ==> #[trigger] deps@[k] < done@.len(),
    ensures
        r == forall|k: int| 0 <= k < deps@.len() ==> done@[#[trigger] deps@[k] as int],
{
    let mut k: usize = 0;
    while k < deps.len()
        invariant
            k <= deps@.len(),
            forall|m: int| 0 <= m < deps@.len() ==> #[trigger] deps@[m] < done@.len(),
            forall|m: int| 0 <= m < k ==> done@[#[trigger] deps@[m] as int],
        decreases deps@.len() - k,
    {
        if !done[deps[k]] {
            return false;
        }
        k += 1;
    }
    true
}

/// Orders the nodes so that every node follows its dependencies, taking at
/// each turn the ready node with the least name. Where no order exists,
/// returns the cycles that prevent one.
pub fn order_nodes(names: &Vec<String>, deps: &Vec<Vec<usize>>) -> (r: Result<Vec<usize>, Vec<Vec<usize>>>)
    requires
        graph_wf(names@.len(), deps@),
    ensures
        match r {
            Ok(order) => is_topological(names@.len(), deps@, order@) && least_first(
                names@.map_values(|s: String| s@),
                deps@,
                order@,
            ),
            Err(cycles) => {
                &&& cycles@.len() > 0
                &&& forall|c: int| 0 <= c < cycles@.len() ==> is_simple_cycle(names@.len(), deps@, #[trigger] cycles@[c]@)
                &&& disjoint_chains(cycles@)
                &&& covers_cycles(names@.len(), deps@, cycles@)
            },
        },
{
    let n = names.len();
    let ghost nv = names@.map_values(|s: String| s@);
    let mut done: Vec<bool> = Vec::new();
    while done.len() < n
        invariant
            done@.len() <= n,
            forall|j: int| 0 <= j < done@.len() ==> !done@[j],
        decreases n - done@.len(),
    {
        done.push(false);
    }
    let mut order: Vec<usize> = Vec::new();
    assert(order@ =~= Seq::<usize>::empty());
    while order.len() < n
        invariant
            n == names@.len(),
            graph_wf(n as nat, deps@),
            nv == names@.map_values(|s: String| s@),
            done@.len() == n,
            order@.len() <= n,
            order@.no_duplicates(),
            forall|p: int| 0 <= p < order@.len() ==> #[trigger] order@[p] < n,
            forall|j: int| 0 <= j < n ==> (done@[j] <==> order@.contains(j as usize)),
            forall|p: int| 0 <= p < order@.len() ==> ready(deps@, order@.take(p), #[trigger] order@[p] as int),
            least_first(nv, deps@, order@),
        decreases n - order@.len(),
    {
        let mut best: Option<usize> = None;
        let mut j: usize = 0;
        while j < n
            invariant
                n == names@.len(),
                graph_wf(n as nat, deps@),
                nv == names@.map_values(|s: String| s@),
                done@.len() == n,
                j <= n,
                forall|i: int| 0 <= i < n ==> (done@[i] <==> order@.contains(i as usize)),
                match best {
                    Some(b) => b < j && !done@[b as int] && ready(deps@, order@, b as int)
                        && forall|i: int| 0 <= i < j && !done@[i] && ready(deps@, order@, i) ==> !seq_lt(#[trigger] nv[i], nv[b as int]),
                    None => forall|i: int| 0 <= i < j ==> done@[i] || !ready(deps@, order@, i),
                },
            decreases n - j,
        {
            if !done[j] {
                let ok = deps_done(&deps[j], &done);
                proof {
                    assert(ok == ready(deps@, order@, j as int)) by {
                        if ok {
                            assert forall|k: int| 0 <= k < deps@[j as int]@.len() implies order@.contains(#[trigger] deps@[j as int]@[k]) by {
                                assert(done@[deps@[j as int]@[k] as int]);
                            }
                        }
                        if ready(deps@, order@, j as int) {
                            assert forall|k: int| 0 <= k < deps@[j as int]@.len() implies done@[#[trigger] deps@[j as int]@[k] as int] by {
                                assert(order@.contains(deps@[j as int]@[k]));
                            }
                        }
                    }
                }
                if ok {
                    match best {
                        None => {
                            best = Some(j);
                            proof { lemma_lt_irreflexive(nv[j as int]); }
                        },
                        Some(b) => {
                            if str_lt(names[j].as_str(), names[b].as_str()) {
                                proof {
                                    assert forall|i: int| 0 <= i < j + 1 && !done@[i] && ready(deps@, order@, i) implies !seq_lt(#[trigger] nv[i], nv[j as int]) by {
                                        if i == j {
                                            lemma_lt_irreflexive(nv[j as int]);
                                        } else if seq_lt(nv[i], nv[j as int]) {
                                            lemma_lt_transitive(nv[i], nv[j as int], nv[b as int]);
                                        }
                                    }
                                }
                                best = Some(j);
                            }
                        },
                    }
                }
            }
            j += 1;
        }
        match best {
            None => {
                proof {
                    assert forall|i: int| 0 <= i < n && !done@[i] implies exists|k: int| 0 <= k < deps@[i]@.len() && !done@[#[trigger] deps@[i]@[k] as int] by {
                        assert(!ready(deps@, order@, i));
                        let k = choose|k: int| 0 <= k < deps@[i]@.len() && !order@.contains(#[trigger] deps@[i]@[k]);
                        assert(!done@[deps@[i]@[k] as int]);
                    }
                    assert(order@.len() < n);
                    lemma_missing_node(order@, n as nat);
                    let i = choose|i: usize| i < n && !#[trigger] order@.contains(i);
                    assert(!done@[i as int]);
                }
                return Err(find_cycles(deps, &done));
            },
            Some(b) => {
                proof {
                    assert(order@.take(order@.len() as int) =~= order@);
                    assert forall|p: int| 0 <= p < order@.len() + 1 implies ready(deps@, order@.push(b).take(p), #[trigger] order@.push(b)[p] as int) by {
                        assert(order@.push(b).take(p) =~= order@.take(p) || p == order@.len());
                        if p == order@.len() {
                            assert(order@.push(b).take(p) =~= order@);
                        } else {
                            assert(order@.push(b).take(p) =~= order@.take(p));
                        }
                    }
                    assert forall|p: int, i: int|
                        0 <= p < order@.len() + 1 && 0 <= i < nv.len() && !order@.push(b).take(p).contains(i as usize)
                            && ready(deps@, order@.push(b).take(p), i) implies !seq_lt(#[trigger] nv[i], nv[#[trigger] order@.push(b)[p] as int]) by {
                        if p == order@.len() {
                            assert(order@.push(b).take(p) =~= order@);
                            assert(!done@[i]);
                        } else {
                            assert(order@.push(b).take(p) =~= order@.take(p));
                        }
                    }
                }
                let ghost old_order = order@;
                done.set(b, true);
                order.push(b);
                proof {
                    assert forall|j: int| 0 <= j < n implies (done@[j] <==> order@.contains(j as usize)) by {
                        if j == b as int {
                            assert(order@[old_order.len() as int] == b);
                        } else if order@.contains(j as usize) {
                            let k = choose|k: int| 0 <= k < order@.len() && order@[k] == j as usize;
                            assert(old_order[k] == j as usize);
                        } else if old_order.contains(j as usize) {
                            let k = choose|k: int| 0 <= k < old_order.len() && old_order[k] == j as usize;
                            assert(order@[k] == j as usize);
                        }
                    }
                }
            },
        }
    }
    proof {
        assert(order@.len() == n);
    }
    Ok(order)
}

/// A sequence of distinct nodes below `n` that is shorter than `n` misses one.
proof fn lemma_missing_node(order: Seq<usize>, n: nat)
    requires
        order.len() < n,
        n <= usize::MAX,
        order.no_duplicates(),
    ensures
        exists|i: usize| i < n && !#[trigger] order.contains(i),
{
    if forall|i: usize| i < n ==> #[trigger] order.contains(i) {
        let places = Seq::new(n, |i: int| choose|q: int| 0 <= q < order.len() && order[q] == i as usize);
        let ps = places.map_values(|q: int| q as usize);
        assert forall|i: int| 0 <= i < n implies 0 <= #[trigger] places[i] < order.len() && order[places[i]] == i as usize by {
            assert(order.contains(i as usize));
        }
        assert forall|m: int| 0 <= m < ps.len() implies #[trigger] ps[m] < order.len() by {
            assert(0 <= places[m] < order.len());
        }
        assert forall|a: int, b: int| 0 <= a < ps.len() && 0 <= b < ps.len() && a != b implies ps[a] != ps[b] by {
            assert(0 <= places[a] < order.len() && order[places[a]] == a as usize);
            assert(0 <= places[b] < order.len() && order[places[b]] == b as usize);
        }
        lemma_distinct_bounded(ps, order.len());
    }
}

/// A cycle that passes each of its nodes once before closing.
pub open spec fn is_simple_cycle(n: nat, deps: Seq<Vec<usize>>, chain: Seq<usize>) -> bool {
    is_cycle(n, deps, chain) && chain.drop_last().no_duplicates()
}

/// No node lies on two of the chains.
pub open spec fn disjoint_chains(cs: Seq<Vec<usize>>) -> bool {
    forall|x: int, y: int, a: int, b: int|
        0 <= x < cs.len() && 0 <= y < cs.len() && x != y && 0 <= a < cs[x]@.len() - 1 && 0 <= b < cs[y]@.len() - 1
            ==> #[trigger] cs[x]@[a] != #[trigger] cs[y]@[b]
}

/// `j` lies on one of the chains.
pub open spec fn on_chains(cs: Seq<Vec<usize>>, j: usize) -> bool {
    exists|x: int, b: int| 0 <= x < cs.len() && 0 <= b < cs[x]@.len() - 1 && #[trigger] cs[x]@[b] == j
}

/// Every cycle of the graph passes through a node of one of the chains.
pub open spec fn covers_cycles(n: nat, deps: Seq<Vec<usize>>, cs: Seq<Vec<usize>>) -> bool {
    forall|c: Seq<usize>| #[trigger] is_cycle(n, deps, c) ==> exists|a: int| 0 <= a < c.len() && on_chains(cs, c[a])
}

/// `added` lists nodes, each after those of its dependencies that are not
/// in `avail`.
pub open spec fn peel_order(deps: Seq<Vec<usize>>, avail: Seq<bool>, added: Seq<usize>) -> bool {
    forall|p: int, k: int|
        0 <= p < added.len() && 0 <= k < deps[added[p] as int]@.len() ==> avail[#[trigger] deps[added[p] as int]@[k] as int]
            || exists|q: int| 0 <= q < p && added[q] == deps[added[p] as int]@[k]
}

/// The first node that is not marked, if any.
fn first_unmarked(marks: &Vec<bool>) -> (r: Option<usize>)
    ensures
        match r {
            Some(j) => j < marks@.len() && !marks@[j as int],
            None => forall|j: int| 0 <= j < marks@.len() ==> marks@[j],
        },
{
    let mut j: usize = 0;
    while j < marks.len()
        invariant
            j <= marks@.len(),
            forall|i: int| 0 <= i < j ==> marks@[i],
        decreases marks@.len() - j,
    {
        if !marks[j] {
            return Some(j);
        }
        j += 1;
    }
    None
}

/// Marks, besides the nodes of `avail`, every node whose dependencies can all
/// be marked first. The nodes left unmarked each have an unmarked dependency.
fn peel(deps: &Vec<Vec<usize>>, avail: &Vec<bool>) -> (r: (Vec<bool>, Ghost<Seq<usize>>))
    requires
        graph_wf(avail@.len(), deps@),
    ensures
        r.0@.len() == avail@.len(),
        forall|j: int| 0 <= j < r.0@.len() && !r.0@[j] ==> exists|k: int| 0 <= k < deps@[j]@.len() && !r.0@[#[trigger] deps@[j]@[k] as int],
        peel_order(deps@, avail@, r.1@),
        r.1@.no_duplicates(),
        forall|p: int| 0 <= p < r.1@.len() ==> #[trigger] r.1@[p] < avail@.len(),
        forall|j: int| 0 <= j < avail@.len() ==> (r.0@[j] <==> avail@[j] || r.1@.contains(j as usize)),
{
    let n = avail.len();
    let mut fin: Vec<bool> = Vec::new();
    let mut i: usize = 0;
    while i < n
        invariant
            i <= n,
            n == avail@.len(),
            fin@ =~= avail@.take(i as int),
        decreases n - i,
    {
        fin.push(avail[i]);
        i += 1;
    }
    let ghost mut added: Seq<usize> = Seq::empty();
    loop
        invariant
            n == avail@.len(),
            graph_wf(n as nat, deps@),
            fin@.len() == n,
            peel_order(deps@, avail@, added),
            added.no_duplicates(),
            forall|p: int| 0 <= p < added.len() ==> #[trigger] added[p] < n,
            forall|j: int| 0 <= j < n ==> (fin@[j] <==> avail@[j] || added.contains(j as usize)),
            forall|j: int| 0 <= j < n ==> avail@[j] ==> !added.contains(j as usize),
        ensures
            fin@.len() == n,
            peel_order(deps@, avail@, added),
            added.no_duplicates(),
            forall|p: int| 0 <= p < added.len() ==> #[trigger] added[p] < n,
            forall|j: int| 0 <= j < n ==> (fin@[j] <==> avail@[j] || added.contains(j as usize)),
            forall|j: int| 0 <= j < n && !fin@[j] ==> exists|k: int| 0 <= k < deps@[j]@.len() && !fin@[#[trigger] deps@[j]@[k] as int],
        decreases n - added.len(),
    {
        let mut found: Option<usize> = None;
        let mut j: usize = 0;
        while j < n
            invariant
                n == avail@.len(),
                graph_wf(n as nat, deps@),
                fin@.len() == n,
                j <= n,
                found matches Some(f) ==> f < n && !fin@[f as int] && forall|k: int| 0 <= k < deps@[f as int]@.len() ==> fin@[#[trigger] deps@[f as int]@[k] as int],
                found is None ==> forall|i: int| 0 <= i < j && !fin@[i] ==> exists|k: int| 0 <= k < deps@[i]@.len() && !fin@[#[trigger] deps@[i]@[k] as int],
            decreases n - j,
        {
            if found.is_none() && !fin[j] {
                if deps_done(&deps[j], &fin) {
                    found = Some(j);
                }
            }
            j += 1;
        }
        match found {
            None => {
                break;
            },
            Some(f) => {
                proof {
                    assert(!added.contains(f));
                    assert(added.push(f).no_duplicates());
                    assert forall|p: int| 0 <= p < added.push(f).len() implies #[trigger] added.push(f)[p] < n by {
                        if p < added.len() {
                            assert(added.push(f)[p] == added[p]);
                        }
                    }
                    lemma_distinct_bounded(added.push(f), n as nat);
                    assert forall|p: int, k: int|
                        0 <= p < added.push(f).len() && 0 <= k < deps@[added.push(f)[p] as int]@.len() implies avail@[#[trigger] deps@[added.push(f)[p] as int]@[k] as int]
                            || exists|q: int| 0 <= q < p && added.push(f)[q] == deps@[added.push(f)[p] as int]@[k] by {
                        if p < added.len() {
                            assert(added.push(f)[p] == added[p]);
                            if !avail@[deps@[added[p] as int]@[k] as int] {
                                let q = choose|q: int| 0 <= q < p && added[q] == deps@[added[p] as int]@[k];
                                assert(added.push(f)[q] == added[q]);
                            }
                        } else {
                            let d = deps@[f as int]@[k];
                            assert(fin@[d as int]);
                            if !avail@[d as int] {
                                let q = choose|q: int| 0 <= q < added.len() && added[q] == d;
                                assert(added.push(f)[q] == d);
                            }
                        }
                    }
                }
                let ghost old_added = added;
                fin.set(f, true);
                proof {
                    added = added.push(f);
                    assert forall|j: int| 0 <= j < n implies (fin@[j] <==> avail@[j] || added.contains(j as usize)) by {
                        if j == f as int {
                            assert(added[old_added.len() as int] == f);
                        } else if added.contains(j as usize) {
                            let q = choose|q: int| 0 <= q < added.len() && added[q] == j as usize;
                            assert(old_added[q] == j as usize);
                        } else if old_added.contains(j as usize) {
                            let q = choose|q: int| 0 <= q < old_added.len() && old_added[q] == j as usize;
                            assert(added[q] == j as usize);
                        }
                    }
                    assert forall|j: int| 0 <= j < n && avail@[j] implies !added.contains(j as usize) by {
                        if added.contains(j as usize) {
                            let q = choose|q: int| 0 <= q < added.len() && added[q] == j as usize;
                            if q < old_added.len() {
                                assert(old_added[q] == j as usize);
                            }
                        }
                    }
                }
            },
        }
    }
    (fin, Ghost(added))
}

/// The place of `x` in `s`.
spec fn place(s: Seq<usize>, x: usize) -> int {
    choose|q: int| 0 <= q < s.len() && s[q] == x
}

/// Along a cycle whose nodes were all peeled (none available), places fall
/// strictly.
proof fn lemma_places_fall(deps: Seq<Vec<usize>>, avail: Seq<bool>, added: Seq<usize>, c: Seq<usize>, a: int)
    requires
        peel_order(deps, avail, added),
        added.no_duplicates(),
        is_cycle(avail.len(), deps, c),
        forall|m: int| 0 <= m < c.len() ==> !avail[#[trigger] c[m] as int] && added.contains(c[m]),
        1 <= a < c.len(),
    ensures
        place(added, c[a]) <= place(added, c[0]) - a,
    decreases a,
{
    let b = a - 1;
    if b >= 1 {
        lemma_places_fall(deps, avail, added, c, b);
    }
    assert(added.contains(c[b]));
    assert(added.contains(c[a]));
    let pb = place(added, c[b]);
    let pa = place(added, c[a]);
    assert(deps[c[b] as int]@.contains(c[a]));
    let k = choose|k: int| 0 <= k < deps[c[b] as int]@.len() && deps[c[b] as int]@[k] == c[a];
    assert(added[pb] == c[b]);
    assert(!avail[deps[added[pb] as int]@[k] as int]);
    let q = choose|q: int| 0 <= q < pb && #[trigger] added[q] == deps[added[pb] as int]@[k];
    assert(added[pa] == c[a]);
    assert(q == pa);
}

/// No cycle runs through peeled nodes alone.
proof fn lemma_peeled_acyclic(deps: Seq<Vec<usize>>, avail: Seq<bool>, added: Seq<usize>, c: Seq<usize>)
    requires
        peel_order(deps, avail, added),
        added.no_duplicates(),
        is_cycle(avail.len(), deps, c),
        forall|m: int| 0 <= m < c.len() ==> !avail[#[trigger] c[m] as int],
    ensures
        exists|m: int| 0 <= m < c.len() && !added.contains(#[trigger] c[m]),
{
    if forall|m: int| 0 <= m < c.len() ==> added.contains(#[trigger] c[m]) {
        lemma_places_fall(deps, avail, added, c, c.len() - 1);
    }
}

/// Peeling from nothing never reaches a node of `stuck` when each node of
/// `stuck` has a dependency in `stuck`.
proof fn lemma_stuck_not_peeled(deps: Seq<Vec<usize>>, avail: Seq<bool>, added: Seq<usize>, stuck: Seq<bool>, p: int)
    requires
        peel_order(deps, avail, added),
        graph_wf(avail.len(), deps),
        stuck.len() == avail.len(),
        forall|j: int| 0 <= j < avail.len() ==> !avail[j],
        forall|p: int| 0 <= p < added.len() ==> #[trigger] added[p] < avail.len(),
        forall|i: int| 0 <= i < stuck.len() && stuck[i] ==> exists|k: int| 0 <= k < deps[i]@.len() && stuck[#[trigger] deps[i]@[k] as int],
        0 <= p <= added.len(),
    ensures
        forall|q: int| 0 <= q < p ==> !stuck[#[trigger] added[q] as int],
    decreases p,
{
    if p > 0 {
        lemma_stuck_not_peeled(deps, avail, added, stuck, p - 1);
        let x = added[p - 1];
        if stuck[x as int] {
            let k = choose|k: int| 0 <= k < deps[x as int]@.len() && stuck[#[trigger] deps[x as int]@[k] as int];
            let q = choose|q: int| 0 <= q < p - 1 && #[trigger] added[q] == deps[added[p - 1] as int]@[k];
            assert(!stuck[added[q] as int]);
        }
    }
}

/// When nothing is marked yet, peeling leaves some node of `done`'s
/// unmarked part unmarked.
proof fn lemma_first_round_stuck(deps: Seq<Vec<usize>>, done: Seq<bool>, covered: Seq<bool>, fin: Seq<bool>, added: Seq<usize>)
    requires
        graph_wf(done.len(), deps),
        covered.len() == done.len(),
        fin.len() == done.len(),
        forall|j: int| 0 <= j < covered.len() ==> !covered[j],
        forall|i: int| 0 <= i < done.len() && !done[i] ==> exists|k: int| 0 <= k < deps[i]@.len() && !done[#[trigger] deps[i]@[k] as int],
        exists|i: int| 0 <= i < done.len() && !done[i],
        peel_order(deps, covered, added),
        forall|p: int| 0 <= p < added.len() ==> #[trigger] added[p] < covered.len(),
        forall|j: int| 0 <= j < covered.len() ==> (fin[j] <==> covered[j] || added.contains(j as usize)),
        done.len() <= usize::MAX,
    ensures
        exists|i: int| 0 <= i < fin.len() && !fin[i],
{
    let stuck = done.map_values(|b: bool| !b);
    lemma_stuck_not_peeled(deps, covered, added, stuck, added.len() as int);
    let i = choose|i: int| 0 <= i < done.len() && !done[i];
    if added.contains(i as usize) {
        let q = choose|q: int| 0 <= q < added.len() && added[q] == i as usize;
        assert(!stuck[added[q] as int]);
    }
    assert(!fin[i]);
}

/// When peeling marks every node, every cycle passes through a marked node,
/// that is, through a node on one of the chains.
proof fn lemma_all_peeled_covers(deps: Seq<Vec<usize>>, cycles: Seq<Vec<usize>>, covered: Seq<bool>, fin: Seq<bool>, added: Seq<usize>)
    requires
        fin.len() == covered.len(),
        forall|j: int| 0 <= j < fin.len() ==> fin[j],
        forall|j: int| 0 <= j < covered.len() ==> (covered[j] <==> on_chains(cycles, j as usize)),
        peel_order(deps, covered, added),
        added.no_duplicates(),
        forall|j: int| 0 <= j < covered.len() ==> (fin[j] <==> covered[j] || added.contains(j as usize)),
    ensures
        covers_cycles(covered.len(), deps, cycles),
{
    assert forall|c: Seq<usize>| #[trigger] is_cycle(covered.len(), deps, c) implies exists|a: int|
        0 <= a < c.len() && on_chains(cycles, c[a]) by {
        if !exists|a: int| 0 <= a < c.len() && on_chains(cycles, c[a]) {
            assert forall|m: int| 0 <= m < c.len() implies !covered[#[trigger] c[m] as int] by {
                assert(!on_chains(cycles, c[m]));
            }
            lemma_peeled_acyclic(deps, covered, added, c);
            let m = choose|m: int| 0 <= m < c.len() && !added.contains(#[trigger] c[m]);
            assert(fin[c[m] as int]);
        }
    }
}

/// Traces the cycles among the nodes not marked in `done`, each of which has
/// a dependency that is not marked either. Each chain passes its nodes once;
/// no node lies on two chains; every cycle of the graph passes through a
/// node of some chain.
#[verifier::rlimit(100)]
fn find_cycles(deps: &Vec<Vec<usize>>, done: &Vec<bool>) -> (r: Vec<Vec<usize>>)
    requires
        graph_wf(done@.len(), deps@),
        exists|i: int| 0 <= i < done@.len() && !done@[i],
        forall|i: int| 0 <= i < done@.len() && !done@[i] ==> exists|k: int| 0 <= k < deps@[i]@.len() && !done@[#[trigger] deps@[i]@[k] as int],
    ensures
        r@.len() > 0,
        forall|c: int| 0 <= c < r@.len() ==> is_simple_cycle(done@.len(), deps@, #[trigger] r@[c]@),
        disjoint_chains(r@),
        covers_cycles(done@.len(), deps@, r@),
{
    let n = done.len();
    let mut covered: Vec<bool> = Vec::new();
    while covered.len() < n
        invariant
            covered@.len() <= n,
            forall|j: int| 0 <= j < covered@.len() ==> !covered@[j],
        decreases n - covered@.len(),
    {
        covered.push(false);
    }
    let mut cycles: Vec<Vec<usize>> = Vec::new();
    loop
        invariant
            n == done@.len(),
            covered@.len() == n,
            graph_wf(n as nat, deps@),
            forall|i: int| 0 <= i < n && !done@[i] ==> exists|k: int| 0 <= k < deps@[i]@.len() && !done@[#[trigger] deps@[i]@[k] as int],
            exists|i: int| 0 <= i < n && !done@[i],
            forall|c: int| 0 <= c < cycles@.len() ==> is_simple_cycle(n as nat, deps@, #[trigger] cycles@[c]@),
            disjoint_chains(cycles@),
            forall|j: int| 0 <= j < n ==> (covered@[j] <==> on_chains(cycles@, j as usize)),
            cycles@.len() == 0 ==> forall|j: int| 0 <= j < n ==> !covered@[j],
        ensures
            cycles@.len() > 0,
            forall|c: int| 0 <= c < cycles@.len() ==> is_simple_cycle(n as nat, deps@, #[trigger] cycles@[c]@),
            disjoint_chains(cycles@),
            covers_cycles(n as nat, deps@, cycles@),
        decreases count_unmarked(covered@),
    {
        let (fin, Ghost(added)) = peel(deps, &covered);
        proof {
            if cycles@.len() == 0 {
                lemma_first_round_stuck(deps@, done@, covered@, fin@, added);
            }
        }
        match first_unmarked(&fin) {
            None => {
                proof {
                    lemma_all_peeled_covers(deps@, cycles@, covered@, fin@, added);
                }
                break;
            },
            Some(s) => {
                let chain = walk(deps, &fin, s);
                let ghost old_cycles = cycles@;
                let ghost old_covered = covered@;
                proof {
                    assert forall|b: int| 0 <= b < chain@.len() - 1 implies !on_chains(old_cycles, #[trigger] chain@[b]) by {
                        let x = chain@[b];
                        assert(!fin@[x as int]);
                        assert(!covered@[x as int]);
                        assert((x as int) as usize == x);
                    }
                    assert(!fin@[chain@[0] as int]);
                }
                mark_chain(&mut covered, &chain);
                proof {
                    lemma_add_chain(n as nat, deps@, old_cycles, chain, covered@, old_covered);
                }
                cycles.push(chain);
            },
        }
    }
    cycles
}

/// The cycle that a walk closes by stepping from its last node to
/// `current`, a node it passed before.
fn close_cycle(deps: &Vec<Vec<usize>>, done: &Vec<bool>, path: &Vec<usize>, current: usize) -> (r: Vec<usize>)
    requires
        graph_wf(done@.len(), deps@),
        path@.no_duplicates(),
        path@.contains(current),
        forall|m: int| 0 <= m < path@.len() ==> #[trigger] path@[m] < done@.len() && !done@[path@[m] as int],
        forall|m: int| 0 <= m < path@.len() - 1 ==> deps@[#[trigger] path@[m] as int]@.contains(path@[m + 1]),
        deps@[path@.last() as int]@.contains(current),
    ensures
        is_simple_cycle(done@.len(), deps@, r@),
        forall|m: int| 0 <= m < r@.len() ==> !done@[#[trigger] r@[m] as int],
{
    let mut q: usize = 0;
    let len = path.len();
    while path[q] != current
        invariant
            len == path@.len(),
            q < path@.len(),
            path@.contains(current),
            forall|m: int| 0 <= m < q ==> path@[m] != current,
        decreases path@.len() - q,
    {
        proof {
            let m = choose|m: int| 0 <= m < path@.len() && path@[m] == current;
            assert(m > q);
        }
        q += 1;
    }
    let mut chain: Vec<usize> = Vec::new();
    let mut m: usize = q;
    while m < path.len()
        invariant
            q <= m <= path@.len(),
            chain@ =~= path@.subrange(q as int, m as int),
        decreases path@.len() - m,
    {
        chain.push(path[m]);
        m += 1;
    }
    chain.push(current);
    proof {
        assert(chain@.drop_last() =~= path@.subrange(q as int, path@.len() as int));
        assert forall|a: int, b: int| 0 <= a < b < chain@.drop_last().len() implies chain@.drop_last()[a] != chain@.drop_last()[b] by {
            assert(chain@.drop_last()[a] == path@[q + a] && chain@.drop_last()[b] == path@[q + b]);
        }
        assert forall|k: int| 0 <= k < chain@.len() - 1 implies deps@[#[trigger] chain@[k] as int]@.contains(chain@[k + 1]) by {
            if k < chain@.len() - 2 {
                assert(chain@[k] == path@[q + k] && chain@[k + 1] == path@[q + k + 1]);
            } else {
                assert(chain@[k] == path@.last());
            }
        }
        assert forall|a: int| 0 <= a < chain@.len() implies !done@[#[trigger] chain@[a] as int] && chain@[a] < done@.len() by {
            if a < chain@.len() - 1 {
                assert(chain@[a] == path@[q + a]);
            }
        }
    }
    chain
}

/// How many entries of `s` are unmarked.
spec fn count_unmarked(s: Seq<bool>) -> nat
    decreases s.len(),
{
    if s.len() == 0 {
        0
    } else {
        count_unmarked(s.drop_last()) + if s.last() {
            0nat
        } else {
            1nat
        }
    }
}

/// Marking entry `i` lowers the count by one if it was unmarked.
proof fn lemma_count_mark(s: Seq<bool>, i: int)
    requires
        0 <= i < s.len(),
    ensures
        count_unmarked(s.update(i, true)) == count_unmarked(s) - if s[i] {
            0nat
        } else {
            1nat
        },
    decreases s.len(),
{
    let t = s.update(i, true);
    if i < s.len() - 1 {
        assert(t.drop_last() =~= s.drop_last().update(i, true));
        lemma_count_mark(s.drop_last(), i);
    } else {
        assert(t.drop_last() =~= s.drop_last());
    }
}

/// Marks the nodes of `chain`, at least one of which was unmarked.
fn mark_chain(covered: &mut Vec<bool>, chain: &Vec<usize>)
    requires
        chain@.len() >= 2,
        forall|b: int| 0 <= b < chain@.len() ==> #[trigger] chain@[b] < old(covered)@.len(),
        !old(covered)@[chain@[0] as int],
    ensures
        final(covered)@.len() == old(covered)@.len(),
        forall|j: int| 0 <= j < old(covered)@.len() ==> (final(covered)@[j] <==> old(covered)@[j] || exists|b: int|
            0 <= b < chain@.len() - 1 && #[trigger] chain@[b] == j as usize),
        count_unmarked(final(covered)@) < count_unmarked(old(covered)@),
{
    let len = chain.len();
    let clen = covered.len();
    let mut m: usize = 0;
    while m + 1 < len
        invariant
            clen == covered@.len(),
            len == chain@.len(),
            len >= 2,
            m + 1 <= len,
            covered@.len() == old(covered)@.len(),
            forall|b: int| 0 <= b < chain@.len() ==> #[trigger] chain@[b] < old(covered)@.len(),
            !old(covered)@[chain@[0] as int],
            forall|j: int| 0 <= j < old(covered)@.len() ==> (covered@[j] <==> old(covered)@[j] || exists|b: int|
                0 <= b < m && #[trigger] chain@[b] == j as usize),
            m == 0 ==> covered@ == old(covered)@,
            m > 0 ==> count_unmarked(covered@) < count_unmarked(old(covered)@),
        decreases len - m,
    {
        let x = chain[m];
        let ghost before = covered@;
        proof {
            lemma_count_mark(before, x as int);
        }
        covered.set(x, true);
        proof {
            assert(covered@ == before.update(x as int, true));
            assert forall|j: int| 0 <= j < old(covered)@.len() implies (covered@[j] <==> old(covered)@[j] || exists|b: int|
                0 <= b < m + 1 && #[trigger] chain@[b] == j as usize) by {
                if j != x as int && exists|b: int| 0 <= b < m + 1 && #[trigger] chain@[b] == j as usize {
                    let b = choose|b: int| 0 <= b < m + 1 && #[trigger] chain@[b] == j as usize;
                    assert(b < m);
                }
                if j == x as int {
                    assert(chain@[m as int] == j as usize);
                }
            }
        }
        m += 1;
    }
}

/// After a new chain whose nodes lay on no earlier chain, the chains stay
/// simple and disjoint, and the marks still tell the nodes on them.
proof fn lemma_add_chain(
    n: nat,
    deps: Seq<Vec<usize>>,
    old_cycles: Seq<Vec<usize>>,
    chain: Vec<usize>,
    covered: Seq<bool>,
    old_covered: Seq<bool>,
)
    requires
        covered.len() == n,
        old_covered.len() == n,
        forall|c: int| 0 <= c < old_cycles.len() ==> is_simple_cycle(n, deps, #[trigger] old_cycles[c]@),
        disjoint_chains(old_cycles),
        is_simple_cycle(n, deps, chain@),
        forall|b: int| 0 <= b < chain@.len() - 1 ==> !on_chains(old_cycles, #[trigger] chain@[b]),
        forall|j: int| 0 <= j < n ==> (old_covered[j] <==> on_chains(old_cycles, j as usize)),
        forall|j: int| 0 <= j < n ==> (covered[j] <==> old_covered[j] || exists|b: int|
            0 <= b < chain@.len() - 1 && #[trigger] chain@[b] == j as usize),
    ensures
        forall|c: int| 0 <= c < old_cycles.push(chain).len() ==> is_simple_cycle(n, deps, #[trigger] old_cycles.push(chain)[c]@),
        disjoint_chains(old_cycles.push(chain)),
        forall|j: int| 0 <= j < n ==> (covered[j] <==> on_chains(old_cycles.push(chain), j as usize)),
{
    let nc = old_cycles.push(chain);
    let len = chain@.len();
    assert(nc[old_cycles.len() as int] == chain);
    assert forall|c: int| 0 <= c < nc.len() implies is_simple_cycle(n, deps, #[trigger] nc[c]@) by {
        if c < old_cycles.len() {
            assert(nc[c] == old_cycles[c]);
        }
    }
    assert forall|x: int, y: int, a: int, b: int|
        0 <= x < nc.len() && 0 <= y < nc.len() && x != y && 0 <= a < nc[x]@.len() - 1 && 0 <= b < nc[y]@.len() - 1
            implies #[trigger] nc[x]@[a] != #[trigger] nc[y]@[b] by {
        if x == old_cycles.len() {
            assert(nc[y] == old_cycles[y]);
            assert(!on_chains(old_cycles, chain@[a]));
        } else if y == old_cycles.len() {
            assert(nc[x] == old_cycles[x]);
            assert(!on_chains(old_cycles, chain@[b]));
        } else {
            assert(nc[x] == old_cycles[x]);
            assert(nc[y] == old_cycles[y]);
        }
    }
    assert forall|j: int| 0 <= j < n implies (covered[j] <==> on_chains(nc, j as usize)) by {
        if on_chains(nc, j as usize) {
            let (x, b) = choose|x: int, b: int| 0 <= x < nc.len() && 0 <= b < nc[x]@.len() - 1 && #[trigger] nc[x]@[b] == j as usize;
            if x < old_cycles.len() {
                assert(nc[x] == old_cycles[x]);
                assert(on_chains(old_cycles, j as usize));
            }
        }
        if old_covered[j] {
            let (x, b) = choose|x: int, b: int| 0 <= x < old_cycles.len() && 0 <= b < old_cycles[x]@.len() - 1 && #[trigger] old_cycles[x]@[b] == j as usize;
            assert(nc[x] == old_cycles[x]);
        }
        if exists|b: int| 0 <= b < len - 1 && #[trigger] chain@[b] == j as usize {
            let b = choose|b: int| 0 <= b < len - 1 && #[trigger] chain@[b] == j as usize;
            assert(nc[old_cycles.len() as int]@[b] == j as usize);
        }
    }
}

/// Follows the first not-done dependency from `start` until it reaches a node
/// of the walk again, and gives the cycle from there: a simple cycle of nodes
/// that are not done.
#[verifier::rlimit(100)]
fn walk(deps: &Vec<Vec<usize>>, done: &Vec<bool>, start: usize) -> (r: Vec<usize>)
    requires
        graph_wf(done@.len(), deps@),
        start < done@.len(),
        !done@[start as int],
        forall|i: int| 0 <= i < done@.len() && !done@[i] ==> exists|k: int| 0 <= k < deps@[i]@.len() && !done@[#[trigger] deps@[i]@[k] as int],
    ensures
        is_simple_cycle(done@.len(), deps@, r@),
        forall|m: int| 0 <= m < r@.len() ==> !done@[#[trigger] r@[m] as int],
{
    let n = done.len();
    let mut on_path: Vec<bool> = Vec::new();
    while on_path.len() < n
        invariant
            on_path@.len() <= n,
            forall|j: int| 0 <= j < on_path@.len() ==> !on_path@[j],
        decreases n - on_path@.len(),
    {
        on_path.push(false);
    }
    let mut path: Vec<usize> = Vec::new();
    let mut current = start;
    loop
        invariant
            n == done@.len(),
            on_path@.len() == n,
            graph_wf(n as nat, deps@),
            forall|i: int| 0 <= i < n && !done@[i] ==> exists|k: int| 0 <= k < deps@[i]@.len() && !done@[#[trigger] deps@[i]@[k] as int],
            current < n,
            !done@[current as int],
            path@.no_duplicates(),
            path@.len() <= n,
            forall|m: int| 0 <= m < path@.len() ==> #[trigger] path@[m] < n && !done@[path@[m] as int],
            forall|j: int| 0 <= j < n ==> (on_path@[j] <==> path@.contains(j as usize)),
            forall|m: int| 0 <= m < path@.len() - 1 ==> deps@[#[trigger] path@[m] as int]@.contains(path@[m + 1]),
            path@.len() > 0 ==> deps@[path@.last() as int]@.contains(current),
        decreases n - path@.len(),
    {
        if on_path[current] {
            return close_cycle(deps, done, &path, current);
        }
        let k = first_open_dep(&deps[current], done);
        proof {
            assert(!path@.contains(current));
            assert(path@.push(current).no_duplicates());
            lemma_distinct_bounded(path@.push(current), n as nat);
        }
        let ghost old_path = path@;
        path.push(current);
        on_path.set(current, true);
        proof {
            assert forall|j: int| 0 <= j < n implies (on_path@[j] <==> path@.contains(j as usize)) by {
                if j == current as int {
                    assert(path@[old_path.len() as int] == current);
                } else if path@.contains(j as usize) {
                    let m = choose|m: int| 0 <= m < path@.len() && path@[m] == j as usize;
                    assert(old_path[m] == j as usize);
                } else if old_path.contains(j as usize) {
                    let m = choose|m: int| 0 <= m < old_path.len() && old_path[m] == j as usize;
                    assert(path@[m] == j as usize);
                }
            }
        }
        current = deps[current][k];
    }
}

/// The position of a dependency that is not done.
fn first_open_dep(deps: &Vec<usize>, done: &Vec<bool>) -> (k: usize)
    requires
        forall|m: int| 0 <= m < deps@.len() ==> #[trigger] deps@[m] < done@.len(),
        exists|m: int| 0 <= m < deps@.len() && !done@[#[trigger] deps@[m] as int],
    ensures
        k < deps@.len(),
        !done@[deps@[k as int] as int],
{
    let mut k: usize = 0;
    let len = deps.len();
    while done[deps[k]]
        invariant
            len == deps@.len(),
            k < deps@.len(),
            forall|m: int| 0 <= m < deps@.len() ==> #[trigger] deps@[m] < done@.len(),
            exists|m: int| k <= m < deps@.len() && !done@[#[trigger] deps@[m] as int],
        decreases deps@.len() - k,
    {
        proof {
            let m = choose|m: int| k <= m < deps@.len() && !done@[#[trigger] deps@[m] as int];
            assert(m != k);
        }
        k += 1;
    }
    k
}

/// Distinct nodes below `n` number at most `n`.
pub(crate) proof fn lemma_distinct_bounded(s: Seq<usize>, n: nat)
    requires
        s.no_duplicates(),
        forall|m: int| 0 <= m < s.len() ==> #[trigger] s[m] < n,
    ensures
        s.len() <= n,
{
    let t = s.map_values(|u: usize| u as int);
    assert(t.no_duplicates()) by {
        assert forall|a: int, b: int| 0 <= a < t.len() && 0 <= b < t.len() && a != b implies t[a] != t[b] by {
            assert(s[a] != s[b]);
        }
    }
    t.unique_seq_to_set();
    vstd::set_lib::lemma_int_range(0, n as int);
    assert(t.to_set().subset_of(vstd::set_lib::set_int_range(0, n as int))) by {
        assert forall|x: int| t.to_set().contains(x) implies vstd::set_lib::set_int_range(0, n as int).contains(x) by {
            let k = choose|k: int| 0 <= k < t.len() && t[k] == x;
            assert(s[k] < n);
        }
    }
    vstd::set_lib::lemma_len_subset(t.to_set(), vstd::set_lib::set_int_range(0, n as int));
}

} // verus!
