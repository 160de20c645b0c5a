//! Dependency-first ordering of a graph whose nodes are numbered `0..n`.
//!
//! The graph is an adjacency list: entry `u` lists the nodes that `u` needs
//! before it. The search is depth first with an explicit stack, so a long
//! chain of dependencies costs heap, not call depth.

use rustc_hash::{FxBuildHasher, FxHashSet};
use vstd::prelude::*;

verus! {

/// The hasher builder of the `rustc_hash` crate, carried as an opaque type.
#[verifier::external_type_specification]
#[verifier::external_body]
pub struct ExFxBuildHasher(FxBuildHasher);

/// Calls `HashSet::insert` on a set of node numbers hashed by `FxBuildHasher`.
/// Afterwards the set holds what it held before and `node`.
#[verifier::external_body]
fn mark_insert(marks: &mut FxHashSet<usize>, node: usize)
    ensures
        final(marks)@ == old(marks)@.insert(node),
{
    marks.insert(node);
}

/// Calls `HashSet::remove` on a set of node numbers hashed by `FxBuildHasher`.
/// Afterwards the set holds what it held before, without `node`.
#[verifier::external_body]
fn mark_remove(marks: &mut FxHashSet<usize>, node: usize)
    ensures
        final(marks)@ == old(marks)@.remove(node),
{
    marks.remove(&node);
}

/// Calls `HashSet::contains` on a set of node numbers hashed by
/// `FxBuildHasher`: whether the set holds `node`.
#[verifier::external_body]
fn mark_contains(marks: &FxHashSet<usize>, node: usize) -> (held: bool)
    ensures
        held == marks@.contains(node),
{
    marks.contains(&node)
}

/// The adjacency list as a sequence of sequences.
pub open spec fn adjacency(adj: &Vec<Vec<usize>>) -> Seq<Seq<usize>> {
    Seq::new(adj@.len(), |u: int| adj@[u]@)
}

/// Every listed dependency is a node of the graph.
pub open spec fn well_linked(adj: Seq<Seq<usize>>) -> bool {
    forall|u: int, k: int|
        0 <= u < adj.len() && 0 <= k < adj[u].len() ==> (#[trigger] adj[u][k]) < adj.len()
}

/// `v` stands in `order` before position `p`.
pub open spec fn earlier(order: Seq<usize>, p: int, v: usize) -> bool {
    exists|q: int| 0 <= q < p && q < order.len() && order[q] == v
}

/// Every node of `order` comes after all the nodes it depends on.
pub open spec fn dependencies_first(adj: Seq<Seq<usize>>, order: Seq<usize>) -> bool {
    forall|p: int, k: int|
        0 <= p < order.len() && 0 <= k < adj[order[p] as int].len() ==> earlier(
            order,
            p,
            #[trigger] adj[order[p] as int][k],
        )
}

/// `order` lists nodes of the graph, none twice, each after its dependencies.
pub open spec fn is_partial_order(adj: Seq<Seq<usize>>, order: Seq<usize>) -> bool {
    &&& order.no_duplicates()
    &&& forall|p: int| 0 <= p < order.len() ==> (#[trigger] order[p]) < adj.len()
    &&& dependencies_first(adj, order)
}

/// `order` lists every node of the graph once, each after its dependencies.
pub open spec fn is_topological_order(adj: Seq<Seq<usize>>, order: Seq<usize>) -> bool {
    &&& is_partial_order(adj, order)
    &&& order.len() == adj.len()
}

/// `walk` follows an edge of the graph at every step.
pub open spec fn is_walk(adj: Seq<Seq<usize>>, walk: Seq<usize>) -> bool {
    forall|t: int|
        0 <= t < walk.len() - 1 ==> (#[trigger] walk[t]) < adj.len() && adj[walk[t] as int].contains(
            walk[t + 1],
        )
}

/// `cycle` is a walk of at least one edge that ends where it starts.
pub open spec fn is_cycle(adj: Seq<Seq<usize>>, cycle: Seq<usize>) -> bool {
    &&& cycle.len() >= 2
    &&& cycle[0] == cycle.last()
    &&& is_walk(adj, cycle)
}

/// `cycle` is a cycle that passes through no node twice.
pub open spec fn is_simple_cycle(adj: Seq<Seq<usize>>, cycle: Seq<usize>) -> bool {
    &&& is_cycle(adj, cycle)
    &&& forall|s: int, t: int| 0 <= s < t < cycle.len() - 1 ==> cycle[s] != cycle[t]
}

/// The graph has no cycle.
pub open spec fn acyclic(adj: Seq<Seq<usize>>) -> bool {
    forall|cycle: Seq<usize>| !is_cycle(adj, cycle)
}

/// A sequence of distinct numbers below `n` has at most `n` entries.
pub proof fn lemma_distinct_below(s: Seq<usize>, n: nat)
    requires
        s.no_duplicates(),
        forall|i: int| 0 <= i < s.len() ==> s[i] < n,
    ensures
        s.len() <= n,
    decreases n,
{
    if n == 0 {
        if s.len() > 0 {
            assert(s[0] < n);
        }
    } else if exists|i: int| 0 <= i < s.len() && s[i] == n - 1 {
        let i = choose|i: int| 0 <= i < s.len() && s[i] == n - 1;
        let rest = s.remove(i);
        assert forall|a: int| 0 <= a < rest.len() implies rest[a] < n - 1 by {
            if a < i {
                assert(rest[a] == s[a]);
            } else {
                assert(rest[a] == s[a + 1]);
            }
        }
        assert forall|a: int, b: int| 0 <= a < rest.len() && 0 <= b < rest.len() && a != b implies rest[a]
            != rest[b] by {
            let sa = if a < i { a } else { a + 1 };
            let sb = if b < i { b } else { b + 1 };
            assert(rest[a] == s[sa]);
            assert(rest[b] == s[sb]);
        }
        lemma_distinct_below(rest, (n - 1) as nat);
    } else {
        assert forall|a: int| 0 <= a < s.len() implies s[a] < n - 1 by {
            assert(s[a] < n);
        }
        lemma_distinct_below(s, (n - 1) as nat);
    }
}

/// In a dependency-first order, every walk ends earlier than it starts.
proof fn lemma_walk_descends(adj: Seq<Seq<usize>>, order: Seq<usize>, walk: Seq<usize>, p: int)
    requires
        is_partial_order(adj, order),
        is_walk(adj, walk),
        walk.len() >= 2,
        0 <= p < order.len(),
        order[p] == walk[0],
    ensures
        earlier(order, p, walk.last()),
    decreases walk.len(),
{
    let u = walk[0];
    let v = walk[1];
    assert(adj[u as int].contains(v));
    let k = choose|k: int| 0 <= k < adj[u as int].len() && adj[u as int][k] == v;
    assert(earlier(order, p, adj[order[p] as int][k]));
    let q = choose|q: int| 0 <= q < p && q < order.len() && order[q] == v;
    if walk.len() > 2 {
        let rest = walk.skip(1);
        assert forall|t: int| 0 <= t < rest.len() - 1 implies (#[trigger] rest[t]) < adj.len()
            && adj[rest[t] as int].contains(rest[t + 1]) by {
            assert(rest[t] == walk[t + 1]);
            assert(rest[t + 1] == walk[t + 2]);
        }
        lemma_walk_descends(adj, order, rest, q);
        assert(rest.last() == walk.last());
        let r = choose|r: int| 0 <= r < q && r < order.len() && order[r] == rest.last();
        assert(0 <= r < p && order[r] == walk.last());
    } else {
        assert(walk.last() == v);
    }
}

/// A graph all of whose nodes stand in a dependency-first order has no cycle.
pub proof fn lemma_ordered_is_acyclic(adj: Seq<Seq<usize>>, order: Seq<usize>)
    requires
        is_topological_order(adj, order),
    ensures
        acyclic(adj),
{
    assert forall|cycle: Seq<usize>| !is_cycle(adj, cycle) by {
        if is_cycle(adj, cycle) {
            let start = cycle[0];
            assert(start < adj.len());
            lemma_all_present(adj.len() as nat, order, start);
            let p = choose|p: int| 0 <= p < order.len() && order[p] == start;
            lemma_walk_descends(adj, order, cycle, p);
            let q = choose|q: int| 0 <= q < p && q < order.len() && order[q] == cycle.last();
            assert(order[q] == order[p]);
        }
    }
}

/// A sequence of `n` distinct numbers below `n` holds every number below `n`.
pub proof fn lemma_all_present(n: nat, s: Seq<usize>, x: usize)
    requires
        s.no_duplicates(),
        forall|i: int| 0 <= i < s.len() ==> s[i] < n,
        s.len() == n,
        x < n,
    ensures
        exists|p: int| 0 <= p < s.len() && s[p] == x,
{
    if !(exists|p: int| 0 <= p < s.len() && s[p] == x) {
        let longer = s.push(x);
        assert forall|a: int, b: int| 0 <= a < longer.len() && 0 <= b < longer.len() && a
            != b implies longer[a] != longer[b] by {
            if a < s.len() && b < s.len() {
                assert(s[a] != s[b]);
            }
        }
        lemma_distinct_below(longer, n);
    }
}

/// What holds of the finished nodes between two steps of the search: `sorted`
/// lists exactly the nodes of `visited`, each after its dependencies.
spec fn finished_ok(adj: Seq<Seq<usize>>, sorted: Seq<usize>, visited: Set<usize>) -> bool {
    &&& is_partial_order(adj, sorted)
    &&& forall|x: usize| visited.contains(x) <==> sorted.contains(x)
}

/// The nodes of the search path, outermost first.
spec fn path_nodes(stack: Seq<(usize, usize)>) -> Seq<usize> {
    Seq::new(stack.len(), |t: int| stack[t].0)
}

/// How the search path hangs together. Each entry is a node with the number
/// of its dependencies already looked at; no node stands on the path twice,
/// and the dependency looked at last is the next node on the path.
spec fn path_linked(adj: Seq<Seq<usize>>, stack: Seq<(usize, usize)>) -> bool {
    &&& forall|t: int|
        0 <= t < stack.len() ==> (#[trigger] stack[t]).0 < adj.len() && stack[t].1
            <= adj[stack[t].0 as int].len()
    &&& forall|s: int, t: int| 0 <= s < t < stack.len() ==> stack[s].0 != stack[t].0
    &&& forall|t: int|
        0 <= t < stack.len() - 1 ==> (#[trigger] stack[t]).1 >= 1 && adj[stack[t].0 as int][stack[t].1
            - 1] == stack[t + 1].0
}

/// How the search path relates to the two sets of marks: `visiting` holds
/// exactly the nodes of the path, none of them is finished, and every
/// dependency already looked at is finished, but for the one that leads to
/// the next node on the path.
spec fn path_marked(
    adj: Seq<Seq<usize>>,
    stack: Seq<(usize, usize)>,
    visiting: Set<usize>,
    visited: Set<usize>,
) -> bool {
    &&& forall|x: usize| visiting.contains(x) <==> path_nodes(stack).contains(x)
    &&& forall|t: int| 0 <= t < stack.len() ==> !visited.contains((#[trigger] stack[t]).0)
    &&& forall|t: int, k: int|
        0 <= t < stack.len() && 0 <= k < stack[t].1 && !(t < stack.len() - 1 && k == stack[t].1
            - 1) ==> visited.contains(#[trigger] adj[stack[t].0 as int][k])
}

/// Finished nodes and path nodes together are distinct nodes of the graph,
/// so they are no more than the graph has.
proof fn lemma_room_left(
    adj: Seq<Seq<usize>>,
    sorted: Seq<usize>,
    visited: Set<usize>,
    stack: Seq<(usize, usize)>,
    visiting: Set<usize>,
)
    requires
        finished_ok(adj, sorted, visited),
        path_linked(adj, stack),
        path_marked(adj, stack, visiting, visited),
    ensures
        sorted.len() + stack.len() <= adj.len(),
{
    let all = sorted + path_nodes(stack);
    assert forall|a: int, b: int| 0 <= a < all.len() && 0 <= b < all.len() && a != b implies all[a]
        != all[b] by {
        if a < sorted.len() && b < sorted.len() {
        } else if a >= sorted.len() && b >= sorted.len() {
            let ta = a - sorted.len();
            let tb = b - sorted.len();
            assert(all[a] == stack[ta].0);
            assert(all[b] == stack[tb].0);
        } else {
            let (lo, hi) = if a < b { (a, b) } else { (b, a) };
            let t = hi - sorted.len();
            assert(all[hi] == stack[t].0);
            assert(all[lo] == sorted[lo]);
            assert(sorted.contains(sorted[lo]));
            assert(!visited.contains(stack[t].0));
        }
    }
    assert forall|i: int| 0 <= i < all.len() implies all[i] < adj.len() by {
        if i < sorted.len() {
            assert(all[i] == sorted[i]);
        } else {
            assert(all[i] == stack[i - sorted.len()].0);
        }
    }
    lemma_distinct_below(all, adj.len() as nat);
}

/// A node all of whose dependencies are finished leaves the path and is
/// appended to the order.
proof fn lemma_leave(
    adj: Seq<Seq<usize>>,
    stack: Seq<(usize, usize)>,
    sorted: Seq<usize>,
    visited: Set<usize>,
    visiting: Set<usize>,
)
    requires
        well_linked(adj),
        finished_ok(adj, sorted, visited),
        path_linked(adj, stack),
        path_marked(adj, stack, visiting, visited),
        stack.len() > 0,
        stack.last().1 == adj[stack.last().0 as int].len(),
    ensures
        finished_ok(adj, sorted.push(stack.last().0), visited.insert(stack.last().0)),
        path_linked(adj, stack.drop_last()),
        path_marked(
            adj,
            stack.drop_last(),
            visiting.remove(stack.last().0),
            visited.insert(stack.last().0),
        ),
{
    let top = stack.len() - 1;
    let node = stack[top].0;
    let rest = stack.drop_last();
    let order = sorted.push(node);
    let done = visited.insert(node);
    let open = visiting.remove(node);
    assert(!visited.contains(stack[top].0));
    assert(!sorted.contains(node));
    // the order stays free of duplicates and inside the graph
    assert forall|a: int, b: int| 0 <= a < order.len() && 0 <= b < order.len() && a != b implies order[a]
        != order[b] by {
        if a < sorted.len() && b < sorted.len() {
        } else if a < sorted.len() {
            assert(sorted.contains(sorted[a]));
        } else if b < sorted.len() {
            assert(sorted.contains(sorted[b]));
        }
    }
    assert forall|p: int| 0 <= p < order.len() implies (#[trigger] order[p]) < adj.len() by {
        if p < sorted.len() {
            assert(order[p] == sorted[p]);
        }
    }
    assert forall|p: int, k: int|
        0 <= p < order.len() && 0 <= k < adj[order[p] as int].len() implies earlier(
        order,
        p,
        #[trigger] adj[order[p] as int][k],
    ) by {
        let v = adj[order[p] as int][k];
        if p < sorted.len() {
            assert(order[p] == sorted[p]);
            assert(earlier(sorted, p, adj[sorted[p] as int][k]));
            let q = choose|q: int| 0 <= q < p && q < sorted.len() && sorted[q] == v;
            assert(order[q] == v);
        } else {
            assert(order[p] == node);
            assert(visited.contains(adj[stack[top].0 as int][k]));
            assert(sorted.contains(v));
            let q = choose|q: int| 0 <= q < sorted.len() && sorted[q] == v;
            assert(order[q] == v);
        }
    }
    assert forall|x: usize| done.contains(x) <==> order.contains(x) by {
        if done.contains(x) {
            if x == node {
                assert(order[sorted.len() as int] == node);
            } else {
                assert(sorted.contains(x));
                let q = choose|q: int| 0 <= q < sorted.len() && sorted[q] == x;
                assert(order[q] == x);
            }
        }
        if order.contains(x) {
            let q = choose|q: int| 0 <= q < order.len() && order[q] == x;
            if q < sorted.len() {
                assert(sorted[q] == x);
                assert(sorted.contains(x));
            }
        }
    }
    // the shorter path
    assert forall|t: int| 0 <= t < rest.len() implies (#[trigger] rest[t]).0 < adj.len()
        && rest[t].1 <= adj[rest[t].0 as int].len() by {
        assert(rest[t] == stack[t]);
    }
    assert forall|s: int, t: int| 0 <= s < t < rest.len() implies rest[s].0 != rest[t].0 by {
        assert(rest[s] == stack[s] && rest[t] == stack[t]);
    }
    assert forall|t: int| 0 <= t < rest.len() - 1 implies (#[trigger] rest[t]).1 >= 1
        && adj[rest[t].0 as int][rest[t].1 - 1] == rest[t + 1].0 by {
        assert(rest[t] == stack[t] && rest[t + 1] == stack[t + 1]);
    }
    assert forall|x: usize| open.contains(x) <==> path_nodes(rest).contains(x) by {
        if open.contains(x) {
            assert(path_nodes(stack).contains(x));
            let t = choose|t: int| 0 <= t < path_nodes(stack).len() && path_nodes(stack)[t] == x;
            assert(t != top);
            assert(path_nodes(rest)[t] == x);
        }
        if path_nodes(rest).contains(x) {
            let t = choose|t: int| 0 <= t < path_nodes(rest).len() && path_nodes(rest)[t] == x;
            assert(rest[t] == stack[t]);
            assert(path_nodes(stack)[t] == x);
            assert(stack[t].0 != stack[top].0);
        }
    }
    assert forall|t: int| 0 <= t < rest.len() implies !done.contains((#[trigger] rest[t]).0) by {
        assert(rest[t] == stack[t]);
        assert(stack[t].0 != stack[top].0);
    }
    assert forall|t: int, k: int|
        0 <= t < rest.len() && 0 <= k < rest[t].1 && !(t < rest.len() - 1 && k == rest[t].1
            - 1) implies done.contains(#[trigger] adj[rest[t].0 as int][k]) by {
        assert(rest[t] == stack[t]);
        if t == rest.len() - 1 && k == rest[t].1 - 1 {
            assert(adj[stack[t].0 as int][stack[t].1 - 1] == stack[t + 1].0);
        } else {
            assert(visited.contains(adj[stack[t].0 as int][k]));
        }
    }
}

/// The node on top of the path has looked at one more dependency, which is
/// finished already.
proof fn lemma_skip(
    adj: Seq<Seq<usize>>,
    stack: Seq<(usize, usize)>,
    visiting: Set<usize>,
    visited: Set<usize>,
)
    requires
        path_linked(adj, stack),
        path_marked(adj, stack, visiting, visited),
        stack.len() > 0,
        stack.last().1 < adj[stack.last().0 as int].len(),
        stack.last().1 < usize::MAX,
        visited.contains(adj[stack.last().0 as int][stack.last().1 as int]),
    ensures
        path_linked(adj, stack.update(stack.len() - 1, (stack.last().0, (stack.last().1 + 1) as usize))),
        path_marked(
            adj,
            stack.update(stack.len() - 1, (stack.last().0, (stack.last().1 + 1) as usize)),
            visiting,
            visited,
        ),
{
    let top = stack.len() - 1;
    let after = stack.update(top, (stack.last().0, (stack.last().1 + 1) as usize));
    lemma_advance(adj, stack);
    assert(path_nodes(after) =~= path_nodes(stack));
    assert forall|t: int| 0 <= t < after.len() implies !visited.contains((#[trigger] after[t]).0) by {
        assert(after[t].0 == stack[t].0);
    }
    assert forall|t: int, k: int|
        0 <= t < after.len() && 0 <= k < after[t].1 && !(t < after.len() - 1 && k == after[t].1
            - 1) implies visited.contains(#[trigger] adj[after[t].0 as int][k]) by {
        if t < top {
            assert(after[t] == stack[t]);
            assert(visited.contains(adj[stack[t].0 as int][k]));
        } else if k < stack[top].1 {
            assert(visited.contains(adj[stack[top].0 as int][k]));
        }
    }
}

/// Looking at one more dependency of the node on top keeps the path linked.
proof fn lemma_advance(adj: Seq<Seq<usize>>, stack: Seq<(usize, usize)>)
    requires
        path_linked(adj, stack),
        stack.len() > 0,
        stack.last().1 < adj[stack.last().0 as int].len(),
        stack.last().1 < usize::MAX,
    ensures
        path_linked(adj, stack.update(stack.len() - 1, (stack.last().0, (stack.last().1 + 1) as usize))),
{
    let top = stack.len() - 1;
    let after = stack.update(top, (stack.last().0, (stack.last().1 + 1) as usize));
    assert forall|t: int| 0 <= t < after.len() implies (#[trigger] after[t]).0 < adj.len()
        && after[t].1 <= adj[after[t].0 as int].len() by {
        if t < top {
            assert(after[t] == stack[t]);
        }
    }
    assert forall|s: int, t: int| 0 <= s < t < after.len() implies after[s].0 != after[t].0 by {
        assert(after[s].0 == stack[s].0 && after[t].0 == stack[t].0);
    }
    assert forall|t: int| 0 <= t < after.len() - 1 implies (#[trigger] after[t]).1 >= 1
        && adj[after[t].0 as int][after[t].1 - 1] == after[t + 1].0 by {
        assert(after[t] == stack[t]);
        assert(after[t + 1].0 == stack[t + 1].0);
    }
}

/// The node on top of the path has looked at one more dependency, which is
/// neither finished nor on the path: it becomes the new top.
proof fn lemma_enter(
    adj: Seq<Seq<usize>>,
    stack: Seq<(usize, usize)>,
    sorted: Seq<usize>,
    visiting: Set<usize>,
    visited: Set<usize>,
)
    requires
        well_linked(adj),
        finished_ok(adj, sorted, visited),
        path_linked(adj, stack),
        path_marked(adj, stack, visiting, visited),
        stack.len() > 0,
        stack.last().1 < adj[stack.last().0 as int].len(),
        stack.last().1 < usize::MAX,
        !visited.contains(adj[stack.last().0 as int][stack.last().1 as int]),
        !visiting.contains(adj[stack.last().0 as int][stack.last().1 as int]),
    ensures
        ({
            let child = adj[stack.last().0 as int][stack.last().1 as int];
            let after = stack.update(
                stack.len() - 1,
                (stack.last().0, (stack.last().1 + 1) as usize),
            ).push((child, 0));
            &&& path_linked(adj, after)
            &&& path_marked(adj, after, visiting.insert(child), visited)
            &&& sorted.len() + after.len() <= adj.len()
        }),
{
    let top = stack.len() - 1;
    let child = adj[stack[top].0 as int][stack[top].1 as int];
    let mid = stack.update(top, (stack.last().0, (stack.last().1 + 1) as usize));
    let after = mid.push((child, 0usize));
    let open = visiting.insert(child);
    lemma_advance(adj, stack);
    assert(child < adj.len());
    assert forall|t: int| 0 <= t < after.len() implies (#[trigger] after[t]).0 < adj.len()
        && after[t].1 <= adj[after[t].0 as int].len() by {
        if t <= top {
            assert(after[t] == mid[t]);
        }
    }
    assert forall|s: int, t: int| 0 <= s < t < after.len() implies after[s].0 != after[t].0 by {
        assert(after[s] == mid[s]);
        if t <= top {
            assert(after[t] == mid[t]);
        } else {
            assert(path_nodes(stack)[s] == stack[s].0);
            assert(path_nodes(stack).contains(stack[s].0));
        }
    }
    assert forall|t: int| 0 <= t < after.len() - 1 implies (#[trigger] after[t]).1 >= 1
        && adj[after[t].0 as int][after[t].1 - 1] == after[t + 1].0 by {
        assert(after[t] == mid[t]);
        if t < top {
            assert(after[t + 1] == mid[t + 1]);
        }
    }
    assert forall|x: usize| open.contains(x) <==> path_nodes(after).contains(x) by {
        if open.contains(x) {
            if x == child {
                assert(path_nodes(after)[top + 1] == child);
            } else {
                assert(path_nodes(stack).contains(x));
                let t = choose|t: int| 0 <= t < path_nodes(stack).len() && path_nodes(stack)[t] == x;
                assert(path_nodes(after)[t] == x);
            }
        }
        if path_nodes(after).contains(x) {
            let t = choose|t: int| 0 <= t < path_nodes(after).len() && path_nodes(after)[t] == x;
            if t <= top {
                assert(path_nodes(stack)[t] == x);
            }
        }
    }
    assert forall|t: int| 0 <= t < after.len() implies !visited.contains((#[trigger] after[t]).0) by {
        if t <= top {
            assert(after[t].0 == stack[t].0);
        }
    }
    assert forall|t: int, k: int|
        0 <= t < after.len() && 0 <= k < after[t].1 && !(t < after.len() - 1 && k == after[t].1
            - 1) implies visited.contains(#[trigger] adj[after[t].0 as int][k]) by {
        if t < top {
            assert(after[t] == stack[t]);
            assert(visited.contains(adj[stack[t].0 as int][k]));
        } else if t == top {
            assert(after[t] == mid[t]);
            assert(visited.contains(adj[stack[top].0 as int][k]));
        }
    }
    lemma_room_left(adj, sorted, visited, after, open);
}

/// The cycle that an edge from the end of the search path back to `node`
/// closes: the path from the first place where `node` stands to its end, and
/// `node` once more.
fn close_cycle(adj: &Vec<Vec<usize>>, stack: &Vec<(usize, usize)>, node: usize) -> (cycle: Vec<usize>)
    requires
        path_linked(adjacency(adj), stack@),
        stack.len() > 0,
        stack@.last().1 >= 1,
        adjacency(adj)[stack@.last().0 as int][stack@.last().1 - 1] == node,
        path_nodes(stack@).contains(node),
    ensures
        is_simple_cycle(adjacency(adj), cycle@),
        exists|first: int|
            0 <= first < stack.len() && stack[first].0 == node && cycle@ == path_nodes(stack@).skip(
                first,
            ).push(node),
{
    let ghost g = adjacency(adj);
    let ghost at = choose|t: int| 0 <= t < path_nodes(stack@).len() && path_nodes(stack@)[t] == node;
    let mut first: usize = 0;
    while stack[first].0 != node
        invariant
            0 <= first <= at < stack.len(),
            stack[at].0 == node,
        decreases stack.len() - first,
    {
        first = first + 1;
    }
    let mut cycle: Vec<usize> = Vec::new();
    let mut t: usize = first;
    while t < stack.len()
        invariant
            first <= t <= stack.len(),
            cycle.len() == t - first,
            forall|i: int| 0 <= i < cycle.len() ==> cycle[i] == stack[first + i].0,
        decreases stack.len() - t,
    {
        cycle.push(stack[t].0);
        t = t + 1;
    }
    cycle.push(node);
    proof {
        let c = cycle@;
        let top = stack.len() - 1;
        assert(c.len() == stack.len() - first + 1);
        assert(c[0] == stack[first as int].0);
        assert forall|i: int| 0 <= i < c.len() - 1 implies (#[trigger] c[i]) < g.len() && g[c[i] as int].contains(
            c[i + 1],
        ) by {
            let e = stack[first + i];
            assert(c[i] == e.0);
            if first + i < top {
                assert(g[e.0 as int][e.1 - 1] == stack[first + i + 1].0);
                assert(c[i + 1] == stack[first + i + 1].0);
            } else {
                assert(c[i + 1] == node);
                assert(g[e.0 as int][e.1 - 1] == node);
            }
        }
        assert forall|a: int, b: int| 0 <= a < b < c.len() - 1 implies c[a] != c[b] by {
            assert(c[a] == stack[first + a].0);
            assert(c[b] == stack[first + b].0);
        }
        assert(c =~= path_nodes(stack@).skip(first as int).push(node));
    }
    cycle
}

/// Some walk of the graph leads from `from` to `to`. Every node is reached
/// from itself, by the walk that holds it alone.
pub open spec fn reached(adj: Seq<Seq<usize>>, from: usize, to: usize) -> bool {
    exists|walk: Seq<usize>| #[trigger]
        is_walk(adj, walk) && walk.len() > 0 && walk[0] == from && walk.last() == to
}

/// `cycle` is what the search from `start` reports when `path` is its
/// search path and the last node of the path has an edge back to the node
/// at place `first`: the path from that place to its end, and the node at
/// that place once more. The path is a walk from `start` through nodes that
/// are all different.
pub open spec fn closes_path(
    adj: Seq<Seq<usize>>,
    start: usize,
    path: Seq<usize>,
    first: int,
    cycle: Seq<usize>,
) -> bool {
    &&& path.len() > 0
    &&& path[0] == start
    &&& path.no_duplicates()
    &&& is_walk(adj, path)
    &&& 0 <= first < path.len()
    &&& path.last() < adj.len()
    &&& adj[path.last() as int].contains(path[first])
    &&& cycle == path.skip(first).push(path[first])
}

/// `cycle` is the cycle that a search from `start` reports for some search
/// path that an edge leads back into.
pub open spec fn found_from(adj: Seq<Seq<usize>>, start: usize, cycle: Seq<usize>) -> bool {
    exists|path: Seq<usize>, first: int| #[trigger] closes_path(adj, start, path, first, cycle)
}

/// The search path is a walk of the graph through nodes that are all
/// different.
proof fn lemma_path_is_walk(adj: Seq<Seq<usize>>, stack: Seq<(usize, usize)>)
    requires
        path_linked(adj, stack),
    ensures
        is_walk(adj, path_nodes(stack)),
        path_nodes(stack).no_duplicates(),
{
    let path = path_nodes(stack);
    assert forall|t: int| 0 <= t < path.len() - 1 implies (#[trigger] path[t]) < adj.len()
        && adj[path[t] as int].contains(path[t + 1]) by {
        let entry = stack[t];
        assert(path[t] == entry.0);
        assert(path[t + 1] == stack[t + 1].0);
        assert(adj[entry.0 as int][entry.1 - 1] == stack[t + 1].0);
    }
    assert forall|a: int, b: int| 0 <= a < path.len() && 0 <= b < path.len() && a != b implies path[a]
        != path[b] by {
        if a < b {
            assert(stack[a].0 != stack[b].0);
        } else {
            assert(stack[b].0 != stack[a].0);
        }
    }
}

/// Every node of the search path is reached from the node at its start.
proof fn lemma_path_is_reached(adj: Seq<Seq<usize>>, stack: Seq<(usize, usize)>, t: int)
    requires
        path_linked(adj, stack),
        0 <= t < stack.len(),
    ensures
        reached(adj, stack[0].0, stack[t].0),
{
    lemma_path_is_walk(adj, stack);
    let path = path_nodes(stack);
    let walk = path.take(t + 1);
    assert forall|a: int| 0 <= a < walk.len() - 1 implies (#[trigger] walk[a]) < adj.len()
        && adj[walk[a] as int].contains(walk[a + 1]) by {
        assert(walk[a] == path[a]);
        assert(walk[a + 1] == path[a + 1]);
    }
    assert(walk[0] == stack[0].0);
    assert(walk.last() == stack[t].0);
    assert(is_walk(adj, walk) && walk.len() > 0 && walk[0] == stack[0].0 && walk.last() == stack[t].0);
}

/// Finished nodes depend on finished nodes only, so a walk that starts at a
/// finished node ends at one.
proof fn lemma_walk_stays_finished(
    adj: Seq<Seq<usize>>,
    sorted: Seq<usize>,
    visited: Set<usize>,
    walk: Seq<usize>,
)
    requires
        finished_ok(adj, sorted, visited),
        is_walk(adj, walk),
        walk.len() > 0,
        visited.contains(walk[0]),
    ensures
        visited.contains(walk.last()),
    decreases walk.len(),
{
    if walk.len() > 1 {
        let from = walk[0];
        let to = walk[1];
        assert(sorted.contains(from));
        let p = choose|p: int| 0 <= p < sorted.len() && sorted[p] == from;
        assert(adj[from as int].contains(to));
        let k = choose|k: int| 0 <= k < adj[from as int].len() && adj[from as int][k] == to;
        assert(earlier(sorted, p, adj[sorted[p] as int][k]));
        let q = choose|q: int| 0 <= q < p && q < sorted.len() && sorted[q] == to;
        assert(sorted.contains(to));
        let rest = walk.skip(1);
        assert forall|t: int| 0 <= t < rest.len() - 1 implies (#[trigger] rest[t]) < adj.len()
            && adj[rest[t] as int].contains(rest[t + 1]) by {
            assert(rest[t] == walk[t + 1]);
            assert(rest[t + 1] == walk[t + 2]);
        }
        assert(rest[0] == to);
        lemma_walk_stays_finished(adj, sorted, visited, rest);
        assert(rest.last() == walk.last());
    }
}

/// Searches depth first from `start`, which is not yet finished, and appends
/// to `sorted` every node reached for the first time, each after its
/// dependencies. Stops at the first edge that leads back into the search
/// path and returns the cycle it closes: the path from the node met again
/// to its end, and that node once more.
///
/// On success the order that was handed in stands unchanged at the front of
/// the order, `start` is its last entry, and the finished nodes are those
/// that were finished before and those reached from `start`, no others.
fn visit(
    adj: &Vec<Vec<usize>>,
    start: usize,
    visited: &mut FxHashSet<usize>,
    visiting: &mut FxHashSet<usize>,
    sorted: &mut Vec<usize>,
) -> (found: Result<(), Vec<usize>>)
    requires
        well_linked(adjacency(adj)),
        start < adj.len(),
        !old(visited)@.contains(start),
        old(visiting)@ == Set::<usize>::empty(),
        finished_ok(adjacency(adj), old(sorted)@, old(visited)@),
    ensures
        match found {
            Ok(()) => {
                &&& finished_ok(adjacency(adj), final(sorted)@, final(visited)@)
                &&& final(visiting)@ == Set::<usize>::empty()
                &&& old(sorted)@.is_prefix_of(final(sorted)@)
                &&& final(sorted)@.len() > 0
                &&& final(sorted)@.last() == start
                &&& forall|x: usize|
                    final(visited)@.contains(x) <==> old(visited)@.contains(x) || reached(
                        adjacency(adj),
                        start,
                        x,
                    )
            },
            Err(cycle) => {
                &&& is_simple_cycle(adjacency(adj), cycle@)
                &&& found_from(adjacency(adj), start, cycle@)
            },
        },
{
    let ghost g = adjacency(adj);
    let n = adj.len();
    let mut stack: Vec<(usize, usize)> = Vec::new();
    stack.push((start, 0));
    mark_insert(visiting, start);
    proof {
        assert(path_nodes(stack@)[0] == start);
        assert forall|x: usize| visiting@.contains(x) <==> path_nodes(stack@).contains(x) by {
            if path_nodes(stack@).contains(x) {
                let t = choose|t: int| 0 <= t < path_nodes(stack@).len() && path_nodes(stack@)[t] == x;
                assert(x == start);
            }
        }
        lemma_room_left(g, sorted@, visited@, stack@, visiting@);
    }
    while stack.len() > 0
        invariant
            g == adjacency(adj),
            n == adj.len(),
            well_linked(g),
            finished_ok(g, sorted@, visited@),
            path_linked(g, stack@),
            path_marked(g, stack@, visiting@, visited@),
            sorted.len() + stack.len() <= n,
            old(visited)@.subset_of(visited@),
            old(sorted)@.is_prefix_of(sorted@),
            forall|x: usize| visited@.contains(x) ==> old(visited)@.contains(x) || reached(g, start, x),
            stack.len() > 0 ==> stack[0].0 == start,
            stack.len() == 0 ==> visited@.contains(start) && sorted@.len() > 0 && sorted@.last()
                == start,
        decreases
                n - sorted.len(),
                n - sorted.len() - stack.len(),
                adj[stack[stack.len() - 1].0 as int].len() - stack[stack.len() - 1].1,
    {
        let top = stack.len() - 1;
        let (node, next) = stack[top];
        assert(g[node as int] == adj[node as int]@);
        if next == adj[node].len() {
            proof {
                lemma_leave(g, stack@, sorted@, visited@, visiting@);
                lemma_path_is_reached(g, stack@, top as int);
            }
            let ghost order = sorted@;
            stack.pop();
            mark_remove(visiting, node);
            mark_insert(visited, node);
            sorted.push(node);
            proof {
                assert(sorted@.last() == node);
                assert(old(sorted)@ =~= sorted@.subrange(0, old(sorted)@.len() as int)) by {
                    assert(old(sorted)@ =~= order.subrange(0, old(sorted)@.len() as int));
                }
            }
        } else {
            let child = adj[node][next];
            assert(child == g[node as int][next as int]);
            assert(child < n);
            let ghost before = stack@;
            if mark_contains(visiting, child) {
                proof {
                    lemma_advance(g, stack@);
                }
                stack.set(top, (node, next + 1));
                proof {
                    assert(path_nodes(stack@) =~= path_nodes(before));
                }
                let cycle = close_cycle(adj, &stack, child);
                proof {
                    let path = path_nodes(stack@);
                    let first = choose|first: int|
                        0 <= first < stack.len() && stack[first].0 == child && cycle@ == path_nodes(
                            stack@,
                        ).skip(first).push(child);
                    lemma_path_is_walk(g, stack@);
                    assert(path[0] == start);
                    assert(path.last() == node);
                    assert(g[node as int][next as int] == path[first]);
                    assert(closes_path(g, start, path, first, cycle@));
                }
                return Err(cycle);
            } else if mark_contains(visited, child) {
                proof {
                    lemma_skip(g, stack@, visiting@, visited@);
                }
                stack.set(top, (node, next + 1));
            } else {
                proof {
                    lemma_enter(g, stack@, sorted@, visiting@, visited@);
                }
                stack.set(top, (node, next + 1));
                stack.push((child, 0));
                mark_insert(visiting, child);
            }
        }
    }
    proof {
        assert forall|x: usize| !visiting@.contains(x) by {
            if visiting@.contains(x) {
                let t = choose|t: int| 0 <= t < path_nodes(stack@).len() && path_nodes(stack@)[t] == x;
            }
        }
        assert(visiting@ =~= Set::<usize>::empty());
        assert forall|x: usize| reached(g, start, x) implies visited@.contains(x) by {
            let walk = choose|walk: Seq<usize>| #[trigger]
                is_walk(g, walk) && walk.len() > 0 && walk[0] == start && walk.last() == x;
            lemma_walk_stays_finished(g, sorted@, visited@, walk);
        }
    }
    Ok(())
}

/// A sequence of distinct numbers below `n` that holds every number below
/// `n` has exactly `n` entries.
proof fn lemma_full_length(s: Seq<usize>, n: nat)
    requires
        s.no_duplicates(),
        forall|i: int| 0 <= i < s.len() ==> s[i] < n,
        forall|x: usize| x < n ==> s.contains(x),
        n <= usize::MAX,
    ensures
        s.len() == n,
{
    lemma_distinct_below(s, n);
    let place = |x: int| (choose|p: int| 0 <= p < s.len() && s[p] == x) as usize;
    let places = Seq::new(n, place);
    assert forall|x: int| 0 <= x < n implies 0 <= (#[trigger] places[x]) < s.len() && s[places[x] as int]
        == x by {
        assert(s.contains(x as usize));
    }
    assert forall|a: int, b: int| 0 <= a < places.len() && 0 <= b < places.len() && a
        != b implies places[a] != places[b] by {
        assert(s[places[a] as int] == a);
        assert(s[places[b] as int] == b);
    }
    lemma_distinct_below(places, s.len());
}

/// Orders the nodes of a graph so that each comes after the nodes it depends
/// on, or finds a cycle.
///
/// `adj[u]` lists the nodes that `u` depends on. On success the result holds
/// every node once, and each after all of its dependencies. Otherwise the
/// result is a cycle of the graph that passes through no node twice, written
/// with its first node repeated at the end: for some node that the search
/// started from, and the search path from it that an edge led back into, it
/// is the path from the node met again to its end, and that node once more.
/// Success comes exactly when the graph has no cycle.
pub fn dependency_order(adj: &Vec<Vec<usize>>) -> (found: Result<Vec<usize>, Vec<usize>>)
    requires
        well_linked(adjacency(adj)),
    ensures
        match found {
            Ok(order) => is_topological_order(adjacency(adj), order@),
            Err(cycle) => {
                &&& is_simple_cycle(adjacency(adj), cycle@)
                &&& exists|start: usize|
                    start < adj.len() && #[trigger] found_from(adjacency(adj), start, cycle@)
            },
        },
        found.is_ok() <==> acyclic(adjacency(adj)),
{
    let ghost g = adjacency(adj);
    let n = adj.len();
    let mut sorted: Vec<usize> = Vec::new();
    let mut visited: FxHashSet<usize> = FxHashSet::default();
    let mut visiting: FxHashSet<usize> = FxHashSet::default();
    let mut node: usize = 0;
    while node < n
        invariant
            g == adjacency(adj),
            n == adj.len(),
            well_linked(g),
            node <= n,
            finished_ok(g, sorted@, visited@),
            visiting@ == Set::<usize>::empty(),
            forall|x: usize| x < node ==> visited@.contains(x),
        decreases n - node,
    {
        if !mark_contains(&visited, node) {
            let ghost before = visited@;
            match visit(adj, node, &mut visited, &mut visiting, &mut sorted) {
                Ok(()) => {
                    proof {
                        // what was finished stays finished, and the start is finished
                        assert forall|x: usize| x < node + 1 implies visited@.contains(x) by {
                            if x == node {
                                assert(sorted@.contains(sorted@.last()));
                            } else {
                                assert(before.contains(x));
                            }
                        }
                    }
                },
                Err(cycle) => {
                    assert(found_from(g, node, cycle@));
                    return Err(cycle);
                },
            }
        }
        node = node + 1;
    }
    proof {
        lemma_full_length(sorted@, n as nat);
        lemma_ordered_is_acyclic(g, sorted@);
    }
    Ok(sorted)
}

} // verus!
