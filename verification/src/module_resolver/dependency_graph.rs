//! The dependency graph between modules and the order in which to check them.

use super::error::{id_texts, ModuleError, ModuleId};
use super::ordering::{
    adjacency, closes_path, dependency_order, found_from, is_simple_cycle, is_topological_order,
    lemma_all_present, well_linked,
};
use rustc_hash::FxHashMap;
use vstd::prelude::*;

verus! {

/// Type of dependency edge between modules.
#[derive(Debug, Clone, Copy, PartialEq, Eq, Hash, Structural)]
pub enum EdgeKind {
    /// An import used for checking only. Such imports may form circles.
    TypeOnly,
    /// An import of a value, which the importer needs at run time. Such
    /// imports must not form a circle.
    Value,
}

/// An edge in the dependency graph with metadata.
#[derive(Debug)]
pub struct DependencyEdge {
    /// Target module ID
    pub target: ModuleId,
    /// Kind of dependency
    pub kind: EdgeKind,
}

impl View for DependencyEdge {
    type V = (Seq<char>, EdgeKind);

    open spec fn view(&self) -> (Seq<char>, EdgeKind) {
        (self.target@, self.kind)
    }
}

impl Clone for DependencyEdge {
    fn clone(&self) -> (copy: DependencyEdge)
        ensures
            copy@ == self@,
    {
        DependencyEdge { target: self.target.clone(), kind: self.kind }
    }
}

/// The edges of one module, each as the text of its target and its kind.
pub open spec fn edge_views(list: Seq<DependencyEdge>) -> Seq<(Seq<char>, EdgeKind)> {
    list.map_values(|edge: DependencyEdge| edge@)
}

/// The edges handed to `add_module`, each as the text of its target and its kind.
pub open spec fn pair_views(list: Seq<(ModuleId, EdgeKind)>) -> Seq<(Seq<char>, EdgeKind)> {
    list.map_values(|pair: (ModuleId, EdgeKind)| (pair.0@, pair.1))
}

/// The targets of those edges of `list` that have the kind `kind`, in order.
pub open spec fn targets_of_kind(list: Seq<(Seq<char>, EdgeKind)>, kind: EdgeKind) -> Seq<Seq<char>>
    decreases list.len(),
{
    if list.len() == 0 {
        Seq::empty()
    } else if list.last().1 == kind {
        targets_of_kind(list.drop_last(), kind).push(list.last().0)
    } else {
        targets_of_kind(list.drop_last(), kind)
    }
}

/// The edges of a module fall into value edges and type-only edges, each
/// edge into exactly one of the two. The two lists of targets together are
/// as long as the list of edges, and the target of the edge at place `k`
/// stands in the list of its kind, behind the targets of the earlier edges
/// of that kind.
pub proof fn lemma_kinds_partition(list: Seq<(Seq<char>, EdgeKind)>, k: int)
    requires
        0 <= k < list.len(),
    ensures
        targets_of_kind(list, EdgeKind::Value).len() + targets_of_kind(list, EdgeKind::TypeOnly).len()
            == list.len(),
        targets_of_kind(list.take(k), EdgeKind::Value).len() + targets_of_kind(
            list.take(k),
            EdgeKind::TypeOnly,
        ).len() == k,
        ({
            let place = targets_of_kind(list.take(k), list[k].1).len() as int;
            let same = targets_of_kind(list, list[k].1);
            place < same.len() && same[place] == list[k].0
        }),
{
    let kind = list[k].1;
    let before = targets_of_kind(list.take(k), kind);
    let through = targets_of_kind(list.take(k + 1), kind);
    let same = targets_of_kind(list, kind);
    lemma_kinds_count(list);
    lemma_kinds_count(list.take(k));
    lemma_kinds_prefix(list, k + 1, kind);
    assert(list.take(k + 1).drop_last() =~= list.take(k));
    assert(list.take(k + 1).last() == list[k]);
    assert(through == before.push(list[k].0));
    assert(through[before.len() as int] == list[k].0);
    assert(same[before.len() as int] == through[before.len() as int]);
}

/// Every edge is a value edge or a type-only edge, and not both.
proof fn lemma_kinds_count(list: Seq<(Seq<char>, EdgeKind)>)
    ensures
        targets_of_kind(list, EdgeKind::Value).len() + targets_of_kind(list, EdgeKind::TypeOnly).len()
            == list.len(),
    decreases list.len(),
{
    if list.len() > 0 {
        lemma_kinds_count(list.drop_last());
    }
}

/// The targets of one kind among the first `k` edges come first among the
/// targets of that kind among all edges.
proof fn lemma_kinds_prefix(list: Seq<(Seq<char>, EdgeKind)>, k: int, kind: EdgeKind)
    requires
        0 <= k <= list.len(),
    ensures
        targets_of_kind(list.take(k), kind).is_prefix_of(targets_of_kind(list, kind)),
    decreases list.len() - k,
{
    if k < list.len() {
        assert(list.take(k + 1).drop_last() =~= list.take(k));
        lemma_kinds_prefix(list, k + 1, kind);
    } else {
        assert(list.take(k) =~= list);
    }
}

/// A module is among the targets of one kind exactly when an edge of that
/// kind leads to it.
pub proof fn lemma_targets_contain(list: Seq<(Seq<char>, EdgeKind)>, kind: EdgeKind, to: Seq<char>)
    ensures
        targets_of_kind(list, kind).contains(to) <==> list.contains((to, kind)),
    decreases list.len(),
{
    let targets = targets_of_kind(list, kind);
    if list.len() > 0 {
        let front = list.drop_last();
        let shorter = targets_of_kind(front, kind);
        lemma_targets_contain(front, kind, to);
        if targets.contains(to) {
            let p = choose|p: int| 0 <= p < targets.len() && targets[p] == to;
            if list.last().1 == kind && p == shorter.len() {
                assert(list[list.len() - 1] == (to, kind));
            } else {
                assert(shorter[p] == to);
                assert(front.contains((to, kind)));
                let q = choose|q: int| 0 <= q < front.len() && front[q] == (to, kind);
                assert(list[q] == (to, kind));
            }
        }
        if list.contains((to, kind)) {
            let q = choose|q: int| 0 <= q < list.len() && list[q] == (to, kind);
            if q < front.len() {
                assert(front[q] == (to, kind));
                assert(shorter.contains(to));
                let p = choose|p: int| 0 <= p < shorter.len() && shorter[p] == to;
                assert(targets[p] == to);
            } else {
                assert(targets[shorter.len() as int] == to);
            }
        }
    }
}

/// A dependency graph as mathematics: the set of known modules, and for each
/// registered module the sequence of its edges. Modules are named by the text
/// of their identifiers.
pub struct GraphModel {
    pub nodes: Set<Seq<char>>,
    pub edges: Map<Seq<char>, Seq<(Seq<char>, EdgeKind)>>,
}

impl GraphModel {
    /// The graph without modules.
    pub open spec fn empty() -> GraphModel {
        GraphModel { nodes: Set::empty(), edges: Map::empty() }
    }

    /// The graph after the module `id` is registered with the edges
    /// `edges`: the module and every target are known, and the module has
    /// exactly these edges, whatever edges it had before.
    pub open spec fn with_module(self, id: Seq<char>, edges: Seq<(Seq<char>, EdgeKind)>) -> GraphModel {
        GraphModel {
            nodes: Set::new(
                |x: Seq<char>|
                    self.nodes.contains(x) || x == id || exists|k: int|
                        0 <= k < edges.len() && (#[trigger] edges[k]).0 == x,
            ),
            edges: self.edges.insert(id, edges),
        }
    }

    /// Every registered module and every target of an edge is a known module.
    pub open spec fn closed(self) -> bool {
        &&& forall|id: Seq<char>| self.edges.contains_key(id) ==> self.nodes.contains(id)
        &&& forall|id: Seq<char>, k: int|
            self.edges.contains_key(id) && 0 <= k < self.edges[id].len() ==> self.nodes.contains(
                (#[trigger] self.edges[id][k]).0,
            )
    }

    /// The edges registered for `id`; none for a module that was not registered.
    pub open spec fn edges_of(self, id: Seq<char>) -> Seq<(Seq<char>, EdgeKind)> {
        if self.edges.contains_key(id) {
            self.edges[id]
        } else {
            Seq::empty()
        }
    }

    /// `from` imports a value of `to`.
    pub open spec fn value_edge(self, from: Seq<char>, to: Seq<char>) -> bool {
        self.edges.contains_key(from) && self.edges[from].contains((to, EdgeKind::Value))
    }

    /// `order` holds every known module once, and each module after all the
    /// modules whose values it imports.
    pub open spec fn is_dependency_order(self, order: Seq<Seq<char>>) -> bool {
        &&& order.no_duplicates()
        &&& forall|id: Seq<char>| self.nodes.contains(id) <==> order.contains(id)
        &&& forall|p: int, to: Seq<char>|
            0 <= p < order.len() && #[trigger] self.value_edge(order[p], to) ==> exists|q: int|
                0 <= q < p && order[q] == to
    }

    /// `walk` follows a value import at every step.
    pub open spec fn is_value_walk(self, walk: Seq<Seq<char>>) -> bool {
        forall|t: int| 0 <= t < walk.len() - 1 ==> self.value_edge(#[trigger] walk[t], walk[t + 1])
    }

    /// `cycle` follows value imports, over at least one, back to where it starts.
    pub open spec fn is_value_cycle(self, cycle: Seq<Seq<char>>) -> bool {
        &&& cycle.len() >= 2
        &&& cycle[0] == cycle.last()
        &&& self.is_value_walk(cycle)
    }

    /// `cycle` is a cycle of value imports that passes through no module twice.
    pub open spec fn is_simple_value_cycle(self, cycle: Seq<Seq<char>>) -> bool {
        &&& self.is_value_cycle(cycle)
        &&& forall|s: int, t: int| 0 <= s < t < cycle.len() - 1 ==> cycle[s] != cycle[t]
    }

    /// `cycle` is what a search from the module `start` reports when
    /// `path` is its search path and the last module of the path imports a
    /// value of the module at place `first`: the path from that place to
    /// its end, and the module at that place once more. The path follows
    /// value imports from `start` through modules that are all different.
    pub open spec fn closes_value_path(
        self,
        start: Seq<char>,
        path: Seq<Seq<char>>,
        first: int,
        cycle: Seq<Seq<char>>,
    ) -> bool {
        &&& path.len() > 0
        &&& path[0] == start
        &&& path.no_duplicates()
        &&& self.is_value_walk(path)
        &&& 0 <= first < path.len()
        &&& self.value_edge(path.last(), path[first])
        &&& cycle == path.skip(first).push(path[first])
    }

    /// `cycle` is the circle that a search from the module `start` reports
    /// for some search path that a value import leads back into.
    pub open spec fn found_from(self, start: Seq<char>, cycle: Seq<Seq<char>>) -> bool {
        exists|path: Seq<Seq<char>>, first: int| #[trigger]
            self.closes_value_path(start, path, first, cycle)
    }

    /// No circle of value imports exists.
    pub open spec fn value_acyclic(self) -> bool {
        forall|cycle: Seq<Seq<char>>| !self.is_value_cycle(cycle)
    }

    /// In a dependency-first order, a walk along value imports ends before
    /// the place where it starts.
    pub proof fn lemma_walk_descends(self, order: Seq<Seq<char>>, walk: Seq<Seq<char>>, p: int)
        requires
            self.is_dependency_order(order),
            self.is_value_walk(walk),
            walk.len() >= 2,
            0 <= p < order.len(),
            order[p] == walk[0],
        ensures
            exists|q: int| 0 <= q < p && order[q] == walk.last(),
        decreases walk.len(),
    {
        assert(self.value_edge(walk[0], walk[1]));
        assert(self.value_edge(order[p], walk[1]));
        let q = choose|q: int| 0 <= q < p && order[q] == walk[1];
        if walk.len() > 2 {
            let rest = walk.skip(1);
            assert forall|t: int| 0 <= t < rest.len() - 1 implies self.value_edge(
                #[trigger] rest[t],
                rest[t + 1],
            ) by {
                assert(rest[t] == walk[t + 1]);
                assert(rest[t + 1] == walk[t + 2]);
            }
            self.lemma_walk_descends(order, rest, q);
            assert(rest.last() == walk.last());
            let r = choose|r: int| 0 <= r < q && order[r] == rest.last();
            assert(0 <= r < p && order[r] == walk.last());
        }
    }

    /// Type-only imports do not count: two graphs with the same modules and
    /// the same value imports have the same dependency-first orders and the
    /// same circles of value imports.
    pub proof fn lemma_only_values_count(self, other: GraphModel, order: Seq<Seq<char>>)
        requires
            self.nodes == other.nodes,
            forall|from: Seq<char>, to: Seq<char>|
                self.value_edge(from, to) == other.value_edge(from, to),
        ensures
            self.is_dependency_order(order) == other.is_dependency_order(order),
            self.is_value_cycle(order) == other.is_value_cycle(order),
            self.value_acyclic() == other.value_acyclic(),
    {
        assert forall|walk: Seq<Seq<char>>| self.is_value_walk(walk) == other.is_value_walk(walk) by {
            if self.is_value_walk(walk) {
                assert forall|t: int| 0 <= t < walk.len() - 1 implies other.value_edge(
                    #[trigger] walk[t],
                    walk[t + 1],
                ) by {
                    assert(self.value_edge(walk[t], walk[t + 1]));
                }
            }
            if other.is_value_walk(walk) {
                assert forall|t: int| 0 <= t < walk.len() - 1 implies self.value_edge(
                    #[trigger] walk[t],
                    walk[t + 1],
                ) by {
                    assert(other.value_edge(walk[t], walk[t + 1]));
                }
            }
        }
        assert forall|cycle: Seq<Seq<char>>| self.is_value_cycle(cycle) == other.is_value_cycle(cycle) by {
            assert(self.is_value_walk(cycle) == other.is_value_walk(cycle));
        }
        if self.value_acyclic() {
            assert forall|cycle: Seq<Seq<char>>| !other.is_value_cycle(cycle) by {
                assert(!self.is_value_cycle(cycle));
            }
        }
        if other.value_acyclic() {
            assert forall|cycle: Seq<Seq<char>>| !self.is_value_cycle(cycle) by {
                assert(!other.is_value_cycle(cycle));
            }
        }
        if self.is_dependency_order(order) {
            assert forall|p: int, to: Seq<char>|
                0 <= p < order.len() && #[trigger] other.value_edge(order[p], to) implies exists|q: int|
                0 <= q < p && order[q] == to by {
                assert(self.value_edge(order[p], to));
            }
        }
        if other.is_dependency_order(order) {
            assert forall|p: int, to: Seq<char>|
                0 <= p < order.len() && #[trigger] self.value_edge(order[p], to) implies exists|q: int|
                0 <= q < p && order[q] == to by {
                assert(other.value_edge(order[p], to));
            }
        }
    }

    /// A module that imports a value of itself is a circle of its own: the
    /// module, and the module once more.
    pub proof fn lemma_self_import_is_cycle(self, id: Seq<char>)
        requires
            self.value_edge(id, id),
        ensures
            self.is_simple_value_cycle(seq![id, id]),
            !self.value_acyclic(),
    {
        let cycle = seq![id, id];
        assert forall|t: int| 0 <= t < cycle.len() - 1 implies self.value_edge(
            #[trigger] cycle[t],
            cycle[t + 1],
        ) by {
            assert(cycle[0] == id && cycle[1] == id);
        }
        assert(self.is_value_cycle(cycle));
    }

    /// Where the only value import of a graph is that of a module from
    /// itself, the only circle that passes through no module twice is that
    /// module, and that module once more.
    pub proof fn lemma_lone_self_import(self, id: Seq<char>, cycle: Seq<Seq<char>>)
        requires
            forall|from: Seq<char>, to: Seq<char>|
                self.value_edge(from, to) ==> from == id && to == id,
            self.is_simple_value_cycle(cycle),
        ensures
            cycle == seq![id, id],
    {
        assert forall|t: int| 0 <= t < cycle.len() - 1 implies cycle[t] == id by {
            assert(self.value_edge(cycle[t], cycle[t + 1]));
        }
        if cycle.len() > 2 {
            assert(cycle[0] == id && cycle[1] == id);
        }
        assert(cycle[0] == id);
        assert(cycle[1] == id);
        assert(cycle =~= seq![id, id]);
    }

    /// A graph whose modules can be put in a dependency-first order has no
    /// circle of value imports.
    pub proof fn lemma_ordered_is_acyclic(self, order: Seq<Seq<char>>)
        requires
            self.closed(),
            self.is_dependency_order(order),
        ensures
            self.value_acyclic(),
    {
        assert forall|cycle: Seq<Seq<char>>| !self.is_value_cycle(cycle) by {
            if self.is_value_cycle(cycle) {
                assert(self.value_edge(cycle[0], cycle[1]));
                assert(self.nodes.contains(cycle[0]));
                assert(order.contains(cycle[0]));
                let p = choose|p: int| 0 <= p < order.len() && order[p] == cycle[0];
                self.lemma_walk_descends(order, cycle, p);
                let q = choose|q: int| 0 <= q < p && order[q] == cycle.last();
                assert(order[q] == order[p]);
            }
        }
    }
}

/// Calls `HashMap::insert` on a table hashed by `FxBuildHasher` and keyed by
/// node number. Afterwards the table maps `node` to `list` and every other
/// key to what it mapped to before.
#[verifier::external_body]
fn table_insert(
    table: &mut FxHashMap<usize, Vec<DependencyEdge>>,
    node: usize,
    list: Vec<DependencyEdge>,
)
    ensures
        final(table)@ == old(table)@.insert(node, list),
{
    table.insert(node, list);
}

/// Calls `HashMap::get` on a table hashed by `FxBuildHasher` and keyed by node
/// number: the list stored under `node`, if there is one.
#[verifier::external_body]
fn table_get(table: &FxHashMap<usize, Vec<DependencyEdge>>, node: usize) -> (found: Option<
    &Vec<DependencyEdge>,
>)
    ensures
        match found {
            Some(list) => table@.contains_key(node) && *list == table@[node],
            None => !table@.contains_key(node),
        },
{
    table.get(&node)
}

/// What a table from module paths to module numbers holds: the number
/// stored under each path, the path taken as its text.
pub uninterp spec fn index_entries(index: FxHashMap<String, usize>) -> Map<Seq<char>, usize>;

/// Calls `HashMap::default` for a table hashed by `FxBuildHasher` and keyed
/// by strings. The new table holds nothing.
#[verifier::external_body]
fn index_new() -> (fresh: FxHashMap<String, usize>)
    ensures
        index_entries(fresh) == (Map::<Seq<char>, usize>::empty()),
{
    FxHashMap::default()
}

/// Calls `HashMap::insert` on a table hashed by `FxBuildHasher` and keyed by
/// strings. Afterwards the table holds `number` under the text of `path`
/// and under every other text what it held before.
#[verifier::external_body]
fn index_insert(index: &mut FxHashMap<String, usize>, path: String, number: usize)
    ensures
        index_entries(*final(index)) == index_entries(*old(index)).insert(path@, number),
{
    index.insert(path, number);
}

/// Calls `HashMap::get` on a table hashed by `FxBuildHasher` and keyed by
/// strings: the number stored under the text of `path`, if there is one.
#[verifier::external_body]
fn index_get(index: &FxHashMap<String, usize>, path: &str) -> (found: Option<usize>)
    ensures
        found == if index_entries(*index).contains_key(path@) {
            Some(index_entries(*index)[path@])
        } else {
            None::<usize>
        },
{
    index.get(path).copied()
}

/// Dependency graph for module compilation ordering.
///
/// Known modules are numbered in the order in which they were first
/// mentioned; the edges of a registered module are stored under its number,
/// and the number of a module is found by its path.
#[derive(Debug)]
pub struct DependencyGraph {
    /// All known modules, each once.
    nodes: Vec<ModuleId>,
    /// Path of a known module -> its number, the place where it stands in `nodes`.
    index: FxHashMap<String, usize>,
    /// Adjacency list: number of a registered module -> list of its edges.
    edges: FxHashMap<usize, Vec<DependencyEdge>>,
}

impl View for DependencyGraph {
    type V = GraphModel;

    closed spec fn view(&self) -> GraphModel {
        GraphModel {
            nodes: Set::new(|id: Seq<char>| self.knows(id)),
            edges: Map::new(
                |id: Seq<char>| self.knows(id) && self.edges@.contains_key(self.number(id) as usize),
                |id: Seq<char>| edge_views(self.edges@[self.number(id) as usize]@),
            ),
        }
    }
}

impl DependencyGraph {
    /// `id` is the text of a known module.
    spec fn knows(&self, id: Seq<char>) -> bool {
        exists|i: int| 0 <= i < self.nodes.len() && self.nodes[i]@ == id
    }

    /// The number of the known module `id`.
    spec fn number(&self, id: Seq<char>) -> int {
        choose|i: int| 0 <= i < self.nodes.len() && self.nodes[i]@ == id
    }

    /// What holds of the stored data: no module is known twice, every known
    /// module is found by its path and no other path finds anything, edges
    /// are stored under numbers of known modules only, and every target is
    /// known.
    pub closed spec fn inv(&self) -> bool {
        &&& forall|i: int, j: int|
            0 <= i < self.nodes.len() && 0 <= j < self.nodes.len() && i != j ==> self.nodes[i]@
                != self.nodes[j]@
        &&& forall|i: int|
            0 <= i < self.nodes.len() ==> index_entries(self.index).contains_key(
                (#[trigger] self.nodes[i])@,
            ) && index_entries(self.index)[self.nodes[i]@] == i
        &&& forall|path: Seq<char>| #[trigger]
            index_entries(self.index).contains_key(path) ==> index_entries(self.index)[path]
                < self.nodes.len() && self.nodes[index_entries(self.index)[path] as int]@ == path
        &&& forall|i: usize| self.edges@.contains_key(i) ==> i < self.nodes.len()
        &&& forall|i: usize, k: int|
            self.edges@.contains_key(i) && 0 <= k < self.edges@[i].len() ==> self.knows(
                (#[trigger] self.edges@[i][k]).target@,
            )
    }

    /// The graph is well formed: its stored data is consistent, and every
    /// registered module and every target of an edge is a known module.
    pub open spec fn wf(&self) -> bool {
        self.inv() && self@.closed()
    }

    /// In a graph with consistent data, edges lead to known modules only.
    proof fn lemma_closed(&self)
        requires
            self.inv(),
        ensures
            self@.closed(),
    {
        let model = self@;
        assert forall|id: Seq<char>, k: int|
            model.edges.contains_key(id) && 0 <= k < model.edges[id].len() implies model.nodes.contains(
            (#[trigger] model.edges[id][k]).0,
        ) by {
            let i = self.number(id) as usize;
            assert(self.knows(self.edges@[i][k].target@));
        }
    }

    /// The number of a known module is the one place where it stands.
    proof fn lemma_number(&self, i: int)
        requires
            self.inv(),
            0 <= i < self.nodes.len(),
        ensures
            self.knows(self.nodes[i]@),
            self.number(self.nodes[i]@) == i,
    {
    }

    /// A graph without modules.
    pub fn new() -> (graph: DependencyGraph)
        ensures
            graph.wf(),
            graph@ == GraphModel::empty(),
    {
        let graph = DependencyGraph {
            nodes: Vec::new(),
            index: index_new(),
            edges: FxHashMap::default(),
        };
        proof {
            assert(graph@.nodes =~= Set::<Seq<char>>::empty());
            assert(graph@.edges =~= Map::<Seq<char>, Seq<(Seq<char>, EdgeKind)>>::empty());
        }
        graph
    }

    /// The number of the module `id`, if it is known.
    fn position(&self, id: &ModuleId) -> (found: Option<usize>)
        requires
            self.inv(),
        ensures
            match found {
                Some(i) => i < self.nodes.len() && self.nodes[i as int]@ == id@ && self.knows(id@)
                    && self.number(id@) == i,
                None => !self.knows(id@),
            },
    {
        let found = index_get(&self.index, id.as_str());
        proof {
            match found {
                Some(i) => {
                    assert(index_entries(self.index).contains_key(id@));
                    self.lemma_number(i as int);
                },
                None => {
                    if self.knows(id@) {
                        let j = self.number(id@);
                        assert(index_entries(self.index).contains_key(self.nodes[j]@));
                    }
                },
            }
        }
        found
    }

    /// The number of the module `id`, which becomes known if it was not.
    fn intern(&mut self, id: &ModuleId) -> (i: usize)
        requires
            old(self).inv(),
        ensures
            final(self).inv(),
            i < final(self).nodes.len(),
            final(self).nodes[i as int]@ == id@,
            final(self).number(id@) == i,
            final(self).edges@ == old(self).edges@,
            forall|x: Seq<char>| final(self).knows(x) <==> old(self).knows(x) || x == id@,
            forall|x: Seq<char>| old(self).knows(x) ==> final(self).number(x) == old(self).number(x),
    {
        match self.position(id) {
            Some(i) => i,
            None => {
                let i = self.nodes.len();
                self.nodes.push(id.clone());
                index_insert(&mut self.index, id.to_string(), i);
                proof {
                    let entries = index_entries(self.index);
                    let former = index_entries(old(self).index);
                    assert(entries == former.insert(id@, i));
                    assert forall|a: int| 0 <= a < self.nodes.len() implies entries.contains_key(
                        (#[trigger] self.nodes[a])@,
                    ) && entries[self.nodes[a]@] == a by {
                        if a < i {
                            assert(self.nodes[a] == old(self).nodes[a]);
                            assert(old(self).knows(old(self).nodes[a]@));
                        }
                    }
                    assert forall|path: Seq<char>| #[trigger]
                        entries.contains_key(path) implies entries[path] < self.nodes.len()
                        && self.nodes[entries[path] as int]@ == path by {
                        if path != id@ {
                            assert(former.contains_key(path));
                            assert(self.nodes[former[path] as int] == old(self).nodes[former[path] as int]);
                        }
                    }
                    assert forall|x: Seq<char>| old(self).knows(x) implies self.knows(x)
                        && self.number(x) == old(self).number(x) by {
                        let j = old(self).number(x);
                        assert(self.nodes[j]@ == x);
                    }
                    assert forall|x: Seq<char>| self.knows(x) implies old(self).knows(x) || x == id@ by {
                        let j = self.number(x);
                        if j < i {
                            assert(old(self).nodes[j]@ == x);
                        }
                    }
                    assert(self.nodes[i as int]@ == id@);
                    assert forall|a: usize, k: int|
                        self.edges@.contains_key(a) && 0 <= k < self.edges@[a].len() implies self.knows(
                        (#[trigger] self.edges@[a][k]).target@,
                    ) by {
                        assert(old(self).knows(old(self).edges@[a][k].target@));
                    }
                    self.lemma_number(i as int);
                }
                i
            },
        }
    }

    /// Add a module and its dependencies to the graph.
    ///
    /// The module and every target become known, if they were not, and the
    /// module is registered with exactly these edges: edges registered for
    /// it before are replaced.
    pub fn add_module(&mut self, id: ModuleId, dependencies: Vec<(ModuleId, EdgeKind)>)
        requires
            old(self).wf(),
        ensures
            final(self).wf(),
            final(self)@ == old(self)@.with_module(id@, pair_views(dependencies@)),
    {
        let source = self.intern(&id);
        let mut list: Vec<DependencyEdge> = Vec::new();
        let mut k: usize = 0;
        while k < dependencies.len()
            invariant
                self.inv(),
                k <= dependencies.len(),
                self.edges@ == old(self).edges@,
                source < self.nodes.len(),
                self.nodes[source as int]@ == id@,
                self.number(id@) == source,
                forall|x: Seq<char>| old(self).knows(x) ==> self.knows(x) && self.number(x) == old(
                    self,
                ).number(x),
                forall|x: Seq<char>|
                    self.knows(x) <==> old(self).knows(x) || x == id@ || exists|j: int|
                        0 <= j < k && (#[trigger] dependencies[j]).0@ == x,
                list.len() == k,
                forall|j: int| 0 <= j < k ==> (#[trigger] list[j])@ == (dependencies[j].0@, dependencies[j].1),
            decreases dependencies.len() - k,
        {
            let ghost before = *self;
            let target = dependencies[k].0.clone();
            let kind = dependencies[k].1;
            self.intern(&target);
            list.push(DependencyEdge { target, kind });
            proof {
                assert(self.number(id@) == before.number(id@));
            }
            k = k + 1;
        }
        let ghost stored = list@;
        let ghost before = *self;
        table_insert(&mut self.edges, source, list);
        proof {
            assert(self.nodes == before.nodes);
            assert forall|x: Seq<char>| self.knows(x) <==> before.knows(x) by {
                if self.knows(x) {
                    let j = self.number(x);
                    assert(before.nodes[j]@ == x);
                }
                if before.knows(x) {
                    let j = before.number(x);
                    assert(self.nodes[j]@ == x);
                }
            }
            assert forall|a: usize, j: int|
                self.edges@.contains_key(a) && 0 <= j < self.edges@[a].len() implies self.knows(
                (#[trigger] self.edges@[a][j]).target@,
            ) by {
                if a == source {
                    assert(stored[j]@ == (dependencies[j].0@, dependencies[j].1));
                    assert(self.edges@[a][j].target@ == dependencies[j].0@);
                    assert(before.knows(dependencies[j].0@));
                    assert(self.knows(dependencies[j].0@));
                } else {
                    assert(before.edges@.contains_key(a));
                    assert(before.knows(before.edges@[a][j].target@));
                    assert(self.knows(before.edges@[a][j].target@));
                }
            }
            assert(self.inv());
            self.lemma_closed();
            assert(edge_views(stored) =~= pair_views(dependencies@));
            let wanted = old(self)@.edges.insert(id@, pair_views(dependencies@));
            assert forall|x: Seq<char>| self@.edges.contains_key(x) <==> wanted.contains_key(x) by {
                if x != id@ {
                    if old(self).knows(x) {
                        assert(self.number(x) == old(self).number(x));
                        assert(self.number(x) != source);
                    }
                    if self@.edges.contains_key(x) {
                        let a = self.number(x) as usize;
                        assert(self.nodes[a as int]@ == x);
                        assert(a != source);
                        assert(before.edges@.contains_key(a));
                        assert(old(self).edges@.contains_key(a));
                        assert(a < old(self).nodes.len());
                        old(self).lemma_number(a as int);
                        assert(old(self).nodes[a as int]@ == self.nodes[a as int]@) by {
                            let y = old(self).nodes[a as int]@;
                            assert(old(self).knows(y));
                            assert(self.number(y) == a);
                        }
                    }
                }
            }
            assert forall|x: Seq<char>| self@.edges.contains_key(x) implies self@.edges[x] == wanted[x] by {
                if x != id@ {
                    let a = self.number(x) as usize;
                    assert(self.nodes[a as int]@ == x);
                    assert(a != source);
                    assert(a < old(self).nodes.len());
                    old(self).lemma_number(a as int);
                    let y = old(self).nodes[a as int]@;
                    assert(self.number(y) == a);
                    assert(y == x);
                }
            }
            assert(self@.edges =~= wanted);
            let edges = pair_views(dependencies@);
            let after = old(self)@.with_module(id@, edges);
            assert forall|x: Seq<char>| self@.nodes.contains(x) <==> after.nodes.contains(x) by {
                if self.knows(x) && !old(self).knows(x) && x != id@ {
                    let j = choose|j: int|
                        0 <= j < dependencies.len() && (#[trigger] dependencies[j]).0@ == x;
                    assert(edges[j].0 == x);
                }
                if exists|k: int| 0 <= k < edges.len() && (#[trigger] edges[k]).0 == x {
                    let k = choose|k: int| 0 <= k < edges.len() && (#[trigger] edges[k]).0 == x;
                    assert(dependencies[k].0@ == x);
                }
            }
            assert(self@.nodes =~= after.nodes);
        }
    }

    /// Get direct dependencies of a module with edge kinds: the edges that
    /// were registered for it last, or nothing if it was never registered.
    pub fn get_dependencies(&self, id: &ModuleId) -> (found: Option<&Vec<DependencyEdge>>)
        requires
            self.wf(),
        ensures
            match found {
                Some(list) => self@.edges.contains_key(id@) && edge_views(list@) == self@.edges[id@],
                None => !self@.edges.contains_key(id@),
            },
    {
        match self.position(id) {
            Some(i) => table_get(&self.edges, i),
            None => None,
        }
    }

    /// The targets of the edges of `id` that have the kind `kind`, in order.
    fn dependencies_of_kind(&self, id: &ModuleId, kind: EdgeKind) -> (targets: Vec<ModuleId>)
        requires
            self.wf(),
        ensures
            id_texts(targets@) == targets_of_kind(self@.edges_of(id@), kind),
    {
        let mut targets: Vec<ModuleId> = Vec::new();
        match self.get_dependencies(id) {
            Some(list) => {
                let ghost all = edge_views(list@);
                let mut k: usize = 0;
                while k < list.len()
                    invariant
                        k <= list.len(),
                        all == edge_views(list@),
                        id_texts(targets@) == targets_of_kind(all.take(k as int), kind),
                    decreases list.len() - k,
                {
                    proof {
                        assert(all.take(k + 1).drop_last() =~= all.take(k as int));
                        assert(all.take(k + 1).last() == list[k as int]@);
                    }
                    if list[k].kind == kind {
                        let ghost before = targets@;
                        targets.push(list[k].target.clone());
                        proof {
                            assert(id_texts(targets@) =~= id_texts(before).push(list[k as int].target@));
                        }
                    }
                    k = k + 1;
                }
                proof {
                    assert(all.take(k as int) =~= all);
                }
            },
            None => {
                proof {
                    assert(id_texts(targets@) =~= Seq::<Seq<char>>::empty());
                }
            },
        }
        targets
    }

    /// Get only value dependencies (runtime imports), in the order of the
    /// edges; none for a module that was never registered.
    pub fn get_value_dependencies(&self, id: &ModuleId) -> (targets: Vec<ModuleId>)
        requires
            self.wf(),
        ensures
            id_texts(targets@) == targets_of_kind(self@.edges_of(id@), EdgeKind::Value),
    {
        self.dependencies_of_kind(id, EdgeKind::Value)
    }

    /// Get only type-only dependencies, in the order of the edges; none for
    /// a module that was never registered.
    pub fn get_type_dependencies(&self, id: &ModuleId) -> (targets: Vec<ModuleId>)
        requires
            self.wf(),
        ensures
            id_texts(targets@) == targets_of_kind(self@.edges_of(id@), EdgeKind::TypeOnly),
    {
        self.dependencies_of_kind(id, EdgeKind::TypeOnly)
    }

    /// Check if the graph contains a module.
    pub fn contains(&self, id: &ModuleId) -> (known: bool)
        requires
            self.wf(),
        ensures
            known == self@.nodes.contains(id@),
    {
        self.position(id).is_some()
    }

    /// Get all modules in the graph, each once.
    pub fn modules(&self) -> (all: &Vec<ModuleId>)
        requires
            self.wf(),
        ensures
            id_texts(all@).no_duplicates(),
            forall|id: Seq<char>| self@.nodes.contains(id) <==> id_texts(all@).contains(id),
    {
        proof {
            let texts = id_texts(self.nodes@);
            assert forall|id: Seq<char>| self@.nodes.contains(id) <==> texts.contains(id) by {
                if self@.nodes.contains(id) {
                    let i = self.number(id);
                    assert(texts[i] == id);
                }
                if texts.contains(id) {
                    let i = choose|i: int| 0 <= i < texts.len() && texts[i] == id;
                    assert(self.nodes[i]@ == id);
                }
            }
        }
        &self.nodes
    }

    /// The texts of the modules with the given numbers, in order.
    spec fn names_at(&self, numbers: Seq<usize>) -> Seq<Seq<char>> {
        numbers.map_values(|j: usize| self.nodes[j as int]@)
    }

    /// `row` holds the numbers of the modules whose values module number
    /// `i` imports, in the order of its edges.
    spec fn row_matches(&self, i: int, row: Seq<usize>) -> bool {
        &&& forall|m: int| 0 <= m < row.len() ==> (#[trigger] row[m]) < self.nodes.len()
        &&& self.names_at(row) == targets_of_kind(self@.edges_of(self.nodes[i]@), EdgeKind::Value)
    }

    /// How an adjacency list over module numbers stands for the value
    /// imports of this graph.
    spec fn links_match(&self, adj: Seq<Seq<usize>>) -> bool {
        &&& adj.len() == self.nodes.len()
        &&& forall|i: int| 0 <= i < adj.len() ==> self.row_matches(i, #[trigger] adj[i])
    }

    /// Every edge of the adjacency list is a value import of the graph.
    proof fn lemma_link_sound(&self, adj: Seq<Seq<usize>>, i: int, k: int)
        requires
            self.links_match(adj),
            0 <= i < adj.len(),
            0 <= k < adj[i].len(),
        ensures
            adj[i][k] < self.nodes.len(),
            self@.value_edge(self.nodes[i]@, self.nodes[adj[i][k] as int]@),
    {
        let row = adj[i];
        assert(self.row_matches(i, row));
        assert(row[k] < self.nodes.len());
        let list = self@.edges_of(self.nodes[i]@);
        let targets = targets_of_kind(list, EdgeKind::Value);
        let to = self.nodes[row[k] as int]@;
        assert(self.names_at(row)[k] == to);
        assert(targets[k] == to);
        lemma_targets_contain(list, EdgeKind::Value, to);
        assert(list.contains((to, EdgeKind::Value)));
    }

    /// Every value import of the graph is an edge of the adjacency list.
    proof fn lemma_link_complete(&self, adj: Seq<Seq<usize>>, i: int, to: Seq<char>) -> (k: int)
        requires
            self.links_match(adj),
            0 <= i < adj.len(),
            self@.value_edge(self.nodes[i]@, to),
        ensures
            0 <= k < adj[i].len(),
            adj[i][k] < self.nodes.len(),
            self.nodes[adj[i][k] as int]@ == to,
    {
        let row = adj[i];
        assert(self.row_matches(i, row));
        let list = self@.edges_of(self.nodes[i]@);
        let targets = targets_of_kind(list, EdgeKind::Value);
        lemma_targets_contain(list, EdgeKind::Value, to);
        assert(targets.contains(to));
        let k = choose|k: int| 0 <= k < targets.len() && targets[k] == to;
        assert(self.names_at(row)[k] == self.nodes[row[k] as int]@);
        k
    }

    /// The adjacency list names modules of the graph only.
    proof fn lemma_links_in_range(&self, adj: Seq<Seq<usize>>)
        requires
            self.links_match(adj),
        ensures
            well_linked(adj),
    {
        assert forall|u: int, k: int| 0 <= u < adj.len() && 0 <= k < adj[u].len() implies (
        #[trigger] adj[u][k]) < adj.len() by {
            self.lemma_link_sound(adj, u, k);
        }
    }

    /// The numbers of the modules whose values module number `i` imports.
    fn value_row(&self, i: usize) -> (row: Vec<usize>)
        requires
            self.wf(),
            i < self.nodes.len(),
        ensures
            self.row_matches(i as int, row@),
    {
        let mut row: Vec<usize> = Vec::new();
        proof {
            self.lemma_number(i as int);
        }
        match table_get(&self.edges, i) {
            Some(list) => {
                let ghost all = edge_views(list@);
                assert(self@.edges_of(self.nodes[i as int]@) == all);
                assert(self.names_at(row@) =~= targets_of_kind(all.take(0), EdgeKind::Value));
                let mut k: usize = 0;
                while k < list.len()
                    invariant
                        self.wf(),
                        self.edges@.contains_key(i),
                        *list == self.edges@[i],
                        k <= list.len(),
                        all == edge_views(list@),
                        forall|m: int| 0 <= m < row.len() ==> (#[trigger] row[m]) < self.nodes.len(),
                        self.names_at(row@) == targets_of_kind(all.take(k as int), EdgeKind::Value),
                    decreases list.len() - k,
                {
                    proof {
                        assert(all.take(k + 1).drop_last() =~= all.take(k as int));
                        assert(all.take(k + 1).last() == list[k as int]@);
                    }
                    if list[k].kind == EdgeKind::Value {
                        assert(self.knows(self.edges@[i][k as int].target@));
                        match self.position(&list[k].target) {
                            Some(j) => {
                                let ghost before = row@;
                                row.push(j);
                                proof {
                                    assert(self.names_at(row@) =~= self.names_at(before).push(
                                        self.nodes[j as int]@,
                                    ));
                                }
                            },
                            None => {},
                        }
                    }
                    k = k + 1;
                }
                proof {
                    assert(all.take(k as int) =~= all);
                }
            },
            None => {
                proof {
                    assert(self@.edges_of(self.nodes[i as int]@) =~= Seq::<(Seq<char>, EdgeKind)>::empty());
                    assert(self.names_at(row@) =~= Seq::<Seq<char>>::empty());
                }
            },
        }
        row
    }

    /// The value imports of the graph as an adjacency list over module numbers.
    fn value_links(&self) -> (adj: Vec<Vec<usize>>)
        requires
            self.wf(),
        ensures
            self.links_match(adjacency(&adj)),
    {
        let mut adj: Vec<Vec<usize>> = Vec::new();
        let mut i: usize = 0;
        while i < self.nodes.len()
            invariant
                self.wf(),
                i <= self.nodes.len(),
                adj.len() == i,
                forall|a: int| 0 <= a < i ==> self.row_matches(a, (#[trigger] adj[a])@),
            decreases self.nodes.len() - i,
        {
            let row = self.value_row(i);
            let ghost before = adj@;
            adj.push(row);
            proof {
                assert forall|a: int| 0 <= a < i + 1 implies self.row_matches(a, (#[trigger] adj[a])@) by {
                    if a < i {
                        assert(adj[a] == before[a]);
                    }
                }
            }
            i = i + 1;
        }
        proof {
            let g = adjacency(&adj);
            assert forall|a: int| 0 <= a < g.len() implies self.row_matches(a, #[trigger] g[a]) by {
                assert(g[a] == adj[a]@);
            }
        }
        adj
    }

    /// The identifiers of the modules with the given numbers, in order.
    fn names_of(&self, numbers: &Vec<usize>) -> (names: Vec<ModuleId>)
        requires
            forall|p: int| 0 <= p < numbers.len() ==> (#[trigger] numbers[p]) < self.nodes.len(),
        ensures
            id_texts(names@) == self.names_at(numbers@),
    {
        let mut names: Vec<ModuleId> = Vec::new();
        let mut p: usize = 0;
        while p < numbers.len()
            invariant
                p <= numbers.len(),
                names.len() == p,
                forall|q: int| 0 <= q < numbers.len() ==> (#[trigger] numbers[q]) < self.nodes.len(),
                forall|q: int| 0 <= q < p ==> (#[trigger] names[q])@ == self.nodes[numbers[q] as int]@,
            decreases numbers.len() - p,
        {
            names.push(self.nodes[numbers[p]].clone());
            p = p + 1;
        }
        proof {
            assert(id_texts(names@) =~= self.names_at(numbers@));
        }
        names
    }

    /// A dependency-first order of the module numbers names a
    /// dependency-first order of the modules.
    proof fn lemma_order_names(&self, adj: Seq<Seq<usize>>, numbers: Seq<usize>)
        requires
            self.inv(),
            self.links_match(adj),
            is_topological_order(adj, numbers),
        ensures
            self@.is_dependency_order(self.names_at(numbers)),
    {
        let model = self@;
        let names = self.names_at(numbers);
        assert forall|a: int, b: int| 0 <= a < names.len() && 0 <= b < names.len() && a
            != b implies names[a] != names[b] by {
            assert(numbers[a] != numbers[b]);
            assert(names[a] == self.nodes[numbers[a] as int]@);
            assert(names[b] == self.nodes[numbers[b] as int]@);
        }
        assert forall|id: Seq<char>| model.nodes.contains(id) <==> names.contains(id) by {
            if model.nodes.contains(id) {
                let i = self.number(id);
                lemma_all_present(adj.len() as nat, numbers, i as usize);
                let p = choose|p: int| 0 <= p < numbers.len() && numbers[p] == i as usize;
                assert(names[p] == id);
            }
            if names.contains(id) {
                let p = choose|p: int| 0 <= p < names.len() && names[p] == id;
                assert(self.nodes[numbers[p] as int]@ == id);
            }
        }
        assert forall|p: int, to: Seq<char>|
            0 <= p < names.len() && #[trigger] model.value_edge(names[p], to) implies exists|q: int|
            0 <= q < p && names[q] == to by {
            let i = numbers[p] as int;
            assert(names[p] == self.nodes[i]@);
            let k = self.lemma_link_complete(adj, i, to);
            let v = adj[numbers[p] as int][k];
            assert(super::ordering::earlier(numbers, p, v));
            let q = choose|q: int| 0 <= q < p && q < numbers.len() && numbers[q] == v;
            assert(names[q] == self.nodes[numbers[q] as int]@);
        }
    }

    /// Every number on a cycle of the module numbers is the number of a module.
    proof fn lemma_cycle_in_range(&self, adj: Seq<Seq<usize>>, numbers: Seq<usize>, p: int)
        requires
            adj.len() == self.nodes.len(),
            is_simple_cycle(adj, numbers),
            0 <= p < numbers.len(),
        ensures
            numbers[p] < self.nodes.len(),
    {
        if p < numbers.len() - 1 {
            assert(numbers[p] < adj.len());
        } else {
            assert(numbers[0] < adj.len());
        }
    }

    /// A cycle of the module numbers names a circle of value imports.
    proof fn lemma_cycle_names(&self, adj: Seq<Seq<usize>>, numbers: Seq<usize>)
        requires
            self.inv(),
            self.links_match(adj),
            is_simple_cycle(adj, numbers),
        ensures
            self@.is_simple_value_cycle(self.names_at(numbers)),
    {
        let model = self@;
        let names = self.names_at(numbers);
        assert forall|p: int| 0 <= p < names.len() implies names[p] == self.nodes[numbers[p] as int]@
            && numbers[p] < self.nodes.len() by {
            self.lemma_cycle_in_range(adj, numbers, p);
        }
        assert forall|t: int| 0 <= t < names.len() - 1 implies model.value_edge(
            #[trigger] names[t],
            names[t + 1],
        ) by {
            let i = numbers[t] as int;
            assert(numbers[t] < adj.len());
            assert(adj[i].contains(numbers[t + 1]));
            let k = choose|k: int| 0 <= k < adj[i].len() && adj[i][k] == numbers[t + 1];
            self.lemma_link_sound(adj, i, k);
            assert(names[t] == self.nodes[i]@);
            assert(names[t + 1] == self.nodes[numbers[t + 1] as int]@);
        }
        assert forall|s: int, t: int| 0 <= s < t < names.len() - 1 implies names[s] != names[t] by {
            assert(numbers[s] != numbers[t]);
            assert(names[s] == self.nodes[numbers[s] as int]@);
            assert(names[t] == self.nodes[numbers[t] as int]@);
        }
        assert(names[0] == self.nodes[numbers[0] as int]@);
        assert(names[names.len() - 1] == self.nodes[numbers[numbers.len() - 1] as int]@);
    }

    /// A cycle that the search over module numbers reports from a start
    /// names the circle that the search over the modules reports from the
    /// module of that number.
    proof fn lemma_found_names(&self, adj: Seq<Seq<usize>>, start: usize, numbers: Seq<usize>)
        requires
            self.inv(),
            self.links_match(adj),
            found_from(adj, start, numbers),
        ensures
            start < self.nodes.len(),
            self@.nodes.contains(self.nodes[start as int]@),
            self@.found_from(self.nodes[start as int]@, self.names_at(numbers)),
    {
        let model = self@;
        let (path, first) = choose|path: Seq<usize>, first: int| #[trigger]
            closes_path(adj, start, path, first, numbers);
        let names = self.names_at(path);
        assert forall|t: int| 0 <= t < path.len() implies (#[trigger] path[t]) < self.nodes.len() by {
            if t == path.len() - 1 {
                assert(path[t] == path.last());
            }
        }
        assert(start == path[0]);
        self.lemma_number(start as int);
        assert forall|a: int, b: int| 0 <= a < names.len() && 0 <= b < names.len() && a
            != b implies names[a] != names[b] by {
            assert(path[a] != path[b]);
            assert(names[a] == self.nodes[path[a] as int]@);
            assert(names[b] == self.nodes[path[b] as int]@);
        }
        assert forall|t: int| 0 <= t < names.len() - 1 implies model.value_edge(
            #[trigger] names[t],
            names[t + 1],
        ) by {
            let i = path[t] as int;
            assert(adj[i].contains(path[t + 1]));
            let k = choose|k: int| 0 <= k < adj[i].len() && adj[i][k] == path[t + 1];
            self.lemma_link_sound(adj, i, k);
            assert(names[t] == self.nodes[i]@);
            assert(names[t + 1] == self.nodes[path[t + 1] as int]@);
        }
        let last = path.last() as int;
        let k = choose|k: int| 0 <= k < adj[last].len() && adj[last][k] == path[first];
        self.lemma_link_sound(adj, last, k);
        assert(names.last() == self.nodes[last]@);
        assert(names[first] == self.nodes[path[first] as int]@);
        assert(self.names_at(numbers) =~= names.skip(first).push(names[first]));
        assert(model.closes_value_path(
            self.nodes[start as int]@,
            names,
            first,
            self.names_at(numbers),
        ));
    }

    /// Perform topological sort to determine compilation order.
    ///
    /// Returns every known module once, each after all the modules whose
    /// values it imports; type-only imports do not count. Where value
    /// imports form a circle there is no such order, and the result is
    /// `CircularDependency` with one such circle: it starts at the module
    /// that the search met again, follows value imports through modules that
    /// are all different, and ends with the first module once more. The
    /// circle is the end of a search path: for some known module that the
    /// search started from, and the path of value imports from it that a
    /// value import led back into, it is the path from the module met again
    /// to its end, and that module once more.
    pub fn topological_sort(&self) -> (sorted: Result<Vec<ModuleId>, ModuleError>)
        requires
            self.wf(),
        ensures
            match sorted {
                Ok(order) => self@.is_dependency_order(id_texts(order@)),
                Err(ModuleError::CircularDependency { cycle }) => {
                    &&& self@.is_simple_value_cycle(id_texts(cycle@))
                    &&& exists|start: Seq<char>|
                        self@.nodes.contains(start) && #[trigger] self@.found_from(
                            start,
                            id_texts(cycle@),
                        )
                },
                Err(_) => false,
            },
            sorted.is_ok() <==> self@.value_acyclic(),
    {
        let adj = self.value_links();
        proof {
            self.lemma_links_in_range(adjacency(&adj));
        }
        match dependency_order(&adj) {
            Ok(numbers) => {
                let order = self.names_of(&numbers);
                proof {
                    self.lemma_order_names(adjacency(&adj), numbers@);
                    self@.lemma_ordered_is_acyclic(id_texts(order@));
                }
                Ok(order)
            },
            Err(numbers) => {
                assert forall|p: int| 0 <= p < numbers.len() implies (#[trigger] numbers[p])
                    < self.nodes.len() by {
                    self.lemma_cycle_in_range(adjacency(&adj), numbers@, p);
                }
                let cycle = self.names_of(&numbers);
                proof {
                    self.lemma_cycle_names(adjacency(&adj), numbers@);
                    assert(self@.is_value_cycle(id_texts(cycle@)));
                    let start = choose|start: usize|
                        start < adj.len() && #[trigger] found_from(adjacency(&adj), start, numbers@);
                    self.lemma_found_names(adjacency(&adj), start, numbers@);
                    assert(self@.found_from(self.nodes[start as int]@, id_texts(cycle@)));
                }
                Err(ModuleError::CircularDependency { cycle })
            },
        }
    }
}

impl Default for DependencyGraph {
    fn default() -> (graph: DependencyGraph)
        ensures
            graph.wf(),
            graph@ == GraphModel::empty(),
    {
        DependencyGraph::new()
    }
}

} // verus!
