//! The checking driver: from the modules of one compilation to the order in
//! which they are checked and the export table of each.
//!
//! The graph is built from what every module imports and forwards, sorted
//! once, and the export tables are then made in that order. A module that
//! forwards a value of another module comes after it, so its table is made
//! when the other's table is finished.

use crate::module_resolver::dependency_graph::{DependencyGraph, EdgeKind, GraphModel, pair_views};
use crate::module_resolver::error::{id_texts, ErrorModel, ModuleError, ModuleId};
use crate::module_resolver::exports::{
    chains_end, declaration_views, ends_chain, lemma_bind_all_fails_as_duplicate,
    lemma_forwards_reach_the_end, resolve_exports, BindingModel, DeclarationModel, ExportBinding,
    ExportDeclaration, ExportMode, ExportRegistry, TableModel,
};
use crate::type_relations::{lookup, stored, touched, TypeRelationCache};
use vstd::prelude::*;

verus! {

/// One module of a compilation, as far as ordering and exports go.
#[derive(Debug)]
pub struct ModuleUnit {
    /// The identity of the module.
    pub id: ModuleId,
    /// The modules that it imports from, each with the kind of the import.
    pub imports: Vec<(ModuleId, EdgeKind)>,
    /// Its export declarations, in the order in which they are written.
    pub exports: Vec<ExportDeclaration>,
}

/// A module of a compilation as mathematics.
pub struct UnitModel {
    pub id: Seq<char>,
    pub imports: Seq<(Seq<char>, EdgeKind)>,
    pub exports: Seq<DeclarationModel>,
}

impl View for ModuleUnit {
    type V = UnitModel;

    open spec fn view(&self) -> UnitModel {
        UnitModel {
            id: self.id@,
            imports: pair_views(self.imports@),
            exports: declaration_views(self.exports@),
        }
    }
}

/// The modules of a compilation as mathematics.
pub open spec fn unit_views(units: Seq<ModuleUnit>) -> Seq<UnitModel> {
    units.map_values(|unit: ModuleUnit| unit@)
}

/// The edges that export declarations add to the graph, in order: one for
/// every declaration that forwards from another module.
pub open spec fn export_edges(declarations: Seq<DeclarationModel>) -> Seq<(Seq<char>, EdgeKind)>
    decreases declarations.len(),
{
    if declarations.len() == 0 {
        Seq::empty()
    } else {
        match declarations.last().edge() {
            Some(edge) => export_edges(declarations.drop_last()).push(edge),
            None => export_edges(declarations.drop_last()),
        }
    }
}

impl UnitModel {
    /// All edges of the module: its imports, then what it forwards.
    pub open spec fn edges(self) -> Seq<(Seq<char>, EdgeKind)> {
        self.imports + export_edges(self.exports)
    }
}

/// The graph in which the modules are registered one after the other, a
/// later registration of a module replacing an earlier one.
pub open spec fn graph_of(units: Seq<UnitModel>) -> GraphModel
    decreases units.len(),
{
    if units.len() == 0 {
        GraphModel::empty()
    } else {
        graph_of(units.drop_last()).with_module(units.last().id, units.last().edges())
    }
}

/// The export declarations of the module `id`: those of its last
/// registration, and none for a module that is only imported from.
pub open spec fn declarations_of(units: Seq<UnitModel>, id: Seq<char>) -> Seq<DeclarationModel>
    decreases units.len(),
{
    if units.len() == 0 {
        Seq::empty()
    } else if units.last().id == id {
        units.last().exports
    } else {
        declarations_of(units.drop_last(), id)
    }
}

/// The export tables made for the modules of `order`, one after the other,
/// each from the tables made before it, up to the first failure.
pub open spec fn resolve_in_order(order: Seq<Seq<char>>, units: Seq<UnitModel>) -> Result<
    Map<Seq<char>, TableModel>,
    ErrorModel,
>
    decreases order.len(),
{
    if order.len() == 0 {
        Ok(Map::empty())
    } else {
        match resolve_in_order(order.drop_last(), units) {
            Ok(finished) => match TableModel::empty().declare_all(
                order.last(),
                declarations_of(units, order.last()),
                finished,
            ) {
                Ok(table) => Ok(finished.insert(order.last(), table)),
                Err(failure) => Err(failure),
            },
            Err(failure) => Err(failure),
        }
    }
}

/// What a compilation resolves to: the order in which to check its modules,
/// and the export table of each.
#[derive(Debug)]
pub struct Resolution {
    /// Every known module once, each after the modules whose values it imports.
    pub order: Vec<ModuleId>,
    /// The export table of every module.
    pub exports: ExportRegistry,
}

/// All edges of a module: its imports, then what its export declarations
/// forward.
pub fn unit_edges(unit: &ModuleUnit) -> (edges: Vec<(ModuleId, EdgeKind)>)
    ensures
        pair_views(edges@) == unit@.edges(),
{
    let mut edges: Vec<(ModuleId, EdgeKind)> = Vec::new();
    let mut i: usize = 0;
    while i < unit.imports.len()
        invariant
            i <= unit.imports.len(),
            pair_views(edges@) == pair_views(unit.imports@).take(i as int),
        decreases unit.imports.len() - i,
    {
        let ghost before = edges@;
        edges.push((unit.imports[i].0.clone(), unit.imports[i].1));
        proof {
            assert(pair_views(edges@) =~= pair_views(before).push(
                (unit.imports[i as int].0@, unit.imports[i as int].1),
            ));
            assert(pair_views(unit.imports@).take(i + 1) =~= pair_views(unit.imports@).take(i as int).push(
                pair_views(unit.imports@)[i as int],
            ));
        }
        i = i + 1;
    }
    proof {
        assert(pair_views(unit.imports@).take(i as int) =~= pair_views(unit.imports@));
    }
    let ghost all = declaration_views(unit.exports@);
    let ghost imports = pair_views(unit.imports@);
    let mut k: usize = 0;
    proof {
        assert(imports + export_edges(all.take(0)) =~= imports);
    }
    while k < unit.exports.len()
        invariant
            k <= unit.exports.len(),
            all == declaration_views(unit.exports@),
            imports == pair_views(unit.imports@),
            pair_views(edges@) == imports + export_edges(all.take(k as int)),
        decreases unit.exports.len() - k,
    {
        proof {
            assert(all.take(k + 1).drop_last() =~= all.take(k as int));
            assert(all.take(k + 1).last() == unit.exports[k as int]@);
        }
        match unit.exports[k].edge() {
            Some(edge) => {
                let ghost before = edges@;
                let ghost added = (edge.0@, edge.1);
                edges.push(edge);
                proof {
                    assert(pair_views(edges@) =~= pair_views(before).push(added));
                    assert(imports + export_edges(all.take(k as int)).push(added) =~= (imports
                        + export_edges(all.take(k as int))).push(added));
                }
            },
            None => {},
        }
        k = k + 1;
    }
    proof {
        assert(all.take(k as int) =~= all);
    }
    edges
}

/// The dependency graph of a compilation: every module registered with its
/// edges, in the order of `units`.
pub fn build_graph(units: &Vec<ModuleUnit>) -> (graph: DependencyGraph)
    ensures
        graph.wf(),
        graph@ == graph_of(unit_views(units@)),
{
    let ghost all = unit_views(units@);
    let mut graph = DependencyGraph::new();
    let mut i: usize = 0;
    while i < units.len()
        invariant
            i <= units.len(),
            all == unit_views(units@),
            graph.wf(),
            graph@ == graph_of(all.take(i as int)),
        decreases units.len() - i,
    {
        proof {
            assert(all.take(i + 1).drop_last() =~= all.take(i as int));
            assert(all.take(i + 1).last() == units[i as int]@);
        }
        let edges = unit_edges(&units[i]);
        graph.add_module(units[i].id.clone(), edges);
        i = i + 1;
    }
    proof {
        assert(all.take(i as int) =~= all);
    }
    graph
}

/// The place of the last registration of the module `id`, if there is one.
fn last_unit(units: &Vec<ModuleUnit>, id: &ModuleId) -> (found: Option<usize>)
    ensures
        match found {
            Some(i) => i < units.len() && units[i as int].id@ == id@ && declarations_of(
                unit_views(units@),
                id@,
            ) == declaration_views(units[i as int].exports@),
            None => declarations_of(unit_views(units@), id@) == Seq::<DeclarationModel>::empty(),
        },
{
    let ghost all = unit_views(units@);
    let mut i: usize = units.len();
    proof {
        assert(all.take(i as int) =~= all);
    }
    while i > 0
        invariant
            i <= units.len(),
            all == unit_views(units@),
            declarations_of(all, id@) == declarations_of(all.take(i as int), id@),
        decreases i,
    {
        proof {
            assert(all.take(i as int).drop_last() =~= all.take(i - 1));
            assert(all.take(i as int).last() == units[i - 1]@);
        }
        if units[i - 1].id == *id {
            return Some(i - 1);
        }
        i = i - 1;
    }
    None
}

/// The outcome of `resolve_modules` on the modules `units` is right.
///
/// On success the order is a dependency-first order of the graph of the
/// modules, and the tables are those made in that order. A failure is a
/// circle of value imports in the graph, as the search from some module
/// reports it, or the first failure met while the tables were made in some
/// dependency-first order.
pub open spec fn resolved(units: Seq<UnitModel>, outcome: Result<Resolution, ModuleError>) -> bool {
    match outcome {
        Ok(resolution) => {
            &&& resolution.exports.wf()
            &&& graph_of(units).is_dependency_order(id_texts(resolution.order@))
            &&& resolve_in_order(id_texts(resolution.order@), units) == Ok::<
                Map<Seq<char>, TableModel>,
                ErrorModel,
            >(resolution.exports@)
        },
        Err(ModuleError::CircularDependency { cycle }) => {
            &&& graph_of(units).is_simple_value_cycle(id_texts(cycle@))
            &&& exists|start: Seq<char>|
                graph_of(units).nodes.contains(start) && #[trigger] graph_of(units).found_from(
                    start,
                    id_texts(cycle@),
                )
        },
        Err(error) => exists|order: Seq<Seq<char>>|
            graph_of(units).is_dependency_order(order) && fails_with(
                #[trigger] resolve_in_order(order, units),
                error,
            ),
    }
}

/// Making the tables failed, and `error` reports the failure.
pub open spec fn fails_with(
    made: Result<Map<Seq<char>, TableModel>, ErrorModel>,
    error: ModuleError,
) -> bool {
    match made {
        Ok(_) => false,
        Err(failure) => error@ == failure,
    }
}

/// Orders the modules of a compilation and makes the export table of each.
///
/// The modules are registered in the dependency graph with all their
/// edges, the graph is sorted, and the tables are made in the sorted order.
/// A module that no unit describes, but that is imported from, gets an
/// empty table. Where value imports form a circle the result is
/// `CircularDependency` and no table is made; that is the result exactly
/// when there is such a circle. Where a table cannot be made, the result is
/// the error of that table, and no tables come out at all. That error is
/// never `NotCompiled`: the table of a module whose value is forwarded is
/// made first. In the tables that come out, forwards are followed to their
/// end.
pub fn resolve_modules(units: &Vec<ModuleUnit>) -> (outcome: Result<Resolution, ModuleError>)
    ensures
        resolved(unit_views(units@), outcome),
        graph_of(unit_views(units@)).value_acyclic() <==> !(outcome matches Err(
            ModuleError::CircularDependency { .. },
        )),
        !(outcome matches Err(ModuleError::NotCompiled { .. })),
        match outcome {
            Ok(resolution) => chains_end(resolution.exports@),
            Err(_) => true,
        },
{
    let ghost all = unit_views(units@);
    let graph = build_graph(units);
    let order = match graph.topological_sort() {
        Ok(order) => order,
        Err(error) => {
            return Err(error);
        },
    };
    let ghost names = id_texts(order@);
    let mut exports = ExportRegistry::new();
    let empty: Vec<ExportDeclaration> = Vec::new();
    proof {
        assert(declaration_views(empty@) =~= Seq::<DeclarationModel>::empty());
    }
    let mut k: usize = 0;
    while k < order.len()
        invariant
            k <= order.len(),
            all == unit_views(units@),
            names == id_texts(order@),
            exports.wf(),
            declaration_views(empty@) == Seq::<DeclarationModel>::empty(),
            graph_of(all).is_dependency_order(names),
            graph_of(all).value_acyclic(),
            resolve_in_order(names.take(k as int), all) == Ok::<
                Map<Seq<char>, TableModel>,
                ErrorModel,
            >(exports@),
        decreases order.len() - k,
    {
        proof {
            assert(names.take(k + 1).drop_last() =~= names.take(k as int));
            assert(names.take(k + 1).last() == order[k as int]@);
        }
        let declarations = match last_unit(units, &order[k]) {
            Some(i) => &units[i].exports,
            None => &empty,
        };
        match resolve_exports(&order[k], declarations, &exports) {
            Ok(table) => {
                exports.insert(order[k].clone(), table);
            },
            Err(error) => {
                proof {
                    lemma_resolve_in_order_stops(names, all, k + 1);
                    assert(fails_with(resolve_in_order(names, all), error));
                    lemma_failure_kinds(names, all);
                    assert(names.take(names.len() as int) =~= names);
                    lemma_predecessors_finished(all, names, names.len() as int);
                }
                return Err(error);
            },
        }
        k = k + 1;
    }
    proof {
        assert(names.take(k as int) =~= names);
        lemma_chains_end(names, all);
    }
    Ok(Resolution { order, exports })
}

/// Once a table could not be made, the tables of later modules are not made.
pub proof fn lemma_resolve_in_order_stops(order: Seq<Seq<char>>, units: Seq<UnitModel>, k: int)
    requires
        0 <= k <= order.len(),
        resolve_in_order(order.take(k), units).is_err(),
    ensures
        resolve_in_order(order, units) == resolve_in_order(order.take(k), units),
    decreases order.len() - k,
{
    if k < order.len() {
        assert(order.take(k + 1).drop_last() =~= order.take(k));
        lemma_resolve_in_order_stops(order, units, k + 1);
    } else {
        assert(order.take(k) =~= order);
    }
}

/// The edge of a forwarding declaration is among the edges that the
/// declarations add to the graph.
pub proof fn lemma_export_edge_listed(declarations: Seq<DeclarationModel>, k: int)
    requires
        0 <= k < declarations.len(),
        declarations[k].edge().is_some(),
    ensures
        export_edges(declarations).contains(declarations[k].edge().unwrap()),
    decreases declarations.len(),
{
    let edges = export_edges(declarations);
    let front = declarations.drop_last();
    let shorter = export_edges(front);
    if k == declarations.len() - 1 {
        assert(edges[shorter.len() as int] == declarations[k].edge().unwrap());
    } else {
        assert(front[k] == declarations[k]);
        lemma_export_edge_listed(front, k);
        let p = choose|p: int| 0 <= p < shorter.len() && shorter[p] == declarations[k].edge().unwrap();
        assert(edges[p] == shorter[p]);
    }
}

/// A module that forwards a value of another module imports a value of it
/// in the graph of the compilation.
pub proof fn lemma_value_forward_is_edge(units: Seq<UnitModel>, id: Seq<char>, k: int, source: Seq<char>)
    requires
        0 <= k < declarations_of(units, id).len(),
        declarations_of(units, id)[k].edge() == Some((source, EdgeKind::Value)),
    ensures
        graph_of(units).value_edge(id, source),
    decreases units.len(),
{
    if units.len() > 0 {
        let last = units.last();
        let before = graph_of(units.drop_last());
        if last.id == id {
            lemma_export_edge_listed(last.exports, k);
            let listed = export_edges(last.exports);
            let p = choose|p: int| 0 <= p < listed.len() && listed[p] == (source, EdgeKind::Value);
            assert(last.edges()[last.imports.len() + p] == (source, EdgeKind::Value));
        } else {
            lemma_value_forward_is_edge(units.drop_last(), id, k, source);
            assert(before.edges.contains_key(id));
            assert(graph_of(units).edges[id] == before.edges[id]);
        }
    }
}

/// Where the tables of all sources of value forwards are made, no
/// declaration fails for want of a table.
pub proof fn lemma_sources_finished(
    table: TableModel,
    owner: Seq<char>,
    declarations: Seq<DeclarationModel>,
    finished: Map<Seq<char>, TableModel>,
)
    requires
        forall|k: int, source: Seq<char>|
            0 <= k < declarations.len() && (#[trigger] declarations[k]).edge() == Some(
                (source, EdgeKind::Value),
            ) ==> #[trigger] finished.contains_key(source),
    ensures
        !(table.declare_all(owner, declarations, finished) is Err && table.declare_all(
            owner,
            declarations,
            finished,
        )->Err_0 is NotCompiled),
    decreases declarations.len(),
{
    if declarations.len() > 0 {
        let front = declarations.drop_last();
        let last = declarations.last();
        assert forall|k: int, source: Seq<char>|
            0 <= k < front.len() && (#[trigger] front[k]).edge() == Some(
                (source, EdgeKind::Value),
            ) implies #[trigger] finished.contains_key(source) by {
            assert(front[k] == declarations[k]);
        }
        lemma_sources_finished(table, owner, front, finished);
        match table.declare_all(owner, front, finished) {
            Ok(middle) => {
                assert(declarations[declarations.len() - 1] == last);
                match last {
                    DeclarationModel::Local { name, alias, mode } => {},
                    DeclarationModel::Named { name, alias, source, mode } => {
                        if mode != ExportMode::Type {
                            assert(last.edge() == Some((source, EdgeKind::Value)));
                            assert(finished.contains_key(source));
                        }
                    },
                    DeclarationModel::Wildcard { source, type_only } => {
                        if !type_only {
                            assert(last.edge() == Some((source, EdgeKind::Value)));
                            assert(finished.contains_key(source));
                        } else {
                        }
                        if finished.contains_key(source) {
                            lemma_bind_all_fails_as_duplicate(middle, owner, finished[source].bindings);
                        }
                    },
                }
            },
            Err(failure) => {},
        }
    }
}

/// Making the tables of a compilation fails in three ways only: as a
/// duplicate export, as a name that a source does not export, or as a
/// source without a table.
pub proof fn lemma_failure_kinds(order: Seq<Seq<char>>, units: Seq<UnitModel>)
    ensures
        match resolve_in_order(order, units) {
            Ok(_) => true,
            Err(failure) => failure is DuplicateExport || failure is ExportNotFound
                || failure is NotCompiled,
        },
    decreases order.len(),
{
    if order.len() > 0 {
        lemma_failure_kinds(order.drop_last(), units);
        match resolve_in_order(order.drop_last(), units) {
            Ok(finished) => {
                crate::module_resolver::exports::lemma_failure_kinds(
                    TableModel::empty(),
                    order.last(),
                    declarations_of(units, order.last()),
                    finished,
                );
            },
            Err(_) => {},
        }
    }
}

/// The tables that are made are those of the modules of the order.
pub proof fn lemma_resolved_modules(order: Seq<Seq<char>>, units: Seq<UnitModel>)
    requires
        resolve_in_order(order, units) is Ok,
    ensures
        forall|id: Seq<char>| #[trigger]
            resolve_in_order(order, units)->Ok_0.contains_key(id) <==> order.contains(id),
    decreases order.len(),
{
    let made = resolve_in_order(order, units)->Ok_0;
    if order.len() > 0 {
        let front = order.drop_last();
        lemma_resolved_modules(front, units);
        let before = resolve_in_order(front, units)->Ok_0;
        assert forall|id: Seq<char>| #[trigger] made.contains_key(id) <==> order.contains(id) by {
            if made.contains_key(id) {
                if id == order.last() {
                    assert(order[order.len() - 1] == id);
                } else {
                    assert(before.contains_key(id));
                    assert(front.contains(id));
                    let p = choose|p: int| 0 <= p < front.len() && front[p] == id;
                    assert(order[p] == id);
                }
            }
            if order.contains(id) {
                let p = choose|p: int| 0 <= p < order.len() && order[p] == id;
                if p < front.len() {
                    assert(front[p] == id);
                    assert(before.contains_key(id));
                }
            }
        }
    }
}

/// Tables made in a dependency-first order never lack the table of a module
/// whose value is forwarded: no failure is `NotCompiled`. This holds of
/// every beginning of the order too.
pub proof fn lemma_predecessors_finished(units: Seq<UnitModel>, order: Seq<Seq<char>>, k: int)
    requires
        graph_of(units).is_dependency_order(order),
        0 <= k <= order.len(),
    ensures
        !(resolve_in_order(order.take(k), units) is Err && resolve_in_order(
            order.take(k),
            units,
        )->Err_0 is NotCompiled),
    decreases k,
{
    if k > 0 {
        let part = order.take(k);
        let front = order.take(k - 1);
        assert(part.drop_last() =~= front);
        assert(part.last() == order[k - 1]);
        lemma_predecessors_finished(units, order, k - 1);
        match resolve_in_order(front, units) {
            Ok(finished) => {
                let owner = order[k - 1];
                let declarations = declarations_of(units, owner);
                lemma_resolved_modules(front, units);
                assert forall|j: int, source: Seq<char>|
                    0 <= j < declarations.len() && (#[trigger] declarations[j]).edge() == Some(
                        (source, EdgeKind::Value),
                    ) implies #[trigger] finished.contains_key(source) by {
                    lemma_value_forward_is_edge(units, owner, j, source);
                    assert(graph_of(units).value_edge(order[k - 1], source));
                    let q = choose|q: int| 0 <= q < k - 1 && order[q] == source;
                    assert(front[q] == source);
                    assert(front.contains(source));
                }
                lemma_sources_finished(TableModel::empty(), owner, declarations, finished);
            },
            Err(failure) => {},
        }
    }
}

/// What an import of `name` from the module `source` leads to, where
/// `exports` holds the tables made so far: the binding under that name, or
/// the failure to find one.
pub open spec fn import_of(
    exports: Map<Seq<char>, TableModel>,
    source: Seq<char>,
    name: Seq<char>,
) -> Result<BindingModel, ErrorModel> {
    if !exports.contains_key(source) {
        Err(ErrorModel::NotCompiled { id: source })
    } else {
        match exports[source].binding(name) {
            Some(binding) => Ok(binding),
            None => Err(ErrorModel::ExportNotFound { module_id: source, export_name: name }),
        }
    }
}

/// Binds an import of `name` from the module `source`.
///
/// Returns what `source` exports under that name. The result is
/// `NotCompiled` where `source` has no table yet, and `ExportNotFound` where
/// its table has no such name.
pub fn bind_import<'a>(exports: &'a ExportRegistry, source: &ModuleId, name: &str) -> (bound: Result<
    &'a ExportBinding,
    ModuleError,
>)
    requires
        exports.wf(),
    ensures
        match import_of(exports@, source@, name@) {
            Ok(binding) => match bound {
                Ok(found) => found@ == binding,
                Err(_) => false,
            },
            Err(failure) => match bound {
                Ok(_) => false,
                Err(error) => error@ == failure,
            },
        },
{
    match exports.get(source) {
        None => Err(ModuleError::NotCompiled { id: source.clone() }),
        Some(table) => match table.get(name) {
            Some(binding) => Ok(binding),
            None => Err(
                ModuleError::ExportNotFound { module_id: source.clone(), export_name: name.to_owned() },
            ),
        },
    }
}

/// Decides whether the type `source` may stand where the type `target` is
/// expected, by way of the cache.
///
/// A verdict that the cache holds for the ordered pair is returned and
/// counted as a hit. Otherwise the lookup is counted as a miss, `decide` is
/// called, and its verdict is stored and returned.
pub fn cached_verdict<F: FnOnce() -> bool>(
    cache: &mut TypeRelationCache,
    source: usize,
    target: usize,
    decide: F,
) -> (verdict: bool)
    requires
        old(cache).wf(),
        old(cache)@.hits + old(cache)@.misses < u64::MAX,
        call_requires(decide, ()),
    ensures
        final(cache).wf(),
        final(cache)@.capacity == old(cache)@.capacity,
        match lookup(old(cache)@.entries, (source, target)) {
            Some(known) => {
                &&& verdict == known
                &&& final(cache)@.entries == touched(old(cache)@.entries, (source, target))
                &&& final(cache)@.hits == old(cache)@.hits + 1
                &&& final(cache)@.misses == old(cache)@.misses
            },
            None => {
                &&& call_ensures(decide, (), verdict)
                &&& final(cache)@.entries == stored(
                    old(cache)@.entries,
                    old(cache)@.capacity,
                    (source, target),
                    verdict,
                )
                &&& final(cache)@.hits == old(cache)@.hits
                &&& final(cache)@.misses == old(cache)@.misses + 1
            },
        },
{
    match cache.get(source, target) {
        Some(known) => known,
        None => {
            let verdict = decide();
            cache.insert(source, target, verdict);
            verdict
        },
    }
}

/// Forwards are followed to their end: in the tables of a compilation,
/// made in an order that names no module twice, every binding that is not
/// deferred leads to a declaration that its module's own table exports.
pub proof fn lemma_chains_end(order: Seq<Seq<char>>, units: Seq<UnitModel>)
    requires
        order.no_duplicates(),
        resolve_in_order(order, units) is Ok,
    ensures
        chains_end(resolve_in_order(order, units)->Ok_0),
    decreases order.len(),
{
    let made = resolve_in_order(order, units)->Ok_0;
    if order.len() > 0 {
        let front = order.drop_last();
        let owner = order.last();
        let finished = resolve_in_order(front, units)->Ok_0;
        let table = TableModel::empty().declare_all(owner, declarations_of(units, owner), finished)->Ok_0;
        assert forall|a: int, b: int| 0 <= a < front.len() && 0 <= b < front.len() && a
            != b implies front[a] != front[b] by {
            assert(front[a] == order[a] && front[b] == order[b]);
        }
        lemma_chains_end(front, units);
        lemma_resolved_modules(front, units);
        if finished.contains_key(owner) {
            let p = choose|p: int| 0 <= p < front.len() && front[p] == owner;
            assert(order[p] == order[order.len() - 1]);
        }
        lemma_forwards_reach_the_end(TableModel::empty(), owner, declarations_of(units, owner), finished);
        assert(made == finished.insert(owner, table));
        assert forall|module: Seq<char>, i: int|
            made.contains_key(module) && 0 <= i < made[module].bindings.len() implies ends_chain(
            made,
            module,
            #[trigger] made[module].bindings[i],
        ) by {
            let binding = made[module].bindings[i];
            if module == owner {
                assert(ends_chain(finished, owner, table.bindings[i]));
                if !binding.deferred && binding.module != owner {
                    assert(made[binding.module] == finished[binding.module]);
                }
            } else {
                assert(ends_chain(finished, module, finished[module].bindings[i]));
                if !binding.deferred && binding.module != module {
                    assert(finished.contains_key(binding.module));
                    assert(made[binding.module] == finished[binding.module]);
                }
            }
        }
    }
}

} // verus!
