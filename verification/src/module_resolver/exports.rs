//! Export tables: which names a module offers to others, and what each leads to.
//!
//! A module's table is made from its export declarations in one pass, in the
//! order in which they are written. A declaration that forwards from another
//! module reads that module's table, which is finished already when modules
//! are resolved in dependency order; the binding it makes leads to where the
//! other module's binding leads, so a chain of forwards is followed to its end.

use super::dependency_graph::EdgeKind;
use super::error::{id_texts, ErrorModel, ModuleError, ModuleId};
use vstd::prelude::*;

verus! {

/// Whether an exported name stands for a value or for a type only.
#[derive(Debug, Clone, Copy, PartialEq, Eq, Hash, Structural)]
pub enum ExportMode {
    /// The name stands for a value, which exists at run time.
    Value,
    /// The name stands for a type, which is erased before run time.
    Type,
}

/// One exported name of a module and what it leads to.
#[derive(Debug)]
pub struct ExportBinding {
    /// The name under which other modules see the export.
    pub external: String,
    /// Whether the name is exported as a value or as a type.
    pub mode: ExportMode,
    /// The module that the binding leads to.
    pub module: ModuleId,
    /// The name that the binding leads to in that module.
    pub name: String,
    /// Whether the binding stops at an export of `module` that was not looked
    /// up, because that module's table was not made yet. Otherwise `name` is
    /// a declaration of `module` itself.
    pub deferred: bool,
}

/// An export binding as mathematics.
pub struct BindingModel {
    pub external: Seq<char>,
    pub mode: ExportMode,
    pub module: Seq<char>,
    pub name: Seq<char>,
    pub deferred: bool,
}

impl View for ExportBinding {
    type V = BindingModel;

    open spec fn view(&self) -> BindingModel {
        BindingModel {
            external: self.external@,
            mode: self.mode,
            module: self.module@,
            name: self.name@,
            deferred: self.deferred,
        }
    }
}

impl Clone for ExportBinding {
    fn clone(&self) -> (copy: ExportBinding)
        ensures
            copy@ == self@,
    {
        ExportBinding {
            external: self.external.clone(),
            mode: self.mode,
            module: self.module.clone(),
            name: self.name.clone(),
            deferred: self.deferred,
        }
    }
}

/// One export declaration of a module, for one name or for all names of a source.
#[derive(Debug)]
pub enum ExportDeclaration {
    /// `export { name }` or `export { name as alias }`, and the same after
    /// `export type`: a name that the module declares or imports itself.
    Local { name: String, alias: Option<String>, mode: ExportMode },
    /// `export { name } from source` or `export { name as alias } from source`,
    /// and the same after `export type`: a name that `source` exports. Such a
    /// declaration has no place for a type of its own: what the name is, its
    /// source decides, and a forward written with a type is not a declaration.
    Named { name: String, alias: Option<String>, source: ModuleId, mode: ExportMode },
    /// `export * from source` or `export type * from source`: every name
    /// that `source` exports.
    Wildcard { source: ModuleId, type_only: bool },
}

/// An export declaration as mathematics.
pub enum DeclarationModel {
    Local { name: Seq<char>, alias: Option<Seq<char>>, mode: ExportMode },
    Named { name: Seq<char>, alias: Option<Seq<char>>, source: Seq<char>, mode: ExportMode },
    Wildcard { source: Seq<char>, type_only: bool },
}

/// The text of an optional alias.
pub open spec fn alias_text(alias: Option<String>) -> Option<Seq<char>> {
    match alias {
        Some(text) => Some(text@),
        None => None,
    }
}

impl View for ExportDeclaration {
    type V = DeclarationModel;

    open spec fn view(&self) -> DeclarationModel {
        match self {
            ExportDeclaration::Local { name, alias, mode } => DeclarationModel::Local {
                name: name@,
                alias: alias_text(*alias),
                mode: *mode,
            },
            ExportDeclaration::Named { name, alias, source, mode } => DeclarationModel::Named {
                name: name@,
                alias: alias_text(*alias),
                source: source@,
                mode: *mode,
            },
            ExportDeclaration::Wildcard { source, type_only } => DeclarationModel::Wildcard {
                source: source@,
                type_only: *type_only,
            },
        }
    }
}

impl DeclarationModel {
    /// The name under which the declaration exports: the alias where there
    /// is one, else the name itself. A wildcard has none of its own.
    pub open spec fn external(self) -> Option<Seq<char>> {
        match self {
            DeclarationModel::Local { name, alias, mode } => Some(
                match alias {
                    Some(text) => text,
                    None => name,
                },
            ),
            DeclarationModel::Named { name, alias, source, mode } => Some(
                match alias {
                    Some(text) => text,
                    None => name,
                },
            ),
            DeclarationModel::Wildcard { source, type_only } => None,
        }
    }

    /// The edge that the declaration adds to the dependency graph: none for
    /// a local export, a type-only edge for a type-only forward, else a
    /// value edge.
    pub open spec fn edge(self) -> Option<(Seq<char>, EdgeKind)> {
        match self {
            DeclarationModel::Local { name, alias, mode } => None,
            DeclarationModel::Named { name, alias, source, mode } => Some(
                (
                    source,
                    if mode == ExportMode::Type {
                        EdgeKind::TypeOnly
                    } else {
                        EdgeKind::Value
                    },
                ),
            ),
            DeclarationModel::Wildcard { source, type_only } => Some(
                (
                    source,
                    if type_only {
                        EdgeKind::TypeOnly
                    } else {
                        EdgeKind::Value
                    },
                ),
            ),
        }
    }
}

impl ExportDeclaration {
    /// The edge that this declaration adds to the dependency graph, if any.
    pub fn edge(&self) -> (edge: Option<(ModuleId, EdgeKind)>)
        ensures
            match edge {
                Some(pair) => self@.edge() == Some((pair.0@, pair.1)),
                None => self@.edge().is_none(),
            },
    {
        match self {
            ExportDeclaration::Local { name, alias, mode } => None,
            ExportDeclaration::Named { name, alias, source, mode } => {
                let kind = match mode {
                    ExportMode::Type => EdgeKind::TypeOnly,
                    ExportMode::Value => EdgeKind::Value,
                };
                Some((source.clone(), kind))
            },
            ExportDeclaration::Wildcard { source, type_only } => {
                let kind = if *type_only {
                    EdgeKind::TypeOnly
                } else {
                    EdgeKind::Value
                };
                Some((source.clone(), kind))
            },
        }
    }
}

/// An export table as mathematics.
pub struct TableModel {
    /// The bindings, in the order in which they were made.
    pub bindings: Seq<BindingModel>,
    /// The sources of type-only wildcards whose tables were not made yet.
    pub pending: Seq<Seq<char>>,
}

/// The step `done` of making a table ended as `wanted` says: in the table
/// `after`, or with that error and the table as it was, `before`.
pub open spec fn step_agrees(
    done: Result<(), ModuleError>,
    wanted: Result<TableModel, ErrorModel>,
    before: TableModel,
    after: TableModel,
) -> bool {
    match wanted {
        Ok(table) => done.is_ok() && after == table,
        Err(failure) => match done {
            Ok(_) => false,
            Err(error) => error@ == failure && after == before,
        },
    }
}

impl TableModel {
    /// The table without bindings.
    pub open spec fn empty() -> TableModel {
        TableModel { bindings: Seq::empty(), pending: Seq::empty() }
    }

    /// Some binding exports under the name `external`.
    pub open spec fn exports(self, external: Seq<char>) -> bool {
        exists|i: int| 0 <= i < self.bindings.len() && (#[trigger] self.bindings[i]).external == external
    }

    /// A place where a binding exports under the name `external`.
    pub open spec fn place(self, external: Seq<char>) -> int {
        choose|i: int| 0 <= i < self.bindings.len() && (#[trigger] self.bindings[i]).external == external
    }

    /// The binding that exports under the name `external`, if there is one.
    pub open spec fn binding(self, external: Seq<char>) -> Option<BindingModel> {
        if self.exports(external) {
            Some(self.bindings[self.place(external)])
        } else {
            None
        }
    }

    /// No two bindings export under the same name.
    pub open spec fn distinct(self) -> bool {
        forall|i: int, j: int|
            0 <= i < self.bindings.len() && 0 <= j < self.bindings.len() && i != j ==> (
            #[trigger] self.bindings[i]).external != (#[trigger] self.bindings[j]).external
    }

    /// The table after one more binding is made for the module `owner`. A
    /// name that is not exported yet gets the binding. A name that is
    /// exported in the same mode keeps the binding it has. A name that is
    /// exported in the other mode is a conflict.
    pub open spec fn bind(self, owner: Seq<char>, binding: BindingModel) -> Result<
        TableModel,
        ErrorModel,
    > {
        if !self.exports(binding.external) {
            Ok(TableModel { bindings: self.bindings.push(binding), pending: self.pending })
        } else if self.bindings[self.place(binding.external)].mode == binding.mode {
            Ok(self)
        } else {
            Err(ErrorModel::DuplicateExport { module_id: owner, export_name: binding.external })
        }
    }

    /// The table after bindings are made for `items` one after the other,
    /// up to the first conflict.
    pub open spec fn bind_all(self, owner: Seq<char>, items: Seq<BindingModel>) -> Result<
        TableModel,
        ErrorModel,
    >
        decreases items.len(),
    {
        if items.len() == 0 {
            Ok(self)
        } else {
            match self.bind_all(owner, items.drop_last()) {
                Ok(table) => table.bind(owner, items.last()),
                Err(failure) => Err(failure),
            }
        }
    }

    /// The table after the declaration `declaration` of the module `owner`
    /// is taken in, where `finished` holds the tables made so far.
    ///
    /// A local export leads to the module's own declaration. A named forward
    /// leads to where the source's binding of the name leads; from a source
    /// without a table a value cannot be forwarded, while a type is bound to
    /// the source's export without looking it up. A wildcard takes over every
    /// binding of the source under its name and mode; a type-only wildcard
    /// from a source without a table is noted as pending.
    pub open spec fn declare(
        self,
        owner: Seq<char>,
        declaration: DeclarationModel,
        finished: Map<Seq<char>, TableModel>,
    ) -> Result<TableModel, ErrorModel> {
        match declaration {
            DeclarationModel::Local { name, alias, mode } => self.bind(
                owner,
                BindingModel {
                    external: declaration.external().unwrap(),
                    mode,
                    module: owner,
                    name,
                    deferred: false,
                },
            ),
            DeclarationModel::Named { name, alias, source, mode } => {
                if finished.contains_key(source) {
                    match finished[source].binding(name) {
                        Some(found) => self.bind(
                            owner,
                            BindingModel {
                                external: declaration.external().unwrap(),
                                mode,
                                module: found.module,
                                name: found.name,
                                deferred: found.deferred,
                            },
                        ),
                        None => Err(ErrorModel::ExportNotFound { module_id: source, export_name: name }),
                    }
                } else if mode == ExportMode::Type {
                    self.bind(
                        owner,
                        BindingModel {
                            external: declaration.external().unwrap(),
                            mode,
                            module: source,
                            name,
                            deferred: true,
                        },
                    )
                } else {
                    Err(ErrorModel::NotCompiled { id: source })
                }
            },
            DeclarationModel::Wildcard { source, type_only } => {
                if finished.contains_key(source) {
                    self.bind_all(owner, finished[source].bindings)
                } else if type_only {
                    Ok(TableModel { bindings: self.bindings, pending: self.pending.push(source) })
                } else {
                    Err(ErrorModel::NotCompiled { id: source })
                }
            },
        }
    }

    /// The table after the declarations `declarations` of the module `owner`
    /// are taken in one after the other, up to the first failure.
    pub open spec fn declare_all(
        self,
        owner: Seq<char>,
        declarations: Seq<DeclarationModel>,
        finished: Map<Seq<char>, TableModel>,
    ) -> Result<TableModel, ErrorModel>
        decreases declarations.len(),
    {
        if declarations.len() == 0 {
            Ok(self)
        } else {
            match self.declare_all(owner, declarations.drop_last(), finished) {
                Ok(table) => table.declare(owner, declarations.last(), finished),
                Err(failure) => Err(failure),
            }
        }
    }
}

/// The export table of one module.
#[derive(Debug)]
pub struct ExportTable {
    bindings: Vec<ExportBinding>,
    pending: Vec<ModuleId>,
}

/// The bindings of a table as mathematics.
pub open spec fn binding_views(bindings: Seq<ExportBinding>) -> Seq<BindingModel> {
    bindings.map_values(|binding: ExportBinding| binding@)
}

impl View for ExportTable {
    type V = TableModel;

    closed spec fn view(&self) -> TableModel {
        TableModel {
            bindings: binding_views(self.bindings@),
            pending: id_texts(self.pending@),
        }
    }
}

impl ExportTable {
    /// The table is well formed: no name is exported twice.
    pub open spec fn wf(&self) -> bool {
        self@.distinct()
    }

    /// A table without bindings.
    pub fn new() -> (table: ExportTable)
        ensures
            table.wf(),
            table@ == TableModel::empty(),
    {
        let table = ExportTable { bindings: Vec::new(), pending: Vec::new() };
        proof {
            assert(table@.bindings =~= Seq::<BindingModel>::empty());
            assert(table@.pending =~= Seq::<Seq<char>>::empty());
        }
        table
    }

    /// The place of the binding that exports under `external`, if there is one.
    fn find(&self, external: &String) -> (found: Option<usize>)
        requires
            self.wf(),
        ensures
            match found {
                Some(i) => i < self.bindings.len() && self.bindings[i as int].external@ == external@
                    && self@.exports(external@) && self@.place(external@) == i,
                None => !self@.exports(external@),
            },
    {
        let mut i: usize = 0;
        while i < self.bindings.len()
            invariant
                self.wf(),
                i <= self.bindings.len(),
                forall|j: int| 0 <= j < i ==> self.bindings[j].external@ != external@,
            decreases self.bindings.len() - i,
        {
            if self.bindings[i].external == *external {
                proof {
                    assert(self@.bindings[i as int].external == external@);
                    let p = self@.place(external@);
                    assert(self@.bindings[p].external == self@.bindings[i as int].external);
                }
                return Some(i);
            }
            i = i + 1;
        }
        proof {
            assert forall|j: int| 0 <= j < self@.bindings.len() implies (#[trigger] self@.bindings[j]).external
                != external@ by {
                assert(self@.bindings[j] == self.bindings[j]@);
            }
        }
        None
    }

    /// The binding that exports under the name `external`, if there is one.
    pub fn get(&self, external: &str) -> (found: Option<&ExportBinding>)
        requires
            self.wf(),
        ensures
            match found {
                Some(binding) => self@.binding(external@) == Some(binding@),
                None => self@.binding(external@).is_none(),
            },
    {
        let key = external.to_owned();
        match self.find(&key) {
            Some(i) => {
                assert(self@.bindings[i as int] == self.bindings[i as int]@);
                Some(&self.bindings[i])
            },
            None => None,
        }
    }

    /// All bindings, in the order in which they were made.
    pub fn bindings(&self) -> (all: &Vec<ExportBinding>)
        ensures
            binding_views(all@) == self@.bindings,
    {
        &self.bindings
    }

    /// The sources of type-only wildcards whose tables were not made yet
    /// when this table was made.
    pub fn pending(&self) -> (all: &Vec<ModuleId>)
        ensures
            id_texts(all@) == self@.pending,
    {
        &self.pending
    }

    /// Makes one more binding for the module `owner`, unless the name is
    /// exported already: in the same mode the table stays as it is, in the
    /// other mode the result is `DuplicateExport` and the table stays as it is.
    pub fn bind(&mut self, owner: &ModuleId, binding: ExportBinding) -> (done: Result<(), ModuleError>)
        requires
            old(self).wf(),
        ensures
            final(self).wf(),
            step_agrees(done, old(self)@.bind(owner@, binding@), old(self)@, final(self)@),
    {
        match self.find(&binding.external) {
            Some(i) => {
                assert(self@.bindings[i as int] == self.bindings[i as int]@);
                if self.bindings[i].mode == binding.mode {
                    Ok(())
                } else {
                    Err(
                        ModuleError::DuplicateExport {
                            module_id: owner.clone(),
                            export_name: binding.external,
                        },
                    )
                }
            },
            None => {
                let ghost added = binding@;
                self.bindings.push(binding);
                proof {
                    assert(self@.bindings =~= old(self)@.bindings.push(added));
                    assert forall|i: int, j: int|
                        0 <= i < self@.bindings.len() && 0 <= j < self@.bindings.len() && i
                            != j implies (#[trigger] self@.bindings[i]).external != (
                    #[trigger] self@.bindings[j]).external by {
                        if i < old(self)@.bindings.len() {
                            assert(self@.bindings[i] == old(self)@.bindings[i]);
                        }
                        if j < old(self)@.bindings.len() {
                            assert(self@.bindings[j] == old(self)@.bindings[j]);
                        }
                    }
                }
                Ok(())
            },
        }
    }

    /// Makes a binding for every binding of `items`, one after the other.
    /// At the first conflict the bindings made so far are taken back, so
    /// that the table is as it was.
    fn bind_each(&mut self, owner: &ModuleId, items: &Vec<ExportBinding>) -> (done: Result<
        (),
        ModuleError,
    >)
        requires
            old(self).wf(),
        ensures
            final(self).wf(),
            step_agrees(
                done,
                old(self)@.bind_all(owner@, binding_views(items@)),
                old(self)@,
                final(self)@,
            ),
    {
        let ghost all = binding_views(items@);
        let ghost start = self@;
        let held = self.bindings.len();
        let mut k: usize = 0;
        while k < items.len()
            invariant
                self.wf(),
                k <= items.len(),
                all == binding_views(items@),
                start == old(self)@,
                held == start.bindings.len(),
                start.bindings.is_prefix_of(self@.bindings),
                self@.pending == start.pending,
                start.bind_all(owner@, all.take(k as int)) == Ok::<TableModel, ErrorModel>(self@),
            decreases items.len() - k,
        {
            let ghost before = self@;
            proof {
                assert(all.take(k + 1).drop_last() =~= all.take(k as int));
                assert(all.take(k + 1).last() == items[k as int]@);
                assert(start.bind_all(owner@, all.take(k + 1)) == before.bind(owner@, items[k as int]@));
            }
            match self.bind(owner, items[k].clone()) {
                Ok(()) => {
                    proof {
                        assert(start.bindings =~= self@.bindings.subrange(0, held as int)) by {
                            assert(start.bindings =~= before.bindings.subrange(0, held as int));
                        }
                    }
                },
                Err(error) => {
                    proof {
                        lemma_bind_all_stops(start, owner@, all, k + 1);
                    }
                    self.bindings.truncate(held);
                    proof {
                        assert(self@.bindings =~= start.bindings) by {
                            assert(start.bindings =~= before.bindings.subrange(0, held as int));
                        }
                        assert(self@ == start);
                    }
                    return Err(error);
                },
            }
            k = k + 1;
        }
        proof {
            assert(all.take(k as int) =~= all);
        }
        Ok(())
    }

    /// Takes in one declaration of the module `owner`, where `finished`
    /// holds the tables made so far.
    pub fn declare(
        &mut self,
        owner: &ModuleId,
        declaration: &ExportDeclaration,
        finished: &ExportRegistry,
    ) -> (done: Result<(), ModuleError>)
        requires
            old(self).wf(),
            finished.wf(),
        ensures
            final(self).wf(),
            step_agrees(
                done,
                old(self)@.declare(owner@, declaration@, finished@),
                old(self)@,
                final(self)@,
            ),
    {
        match declaration {
            ExportDeclaration::Local { name, alias, mode } => {
                let external = match alias {
                    Some(text) => text.clone(),
                    None => name.clone(),
                };
                self.bind(
                    owner,
                    ExportBinding {
                        external,
                        mode: *mode,
                        module: owner.clone(),
                        name: name.clone(),
                        deferred: false,
                    },
                )
            },
            ExportDeclaration::Named { name, alias, source, mode } => {
                let external = match alias {
                    Some(text) => text.clone(),
                    None => name.clone(),
                };
                match finished.get(source) {
                    Some(table) => match table.get(name.as_str()) {
                        Some(found) => self.bind(
                            owner,
                            ExportBinding {
                                external,
                                mode: *mode,
                                module: found.module.clone(),
                                name: found.name.clone(),
                                deferred: found.deferred,
                            },
                        ),
                        None => Err(
                            ModuleError::ExportNotFound {
                                module_id: source.clone(),
                                export_name: name.clone(),
                            },
                        ),
                    },
                    None => match mode {
                        ExportMode::Type => self.bind(
                            owner,
                            ExportBinding {
                                external,
                                mode: *mode,
                                module: source.clone(),
                                name: name.clone(),
                                deferred: true,
                            },
                        ),
                        ExportMode::Value => Err(ModuleError::NotCompiled { id: source.clone() }),
                    },
                }
            },
            ExportDeclaration::Wildcard { source, type_only } => {
                match finished.get(source) {
                    Some(table) => self.bind_each(owner, table.bindings()),
                    None => {
                        if *type_only {
                            let ghost before = self@;
                            self.pending.push(source.clone());
                            proof {
                                assert(self@.pending =~= before.pending.push(source@));
                                assert(self@.bindings == before.bindings);
                            }
                            Ok(())
                        } else {
                            Err(ModuleError::NotCompiled { id: source.clone() })
                        }
                    },
                }
            },
        }
    }
}

/// Once a conflict has come up, later bindings are not made.
pub proof fn lemma_bind_all_stops(table: TableModel, owner: Seq<char>, items: Seq<BindingModel>, k: int)
    requires
        0 <= k <= items.len(),
        table.bind_all(owner, items.take(k)).is_err(),
    ensures
        table.bind_all(owner, items) == table.bind_all(owner, items.take(k)),
    decreases items.len() - k,
{
    if k < items.len() {
        assert(items.take(k + 1).drop_last() =~= items.take(k));
        lemma_bind_all_stops(table, owner, items, k + 1);
    } else {
        assert(items.take(k) =~= items);
    }
}

/// Once a declaration has failed, later declarations are not taken in.
pub proof fn lemma_declare_all_stops(
    table: TableModel,
    owner: Seq<char>,
    declarations: Seq<DeclarationModel>,
    finished: Map<Seq<char>, TableModel>,
    k: int,
)
    requires
        0 <= k <= declarations.len(),
        table.declare_all(owner, declarations.take(k), finished).is_err(),
    ensures
        table.declare_all(owner, declarations, finished) == table.declare_all(
            owner,
            declarations.take(k),
            finished,
        ),
    decreases declarations.len() - k,
{
    if k < declarations.len() {
        assert(declarations.take(k + 1).drop_last() =~= declarations.take(k));
        lemma_declare_all_stops(table, owner, declarations, finished, k + 1);
    } else {
        assert(declarations.take(k) =~= declarations);
    }
}

/// The export tables of the modules that are resolved already.
#[derive(Debug)]
pub struct ExportRegistry {
    modules: Vec<ModuleId>,
    tables: Vec<ExportTable>,
}

impl View for ExportRegistry {
    type V = Map<Seq<char>, TableModel>;

    closed spec fn view(&self) -> Map<Seq<char>, TableModel> {
        Map::new(|id: Seq<char>| self.has(id), |id: Seq<char>| self.tables[self.slot(id)]@)
    }
}

impl ExportRegistry {
    /// A table is stored for the module `id`.
    spec fn has(&self, id: Seq<char>) -> bool {
        exists|i: int| 0 <= i < self.modules.len() && self.modules[i]@ == id
    }

    /// The place where the table of the module `id` is stored.
    spec fn slot(&self, id: Seq<char>) -> int {
        choose|i: int| 0 <= i < self.modules.len() && self.modules[i]@ == id
    }

    /// The registry is well formed: it stores one table for each of its
    /// modules, and every table is well formed.
    pub closed spec fn wf(&self) -> bool {
        &&& self.modules.len() == self.tables.len()
        &&& forall|i: int, j: int|
            0 <= i < self.modules.len() && 0 <= j < self.modules.len() && i != j ==> self.modules[i]@
                != self.modules[j]@
        &&& forall|i: int| 0 <= i < self.tables.len() ==> (#[trigger] self.tables[i]).wf()
    }

    /// A registry without tables.
    pub fn new() -> (registry: ExportRegistry)
        ensures
            registry.wf(),
            registry@ == Map::<Seq<char>, TableModel>::empty(),
    {
        let registry = ExportRegistry { modules: Vec::new(), tables: Vec::new() };
        proof {
            assert(registry@ =~= Map::<Seq<char>, TableModel>::empty());
        }
        registry
    }

    /// The place where the table of `id` is stored, if there is one.
    fn find(&self, id: &ModuleId) -> (found: Option<usize>)
        requires
            self.wf(),
        ensures
            match found {
                Some(i) => i < self.modules.len() && self.modules[i as int]@ == id@ && self.has(id@)
                    && self.slot(id@) == i,
                None => !self.has(id@),
            },
    {
        let mut i: usize = 0;
        while i < self.modules.len()
            invariant
                self.wf(),
                i <= self.modules.len(),
                forall|j: int| 0 <= j < i ==> self.modules[j]@ != id@,
            decreases self.modules.len() - i,
        {
            if self.modules[i] == *id {
                return Some(i);
            }
            i = i + 1;
        }
        None
    }

    /// The table of the module `id`, if it is resolved already.
    pub fn get(&self, id: &ModuleId) -> (found: Option<&ExportTable>)
        requires
            self.wf(),
        ensures
            match found {
                Some(table) => self@.contains_key(id@) && table@ == self@[id@] && table.wf(),
                None => !self@.contains_key(id@),
            },
    {
        match self.find(id) {
            Some(i) => Some(&self.tables[i]),
            None => None,
        }
    }

    /// Stores `table` as the table of the module `id`, in place of a table
    /// stored for it before.
    pub fn insert(&mut self, id: ModuleId, table: ExportTable)
        requires
            old(self).wf(),
            table.wf(),
        ensures
            final(self).wf(),
            final(self)@ == old(self)@.insert(id@, table@),
    {
        let ghost stored = table@;
        match self.find(&id) {
            Some(i) => {
                self.tables.set(i, table);
                proof {
                    assert forall|x: Seq<char>| self.has(x) <==> old(self).has(x) by {
                        if self.has(x) {
                            assert(old(self).modules[self.slot(x)]@ == x);
                        }
                        if old(self).has(x) {
                            assert(self.modules[old(self).slot(x)]@ == x);
                        }
                    }
                    assert forall|x: Seq<char>| self.has(x) implies self.slot(x) == old(self).slot(x) by {
                        assert(old(self).modules[self.slot(x)]@ == x);
                        assert(self.modules[old(self).slot(x)]@ == x);
                    }
                    assert(self@ =~= old(self)@.insert(id@, stored));
                }
            },
            None => {
                let ghost n = self.modules.len() as int;
                self.modules.push(id);
                self.tables.push(table);
                proof {
                    assert(self.modules[n]@ == id@);
                    assert forall|x: Seq<char>| self.has(x) <==> old(self).has(x) || x == id@ by {
                        if self.has(x) {
                            let i = self.slot(x);
                            if i < n {
                                assert(old(self).modules[i]@ == x);
                            }
                        }
                        if old(self).has(x) {
                            assert(self.modules[old(self).slot(x)]@ == x);
                        }
                    }
                    assert forall|x: Seq<char>| old(self).has(x) implies self.slot(x) == old(self).slot(
                        x,
                    ) by {
                        assert(self.modules[old(self).slot(x)]@ == x);
                    }
                    assert(self.slot(id@) == n);
                    assert(self@ =~= old(self)@.insert(id@, stored));
                }
            },
        }
    }
}

/// The declarations of a module as mathematics.
pub open spec fn declaration_views(declarations: Seq<ExportDeclaration>) -> Seq<DeclarationModel> {
    declarations.map_values(|declaration: ExportDeclaration| declaration@)
}

/// Makes the export table of the module `owner` from its declarations, in
/// the order in which they are written, where `finished` holds the tables
/// made so far.
///
/// The result is the table in which every declaration is taken in, or the
/// error of the first declaration that fails: `DuplicateExport` where a name
/// is exported both as a value and as a type, `ExportNotFound` where a name
/// is forwarded from a module that does not export it, `NotCompiled` where a
/// value is forwarded from a module that has no table yet. No table comes
/// out of declarations of which one fails.
pub fn resolve_exports(
    owner: &ModuleId,
    declarations: &Vec<ExportDeclaration>,
    finished: &ExportRegistry,
) -> (made: Result<ExportTable, ModuleError>)
    requires
        finished.wf(),
    ensures
        match TableModel::empty().declare_all(owner@, declaration_views(declarations@), finished@) {
            Ok(wanted) => match made {
                Ok(table) => table.wf() && table@ == wanted,
                Err(_) => false,
            },
            Err(failure) => match made {
                Ok(_) => false,
                Err(error) => error@ == failure,
            },
        },
{
    let ghost all = declaration_views(declarations@);
    let mut table = ExportTable::new();
    let mut k: usize = 0;
    while k < declarations.len()
        invariant
            finished.wf(),
            table.wf(),
            k <= declarations.len(),
            all == declaration_views(declarations@),
            TableModel::empty().declare_all(owner@, all.take(k as int), finished@) == Ok::<
                TableModel,
                ErrorModel,
            >(table@),
        decreases declarations.len() - k,
    {
        let ghost before = table@;
        proof {
            assert(all.take(k + 1).drop_last() =~= all.take(k as int));
            assert(all.take(k + 1).last() == declarations[k as int]@);
            assert(TableModel::empty().declare_all(owner@, all.take(k + 1), finished@)
                == before.declare(owner@, declarations[k as int]@, finished@));
        }
        match table.declare(owner, &declarations[k], finished) {
            Ok(()) => {},
            Err(error) => {
                proof {
                    lemma_declare_all_stops(TableModel::empty(), owner@, all, finished@, k + 1);
                }
                return Err(error);
            },
        }
        k = k + 1;
    }
    proof {
        assert(all.take(k as int) =~= all);
    }
    Ok(table)
}

/// Making a table fails in three ways only: as a duplicate export, as a
/// name that a source does not export, or as a source without a table.
pub proof fn lemma_failure_kinds(
    table: TableModel,
    owner: Seq<char>,
    declarations: Seq<DeclarationModel>,
    finished: Map<Seq<char>, TableModel>,
)
    ensures
        match table.declare_all(owner, declarations, finished) {
            Ok(_) => true,
            Err(failure) => failure is DuplicateExport || failure is ExportNotFound
                || failure is NotCompiled,
        },
    decreases declarations.len(),
{
    if declarations.len() > 0 {
        lemma_failure_kinds(table, owner, declarations.drop_last(), finished);
        match table.declare_all(owner, declarations.drop_last(), finished) {
            Ok(middle) => {
                match declarations.last() {
                    DeclarationModel::Wildcard { source, type_only } => {
                        if finished.contains_key(source) {
                            lemma_bind_all_fails_as_duplicate(middle, owner, finished[source].bindings);
                        }
                    },
                    _ => {},
                }
            },
            Err(_) => {},
        }
    }
}

/// Making bindings fails as a duplicate export only.
pub proof fn lemma_bind_all_fails_as_duplicate(
    table: TableModel,
    owner: Seq<char>,
    items: Seq<BindingModel>,
)
    ensures
        table.bind_all(owner, items) is Err ==> table.bind_all(owner, items)->Err_0 is DuplicateExport,
    decreases items.len(),
{
    if items.len() > 0 {
        lemma_bind_all_fails_as_duplicate(table, owner, items.drop_last());
    }
}

/// Bindings that share a name share the mode.
pub open spec fn modes_agree(items: Seq<BindingModel>) -> bool {
    forall|i: int, j: int|
        0 <= i < items.len() && 0 <= j < items.len() && (#[trigger] items[i]).external == (
        #[trigger] items[j]).external ==> items[i].mode == items[j].mode
}

/// In a table that exports no name twice, a binding stands at the place
/// that `place` names for its name.
pub proof fn lemma_table_place(table: TableModel, i: int)
    requires
        table.distinct(),
        0 <= i < table.bindings.len(),
    ensures
        table.exports(table.bindings[i].external),
        table.place(table.bindings[i].external) == i,
        table.binding(table.bindings[i].external) == Some(table.bindings[i]),
{
    let name = table.bindings[i].external;
    assert(table.exports(name));
    let p = table.place(name);
    assert(table.bindings[p].external == table.bindings[i].external);
}

/// Making one binding fails in one way only: the name is exported already,
/// in the other mode. Otherwise the table keeps all its bindings in place,
/// and the name is exported afterwards, in the mode of the binding.
pub proof fn lemma_bind(table: TableModel, owner: Seq<char>, binding: BindingModel)
    requires
        table.distinct(),
    ensures
        match table.bind(owner, binding) {
            Ok(after) => {
                &&& after.distinct()
                &&& after.pending == table.pending
                &&& modes_agree(table.bindings.push(binding))
                &&& after.bindings == if table.exports(binding.external) {
                    table.bindings
                } else {
                    table.bindings.push(binding)
                }
                &&& after.exports(binding.external)
                &&& after.binding(binding.external).unwrap().mode == binding.mode
            },
            Err(failure) => {
                &&& failure == (ErrorModel::DuplicateExport {
                    module_id: owner,
                    export_name: binding.external,
                })
                &&& table.exports(binding.external)
                &&& table.binding(binding.external).unwrap().mode != binding.mode
                &&& !modes_agree(table.bindings.push(binding))
            },
        },
{
    let longer = table.bindings.push(binding);
    let last = table.bindings.len() as int;
    assert(longer[last] == binding);
    if !table.exports(binding.external) {
        let after = TableModel { bindings: longer, pending: table.pending };
        assert forall|i: int, j: int|
            0 <= i < longer.len() && 0 <= j < longer.len() && i != j implies (#[trigger] longer[i]).external
            != (#[trigger] longer[j]).external by {
            if i < last {
                assert(longer[i] == table.bindings[i]);
            }
            if j < last {
                assert(longer[j] == table.bindings[j]);
            }
        }
        lemma_table_place(after, last);
        assert forall|i: int, j: int|
            0 <= i < longer.len() && 0 <= j < longer.len() && (#[trigger] longer[i]).external == (
            #[trigger] longer[j]).external implies longer[i].mode == longer[j].mode by {
            assert(i == j);
        }
    } else {
        let p = table.place(binding.external);
        assert(longer[p] == table.bindings[p]);
        if table.bindings[p].mode == binding.mode {
            assert forall|i: int, j: int|
                0 <= i < longer.len() && 0 <= j < longer.len() && (#[trigger] longer[i]).external == (
                #[trigger] longer[j]).external implies longer[i].mode == longer[j].mode by {
                if i < last {
                    assert(longer[i] == table.bindings[i]);
                    lemma_table_place(table, i);
                }
                if j < last {
                    assert(longer[j] == table.bindings[j]);
                    lemma_table_place(table, j);
                }
            }
        } else {
            assert(longer[p].external == longer[last].external);
        }
    }
}

/// Making bindings one after the other succeeds exactly when the bindings
/// of the table and the new ones agree in mode wherever they share a name.
/// A failure is a duplicate export of the module. On success the table
/// keeps its bindings in place, exports no name twice, and exports a name
/// exactly when it did before or one of the new bindings has that name.
pub proof fn lemma_bind_all(table: TableModel, owner: Seq<char>, items: Seq<BindingModel>)
    requires
        table.distinct(),
    ensures
        table.bind_all(owner, items).is_ok() <==> modes_agree(table.bindings + items),
        match table.bind_all(owner, items) {
            Ok(after) => {
                &&& after.distinct()
                &&& after.pending == table.pending
                &&& table.bindings.is_prefix_of(after.bindings)
                &&& forall|j: int|
                    table.bindings.len() <= j < after.bindings.len() ==> items.contains(
                        #[trigger] after.bindings[j],
                    )
                &&& forall|name: Seq<char>| #[trigger]
                    after.exports(name) <==> table.exports(name) || exists|i: int|
                        0 <= i < items.len() && (#[trigger] items[i]).external == name
            },
            Err(failure) => exists|name: Seq<char>|
                failure == (ErrorModel::DuplicateExport { module_id: owner, export_name: name }),
        },
    decreases items.len(),
{
    let joined = table.bindings + items;
    if items.len() == 0 {
        assert(joined =~= table.bindings);
        assert forall|i: int, j: int|
            0 <= i < joined.len() && 0 <= j < joined.len() && (#[trigger] joined[i]).external == (
            #[trigger] joined[j]).external implies joined[i].mode == joined[j].mode by {
            assert(i == j);
        }
    } else {
        let front = items.drop_last();
        let last = items.last();
        let shorter = table.bindings + front;
        lemma_bind_all(table, owner, front);
        assert forall|i: int| 0 <= i < shorter.len() implies shorter[i] == joined[i] by {
            if i >= table.bindings.len() {
                assert(shorter[i] == front[i - table.bindings.len()]);
            }
        }
        assert(joined[joined.len() - 1] == last);
        assert(joined =~= shorter.push(last));
        match table.bind_all(owner, front) {
            Ok(middle) => {
                lemma_bind(middle, owner, last);
                // every binding of `middle` is one of `shorter`, and every
                // name of `shorter` is exported by `middle`
                assert forall|j: int| 0 <= j < middle.bindings.len() implies shorter.contains(
                    #[trigger] middle.bindings[j],
                ) by {
                    if j < table.bindings.len() {
                        assert(middle.bindings[j] == table.bindings[j]);
                        assert(shorter[j] == table.bindings[j]);
                    } else {
                        assert(items.drop_last().contains(middle.bindings[j]));
                        let i = choose|i: int| 0 <= i < front.len() && front[i] == middle.bindings[j];
                        assert(shorter[table.bindings.len() + i] == front[i]);
                    }
                }
                assert forall|i: int| 0 <= i < shorter.len() implies middle.exports(
                    (#[trigger] shorter[i]).external,
                ) by {
                    if i < table.bindings.len() {
                        assert(shorter[i] == table.bindings[i]);
                        assert(table.exports(table.bindings[i].external));
                    } else {
                        assert(shorter[i] == front[i - table.bindings.len()]);
                    }
                }
                match middle.bind(owner, last) {
                    Ok(after) => {
                        assert forall|i: int, j: int|
                            0 <= i < joined.len() && 0 <= j < joined.len() && (
                            #[trigger] joined[i]).external == (
                            #[trigger] joined[j]).external implies joined[i].mode
                            == joined[j].mode by {
                            lemma_joined_modes(middle, shorter, last, joined, i, j);
                        }
                        assert forall|j: int|
                            table.bindings.len() <= j < after.bindings.len() implies items.contains(
                            #[trigger] after.bindings[j],
                        ) by {
                            if j < middle.bindings.len() {
                                assert(after.bindings[j] == middle.bindings[j]);
                                assert(front.contains(middle.bindings[j]));
                                let i = choose|i: int|
                                    0 <= i < front.len() && front[i] == middle.bindings[j];
                                assert(items[i] == front[i]);
                            } else {
                                assert(after.bindings[j] == last);
                                assert(items[items.len() - 1] == last);
                            }
                        }
                        assert forall|name: Seq<char>| #[trigger]
                            after.exports(name) <==> table.exports(name) || exists|i: int|
                                0 <= i < items.len() && (#[trigger] items[i]).external == name by {
                            if after.exports(name) {
                                let j = after.place(name);
                                if j < middle.bindings.len() {
                                    assert(after.bindings[j] == middle.bindings[j]);
                                    assert(middle.exports(name));
                                    if !table.exports(name) {
                                        let i = choose|i: int|
                                            0 <= i < front.len() && (#[trigger] front[i]).external
                                                == name;
                                        assert(items[i] == front[i]);
                                    }
                                } else {
                                    assert(after.bindings[j] == last);
                                    assert(items[items.len() - 1].external == name);
                                }
                            }
                            if table.exports(name) {
                                assert(middle.exports(name));
                                let j = middle.place(name);
                                assert(after.bindings[j] == middle.bindings[j]);
                            }
                            if exists|i: int|
                                0 <= i < items.len() && (#[trigger] items[i]).external == name {
                                let i = choose|i: int|
                                    0 <= i < items.len() && (#[trigger] items[i]).external == name;
                                if i < front.len() {
                                    assert(front[i] == items[i]);
                                    assert(middle.exports(name));
                                    let j = middle.place(name);
                                    assert(after.bindings[j] == middle.bindings[j]);
                                }
                            }
                        }
                    },
                    Err(failure) => {
                        // the binding of `middle` that conflicts is one of `shorter`
                        let j = middle.place(last.external);
                        assert(shorter.contains(middle.bindings[j]));
                        let i = choose|i: int| 0 <= i < shorter.len() && shorter[i] == middle.bindings[j];
                        assert(joined[i] == shorter[i]);
                        assert(joined[i].external == joined[joined.len() - 1].external);
                    },
                }
            },
            Err(failure) => {
                // `shorter` holds two bindings that disagree, and so does `joined`
                let (i, j) = choose|i: int, j: int|
                    0 <= i < shorter.len() && 0 <= j < shorter.len() && (#[trigger] shorter[i]).external
                        == (#[trigger] shorter[j]).external && shorter[i].mode != shorter[j].mode;
                assert(joined[i] == shorter[i] && joined[j] == shorter[j]);
            },
        }
    }
}

/// Where a table made from `shorter` takes one more binding without a
/// conflict, the bindings of `shorter` and the new one agree in mode.
proof fn lemma_joined_modes(
    middle: TableModel,
    shorter: Seq<BindingModel>,
    last: BindingModel,
    joined: Seq<BindingModel>,
    i: int,
    j: int,
)
    requires
        middle.distinct(),
        modes_agree(shorter),
        modes_agree(middle.bindings.push(last)),
        joined == shorter.push(last),
        forall|a: int| 0 <= a < shorter.len() ==> middle.exports((#[trigger] shorter[a]).external),
        forall|b: int| 0 <= b < middle.bindings.len() ==> shorter.contains(#[trigger] middle.bindings[b]),
        0 <= i < joined.len(),
        0 <= j < joined.len(),
        joined[i].external == joined[j].external,
    ensures
        joined[i].mode == joined[j].mode,
{
    let n = shorter.len() as int;
    let grown = middle.bindings.push(last);
    let end = middle.bindings.len() as int;
    assert(grown[end] == last);
    if i < n && j < n {
        assert(shorter[i].mode == shorter[j].mode);
    } else if i < n || j < n {
        let a = if i < n {
            i
        } else {
            j
        };
        // `shorter[a]` shares its name with `last`
        assert(middle.exports(shorter[a].external));
        let b = middle.place(shorter[a].external);
        assert(shorter.contains(middle.bindings[b]));
        let c = choose|c: int| 0 <= c < shorter.len() && shorter[c] == middle.bindings[b];
        assert(shorter[c].mode == shorter[a].mode);
        assert(grown[b] == middle.bindings[b]);
        assert(grown[b].external == grown[end].external);
    }
}

/// A name that is exported once as a value and once as a type is a
/// duplicate export, whatever the table held before.
pub proof fn lemma_two_modes_conflict(
    table: TableModel,
    owner: Seq<char>,
    first: BindingModel,
    second: BindingModel,
)
    requires
        table.distinct(),
        first.external == second.external,
        first.mode != second.mode,
    ensures
        table.bind_all(owner, seq![first, second]) == Err::<TableModel, ErrorModel>(
            ErrorModel::DuplicateExport { module_id: owner, export_name: first.external },
        ),
{
    let both = seq![first, second];
    assert(both.drop_last() =~= seq![first]);
    assert(seq![first].drop_last() =~= Seq::<BindingModel>::empty());
    assert(table.bind_all(owner, Seq::<BindingModel>::empty()) == Ok::<TableModel, ErrorModel>(table));
    assert(table.bind_all(owner, seq![first]) == table.bind(owner, first));
    lemma_bind(table, owner, first);
    match table.bind(owner, first) {
        Ok(middle) => {
            lemma_bind(middle, owner, second);
        },
        Err(failure) => {},
    }
}

/// Two local exports of one external name, one as a value and one as a
/// type, make no table: the result is a duplicate export of that name.
pub proof fn lemma_local_modes_conflict(
    table: TableModel,
    owner: Seq<char>,
    first: DeclarationModel,
    second: DeclarationModel,
    finished: Map<Seq<char>, TableModel>,
)
    requires
        table.distinct(),
        first is Local,
        second is Local,
        first.external() == second.external(),
        first->Local_mode != second->Local_mode,
    ensures
        table.declare_all(owner, seq![first, second], finished) == Err::<TableModel, ErrorModel>(
            ErrorModel::DuplicateExport { module_id: owner, export_name: first.external().unwrap() },
        ),
{
    let both = seq![first, second];
    assert(both.drop_last() =~= seq![first]);
    assert(seq![first].drop_last() =~= Seq::<DeclarationModel>::empty());
    assert(table.declare_all(owner, Seq::<DeclarationModel>::empty(), finished) == Ok::<
        TableModel,
        ErrorModel,
    >(table));
    assert(table.declare_all(owner, seq![first], finished) == table.declare(owner, first, finished));
    let one = BindingModel {
        external: first.external().unwrap(),
        mode: first->Local_mode,
        module: owner,
        name: first->Local_name,
        deferred: false,
    };
    let two = BindingModel {
        external: second.external().unwrap(),
        mode: second->Local_mode,
        module: owner,
        name: second->Local_name,
        deferred: false,
    };
    lemma_bind(table, owner, one);
    match table.bind(owner, one) {
        Ok(middle) => {
            lemma_bind(middle, owner, two);
        },
        Err(failure) => {},
    }
}

/// Two wildcards from sources whose tables are made merge without a
/// conflict where the bindings of the table and of both sources agree in
/// mode wherever they share a name. The table then exports a name exactly
/// when it did before or one of the sources exports it, and no name twice.
pub proof fn lemma_wildcards_merge(
    table: TableModel,
    owner: Seq<char>,
    one: Seq<char>,
    two: Seq<char>,
    type_only_one: bool,
    type_only_two: bool,
    finished: Map<Seq<char>, TableModel>,
)
    requires
        table.distinct(),
        finished.contains_key(one),
        finished.contains_key(two),
        modes_agree(table.bindings + finished[one].bindings + finished[two].bindings),
    ensures
        match table.declare_all(
            owner,
            seq![
                DeclarationModel::Wildcard { source: one, type_only: type_only_one },
                DeclarationModel::Wildcard { source: two, type_only: type_only_two },
            ],
            finished,
        ) {
            Ok(after) => {
                &&& after.distinct()
                &&& forall|name: Seq<char>| #[trigger]
                    after.exports(name) <==> table.exports(name) || finished[one].exports(name)
                        || finished[two].exports(name)
            },
            Err(_) => false,
        },
{
    let first = DeclarationModel::Wildcard { source: one, type_only: type_only_one };
    let second = DeclarationModel::Wildcard { source: two, type_only: type_only_two };
    let both = seq![first, second];
    let a = finished[one].bindings;
    let b = finished[two].bindings;
    let all = table.bindings + a + b;
    assert(both.drop_last() =~= seq![first]);
    assert(seq![first].drop_last() =~= Seq::<DeclarationModel>::empty());
    assert(table.declare_all(owner, Seq::<DeclarationModel>::empty(), finished) == Ok::<
        TableModel,
        ErrorModel,
    >(table));
    assert(table.declare_all(owner, seq![first], finished) == table.bind_all(owner, a));
    lemma_bind_all(table, owner, a);
    let part = table.bindings + a;
    assert(modes_agree(part)) by {
        assert forall|i: int, j: int|
            0 <= i < part.len() && 0 <= j < part.len() && (#[trigger] part[i]).external == (
            #[trigger] part[j]).external implies part[i].mode == part[j].mode by {
            assert(part[i] == all[i] && part[j] == all[j]);
        }
    }
    let middle = table.bind_all(owner, a)->Ok_0;
    lemma_bind_all(middle, owner, b);
    let next = middle.bindings + b;
    // every binding of `next` is one of `all`
    assert forall|i: int| 0 <= i < next.len() implies all.contains(#[trigger] next[i]) by {
        if i < table.bindings.len() {
            assert(next[i] == table.bindings[i]);
            assert(all[i] == table.bindings[i]);
        } else if i < middle.bindings.len() {
            assert(a.contains(middle.bindings[i]));
            let k = choose|k: int| 0 <= k < a.len() && a[k] == middle.bindings[i];
            assert(all[table.bindings.len() + k] == a[k]);
        } else {
            let k = i - middle.bindings.len();
            assert(next[i] == b[k]);
            assert(all[table.bindings.len() + a.len() + k] == b[k]);
        }
    }
    assert(modes_agree(next)) by {
        assert forall|i: int, j: int|
            0 <= i < next.len() && 0 <= j < next.len() && (#[trigger] next[i]).external == (
            #[trigger] next[j]).external implies next[i].mode == next[j].mode by {
            assert(all.contains(next[i]) && all.contains(next[j]));
            let ki = choose|k: int| 0 <= k < all.len() && all[k] == next[i];
            let kj = choose|k: int| 0 <= k < all.len() && all[k] == next[j];
            assert(all[ki].external == all[kj].external);
        }
    }
    let after = middle.bind_all(owner, b)->Ok_0;
    assert(table.declare_all(owner, both, finished) == middle.bind_all(owner, b));
    assert forall|name: Seq<char>| #[trigger]
        after.exports(name) <==> table.exports(name) || finished[one].exports(name)
            || finished[two].exports(name) by {
        assert(after.exports(name) <==> middle.exports(name) || exists|i: int|
            0 <= i < b.len() && (#[trigger] b[i]).external == name);
        assert(middle.exports(name) <==> table.exports(name) || exists|i: int|
            0 <= i < a.len() && (#[trigger] a[i]).external == name);
    }
}

/// The table of the module `module` exports its own declaration `name`:
/// a binding of the table leads to that name of the module itself.
pub open spec fn declares(table: TableModel, module: Seq<char>, name: Seq<char>) -> bool {
    exists|i: int|
        0 <= i < table.bindings.len() && (#[trigger] table.bindings[i]).module == module
            && table.bindings[i].name == name && !table.bindings[i].deferred
}

/// The binding ends a chain of forwards for the module `owner`: it is
/// deferred, or leads to a declaration of `owner` itself, or leads to a
/// declaration that the table of another module exports as its own.
pub open spec fn ends_chain(
    finished: Map<Seq<char>, TableModel>,
    owner: Seq<char>,
    binding: BindingModel,
) -> bool {
    binding.deferred || binding.module == owner || (finished.contains_key(binding.module) && declares(
        finished[binding.module],
        binding.module,
        binding.name,
    ))
}

/// Every binding of every table of `finished` ends a chain of forwards.
pub open spec fn chains_end(finished: Map<Seq<char>, TableModel>) -> bool {
    forall|module: Seq<char>, i: int|
        finished.contains_key(module) && 0 <= i < finished[module].bindings.len() ==> ends_chain(
            finished,
            module,
            #[trigger] finished[module].bindings[i],
        )
}

/// Forwards are followed to their end. Where every binding of the tables
/// made so far ends a chain, and so does every binding of the table, the
/// same holds of the table after more declarations are taken in: a forward
/// takes over the end of the chain that the source's binding has.
pub proof fn lemma_forwards_reach_the_end(
    table: TableModel,
    owner: Seq<char>,
    declarations: Seq<DeclarationModel>,
    finished: Map<Seq<char>, TableModel>,
)
    requires
        chains_end(finished),
        !finished.contains_key(owner),
        forall|i: int| 0 <= i < table.bindings.len() ==> ends_chain(finished, owner, #[trigger] table.bindings[i]),
    ensures
        match table.declare_all(owner, declarations, finished) {
            Ok(after) => forall|i: int|
                0 <= i < after.bindings.len() ==> ends_chain(finished, owner, #[trigger] after.bindings[i]),
            Err(_) => true,
        },
    decreases declarations.len(),
{
    if declarations.len() > 0 {
        lemma_forwards_reach_the_end(table, owner, declarations.drop_last(), finished);
        match table.declare_all(owner, declarations.drop_last(), finished) {
            Ok(middle) => {
                match declarations.last() {
                    DeclarationModel::Local { name, alias, mode } => {
                        let binding = BindingModel {
                            external: declarations.last().external().unwrap(),
                            mode,
                            module: owner,
                            name,
                            deferred: false,
                        };
                        lemma_bind_keeps_chains(middle, owner, binding, finished);
                    },
                    DeclarationModel::Named { name, alias, source, mode } => {
                        if finished.contains_key(source) {
                            match finished[source].binding(name) {
                                Some(found) => {
                                    let binding = BindingModel {
                                        external: declarations.last().external().unwrap(),
                                        mode,
                                        module: found.module,
                                        name: found.name,
                                        deferred: found.deferred,
                                    };
                                    let p = finished[source].place(name);
                                    assert(ends_chain(finished, source, finished[source].bindings[p]));
                                    lemma_bind_keeps_chains(middle, owner, binding, finished);
                                },
                                None => {},
                            }
                        } else if mode == ExportMode::Type {
                            let binding = BindingModel {
                                external: declarations.last().external().unwrap(),
                                mode,
                                module: source,
                                name,
                                deferred: true,
                            };
                            lemma_bind_keeps_chains(middle, owner, binding, finished);
                        }
                    },
                    DeclarationModel::Wildcard { source, type_only } => {
                        if finished.contains_key(source) {
                            let items = finished[source].bindings;
                            assert forall|i: int| 0 <= i < items.len() implies ends_chain(
                                finished,
                                owner,
                                #[trigger] items[i],
                            ) by {
                                assert(ends_chain(finished, source, finished[source].bindings[i]));
                            }
                            lemma_bind_all_keeps_chains(middle, owner, items, finished);
                        }
                    },
                }
            },
            Err(_) => {},
        }
    }
}

/// One more binding that ends a chain leaves a table all of whose bindings
/// end a chain.
proof fn lemma_bind_keeps_chains(
    table: TableModel,
    owner: Seq<char>,
    binding: BindingModel,
    finished: Map<Seq<char>, TableModel>,
)
    requires
        forall|i: int| 0 <= i < table.bindings.len() ==> ends_chain(finished, owner, #[trigger] table.bindings[i]),
        ends_chain(finished, owner, binding),
    ensures
        match table.bind(owner, binding) {
            Ok(after) => forall|i: int|
                0 <= i < after.bindings.len() ==> ends_chain(finished, owner, #[trigger] after.bindings[i]),
            Err(_) => true,
        },
{
    match table.bind(owner, binding) {
        Ok(after) => {
            assert forall|i: int| 0 <= i < after.bindings.len() implies ends_chain(
                finished,
                owner,
                #[trigger] after.bindings[i],
            ) by {
                if i < table.bindings.len() {
                    assert(after.bindings[i] == table.bindings[i]);
                }
            }
        },
        Err(_) => {},
    }
}

/// More bindings that end chains leave a table all of whose bindings end a
/// chain.
proof fn lemma_bind_all_keeps_chains(
    table: TableModel,
    owner: Seq<char>,
    items: Seq<BindingModel>,
    finished: Map<Seq<char>, TableModel>,
)
    requires
        forall|i: int| 0 <= i < table.bindings.len() ==> ends_chain(finished, owner, #[trigger] table.bindings[i]),
        forall|i: int| 0 <= i < items.len() ==> ends_chain(finished, owner, #[trigger] items[i]),
    ensures
        match table.bind_all(owner, items) {
            Ok(after) => forall|i: int|
                0 <= i < after.bindings.len() ==> ends_chain(finished, owner, #[trigger] after.bindings[i]),
            Err(_) => true,
        },
    decreases items.len(),
{
    if items.len() > 0 {
        let front = items.drop_last();
        assert forall|i: int| 0 <= i < front.len() implies ends_chain(
            finished,
            owner,
            #[trigger] front[i],
        ) by {
            assert(front[i] == items[i]);
        }
        lemma_bind_all_keeps_chains(table, owner, front, finished);
        match table.bind_all(owner, front) {
            Ok(middle) => {
                assert(items[items.len() - 1] == items.last());
                lemma_bind_keeps_chains(middle, owner, items.last(), finished);
            },
            Err(_) => {},
        }
    }
}

} // verus!
