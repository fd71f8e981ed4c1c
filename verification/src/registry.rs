//! The modules of a project and the imports between them.

use crate::error::{Error, ErrorView, Meta};
use crate::graph::{
    add_edge, add_node, graph_edges, graph_nodes, has_cycle, indices, is_topological_order, new_graph,
    toposort, toposort_order, DepsGraph,
};
use crate::model::{module_views, Input, Module, ModuleOrigin, ModuleView, ParsedModule};
use crate::text::texts;
use vstd::hash_map::StringHashMap;
use vstd::prelude::*;

verus! {

/// The names of `modules`.
pub open spec fn names<M>(modules: Seq<ModuleView<M>>) -> Seq<Seq<char>> {
    modules.map_values(|module: ModuleView<M>| module.name)
}

/// Which of `modules` is called `name`.
pub open spec fn position<M>(modules: Seq<ModuleView<M>>, name: Seq<char>) -> nat {
    names(modules).index_of(name) as nat
}

/// An import: the index of the module that it stands in, the name of the
/// imported module and its place in the source.
pub struct Import {
    pub importer: nat,
    pub name: Seq<char>,
    pub meta: Meta,
}

/// The imports of `module`, which has index `importer`.
pub open spec fn module_imports<M>(module: ModuleView<M>, importer: nat) -> Seq<Import> {
    module.dependencies.map_values(
        |dependency: (Seq<char>, Meta)|
            Import { importer, name: dependency.0, meta: dependency.1 },
    )
}

/// All imports of `modules`, module by module.
pub open spec fn imports<M>(modules: Seq<ModuleView<M>>) -> Seq<Import>
    decreases modules.len(),
{
    if modules.len() == 0 {
        Seq::empty()
    } else {
        imports(modules.drop_last()) + module_imports(
            modules.last(),
            (modules.len() - 1) as nat,
        )
    }
}

/// What is wrong with an import: there is no such module, or a module of the
/// application imports one of its tests.
pub open spec fn import_error<M, P, E>(modules: Seq<ModuleView<M>>, import: Import) -> Option<
    ErrorView<P, E>,
> {
    let importer = modules[import.importer as int];
    if !names(modules).contains(import.name) {
        Some(
            ErrorView::UnknownImport {
                module: importer.name,
                import: import.name,
                src: importer.src,
                path: importer.path,
                modules: names(modules),
                meta: import.meta,
            },
        )
    } else if importer.origin == ModuleOrigin::Src && modules[position(
        modules,
        import.name,
    ) as int].origin == ModuleOrigin::Test {
        Some(
            ErrorView::SrcImportingTest {
                path: importer.path,
                src: importer.src,
                meta: import.meta,
                src_module: importer.name,
                test_module: import.name,
            },
        )
    } else {
        None
    }
}

/// What is wrong with the first of `list` that something is wrong with.
pub open spec fn first_import_error<M, P, E>(
    modules: Seq<ModuleView<M>>,
    list: Seq<Import>,
) -> Option<ErrorView<P, E>>
    decreases list.len(),
{
    if list.len() == 0 {
        None
    } else {
        match first_import_error(modules, list.drop_last()) {
            Some(error) => Some(error),
            None => import_error(modules, list.last()),
        }
    }
}

/// The edge from the imported module to the importing one.
pub open spec fn import_edge<M>(modules: Seq<ModuleView<M>>, import: Import) -> (nat, nat) {
    (position(modules, import.name), import.importer)
}

/// The edges of the imports `list`.
pub open spec fn import_edges<M>(modules: Seq<ModuleView<M>>, list: Seq<Import>) -> Seq<
    (nat, nat),
> {
    list.map_values(|import: Import| import_edge(modules, import))
}

/// The dependency graph of `modules`: an edge for each import, from the imported
/// module to the importing one.
pub open spec fn edges<M>(modules: Seq<ModuleView<M>>) -> Seq<(nat, nat)> {
    import_edges(modules, imports(modules))
}

/// The modules that were added so far, each with its node in the dependency graph.
pub struct Registry<M> {
    graph: DepsGraph,
    indexes: StringHashMap<usize>,
    modules: Vec<Module<M>>,
}

impl<M> View for Registry<M> {
    type V = Seq<ModuleView<M>>;

    closed spec fn view(&self) -> Seq<ModuleView<M>> {
        module_views(self.modules@)
    }
}

impl<M> Registry<M> {
    /// The graph has a node for each module, and each module is found under its
    /// name. So no two modules share a name.
    pub closed spec fn wf(&self) -> bool {
        &&& graph_nodes(self.graph) == names(self@)
        &&& forall|i: int|
            0 <= i < self@.len() ==> {
                &&& self.indexes@.contains_key((#[trigger] self@[i]).name)
                &&& self.indexes@[self@[i].name] == i
            }
        &&& forall|name: Seq<char>|
            self.indexes@.contains_key(name) ==> names(self@).contains(name)
    }

    /// The edges that the dependency graph has so far.
    pub closed spec fn linked(&self) -> Seq<(nat, nat)> {
        graph_edges(self.graph)
    }

    proof fn lemma_lookup(&self, name: Seq<char>)
        requires
            self.wf(),
        ensures
            names(self@).no_duplicates(),
            names(self@).contains(name) <==> self.indexes@.contains_key(name),
            names(self@).contains(name) ==> {
                &&& self.indexes@[name] as nat == position(self@, name)
                &&& position(self@, name) < self@.len()
                &&& self@[position(self@, name) as int].name == name
            },
    {
        assert forall|i: int, j: int| 0 <= i < j < self@.len() implies self@[i].name
            != self@[j].name by {
            assert(self.indexes@[self@[i].name] == i);
            assert(self.indexes@[self@[j].name] == j);
        }
        if names(self@).contains(name) {
            let i = names(self@).index_of(name);
            assert(names(self@)[i] == name);
            assert(self@[i].name == name);
        }
    }

    /// A registry without modules.
    pub fn new() -> (registry: Registry<M>)
        ensures
            registry.wf(),
            registry@ == Seq::<ModuleView<M>>::empty(),
            registry.linked() == Seq::<(nat, nat)>::empty(),
    {
        let registry = Registry {
            graph: new_graph(),
            indexes: StringHashMap::new(),
            modules: Vec::new(),
        };
        assert(registry@ =~= Seq::<ModuleView<M>>::empty());
        assert(graph_nodes(registry.graph) =~= names(registry@));
        registry
    }

    /// Adds the module that `parsed` makes of `input`, unless there is already one of
    /// its name.
    pub fn add<P, E>(&mut self, input: Input, parsed: ParsedModule<M>) -> (result: Result<
        (),
        Error<P, E>,
    >)
        requires
            old(self).wf(),
            input@.wf(),
        ensures
            final(self).wf(),
            final(self).linked() == old(self).linked(),
            match result {
                Ok(_) => {
                    &&& !names(old(self)@).contains(input@.module_name())
                    &&& final(self)@ == old(self)@.push(ModuleView::new(input@, parsed))
                },
                Err(error) => {
                    let name = input@.module_name();
                    &&& names(old(self)@).contains(name)
                    &&& final(self)@ == old(self)@
                    &&& error@ == ErrorView::<P, E>::DuplicateModule {
                        module: name,
                        first: old(self)@[position(old(self)@, name) as int].path,
                        second: input@.path,
                    }
                },
            },
    {
        let name = input.module_name().unwrap();
        proof {
            self.lemma_lookup(name@);
        }
        match self.indexes.get(name.as_str()) {
            Some(index) => {
                let index: usize = *index;
                Err(
                    Error::DuplicateModule {
                        module: name,
                        first: self.modules[index].path.clone(),
                        second: input.path,
                    },
                )
            },
            None => {
                let index: usize = add_node(&mut self.graph, name.clone());
                self.indexes.insert(name.clone(), index);
                let module = Module {
                    name,
                    source_base_path: input.source_base_path,
                    path: input.path,
                    src: input.src,
                    origin: input.origin,
                    dependencies: parsed.dependencies,
                    module: parsed.module,
                };
                self.modules.push(module);
                proof {
                    assert(self@ =~= old(self)@.push(module@));
                    assert(graph_nodes(self.graph) =~= names(self@));
                    assert forall|i: int| 0 <= i < self@.len() implies {
                        &&& self.indexes@.contains_key((#[trigger] self@[i]).name)
                        &&& self.indexes@[self@[i].name] == i
                    } by {
                        if i < old(self)@.len() {
                            assert(self@[i] == old(self)@[i]);
                            assert(names(old(self)@)[i] == self@[i].name);
                        }
                    }
                    assert forall|other: Seq<char>| self.indexes@.contains_key(other) implies names(
                        self@,
                    ).contains(other) by {
                        if other == name@ {
                            assert(names(self@)[self@.len() - 1] == other);
                        } else {
                            let i = names(old(self)@).index_of(other);
                            assert(names(old(self)@).contains(other));
                            assert(names(self@)[i] == other);
                        }
                    }
                }
                Ok(())
            },
        }
    }

    /// The names of the modules.
    fn module_names(&self) -> (result: Vec<String>)
        ensures
            texts(result@) == names(self@),
    {
        let mut result: Vec<String> = Vec::new();
        for i in 0..self.modules.len()
            invariant
                texts(result@) == names(self@).take(i as int),
        {
            let name = self.modules[i].name.clone();
            let ghost before = texts(result@);
            result.push(name);
            assert(names(self@)[i as int] == name@);
            assert(texts(result@) =~= before.push(name@));
            assert(texts(result@) =~= names(self@).take(i + 1));
        }
        assert(names(self@).take(self@.len() as int) =~= names(self@));
        result
    }

    /// Puts an edge into the dependency graph for each import, from the imported
    /// module to the importing one. The first import that something is wrong with is
    /// an error.
    pub fn link<P, E>(&mut self) -> (result: Result<(), Error<P, E>>)
        requires
            old(self).wf(),
            old(self).linked() == Seq::<(nat, nat)>::empty(),
        ensures
            final(self).wf(),
            final(self)@ == old(self)@,
            match result {
                Ok(_) => {
                    &&& first_import_error::<M, P, E>(old(self)@, imports(old(self)@)) is None
                    &&& final(self).linked() == edges(old(self)@)
                },
                Err(error) => first_import_error::<M, P, E>(old(self)@, imports(old(self)@))
                    == Some(error@),
            },
    {
        let ghost all = self@;
        assert(all.take(0) =~= Seq::<ModuleView<M>>::empty());
        assert(self.linked() =~= import_edges(all, imports(all.take(0))));
        let total: usize = self.modules.len();
        for i in 0..total
            invariant
                total == all.len(),
                self.wf(),
                self@ == all,
                all == old(self)@,
                first_import_error::<M, P, E>(all, imports(all.take(i as int))) is None,
                self.linked() == import_edges(all, imports(all.take(i as int))),
        {
            let ghost before = imports(all.take(i as int));
            let ghost own = module_imports(all[i as int], i as nat);
            assert(all[i as int] == self.modules[i as int]@);
            assert(before + own.take(0) =~= before);
            proof {
                lemma_imports_prefix(all, i as int);
            }
            let count: usize = self.modules[i].dependencies.len();
            for d in 0..count
                invariant
                    count == own.len(),
                    self.wf(),
                    self@ == all,
                    all == old(self)@,
                    0 <= i < self.modules@.len(),
                    all[i as int] == self.modules[i as int]@,
                    own == module_imports(all[i as int], i as nat),
                    (before + own).is_prefix_of(imports(all)),
                    first_import_error::<M, P, E>(all, before + own.take(d as int)) is None,
                    self.linked() == import_edges(all, before + own.take(d as int)),
            {
                let name = self.modules[i].dependencies[d].0.clone();
                let meta = self.modules[i].dependencies[d].1;
                let ghost import = own[d as int];
                let ghost seen = before + own.take(d + 1);
                assert(seen.drop_last() =~= before + own.take(d as int));
                assert(seen.last() == import);
                assert(import == Import { importer: i as nat, name: name@, meta });
                proof {
                    self.lemma_lookup(name@);
                    lemma_first_import_error_prefix::<M, P, E>(all, seen, imports(all));
                }
                match self.indexes.get(name.as_str()) {
                    None => {
                        let module = &self.modules[i];
                        return Err(
                            Error::UnknownImport {
                                module: module.name.clone(),
                                import: name,
                                src: module.src.clone(),
                                path: module.path.clone(),
                                modules: self.module_names(),
                                meta,
                            },
                        );
                    },
                    Some(index) => {
                        let index: usize = *index;
                        assert(all[index as int] == self.modules[index as int]@);
                        let module = &self.modules[i];
                        if module.origin == ModuleOrigin::Src && self.modules[index].origin
                            == ModuleOrigin::Test {
                            return Err(
                                Error::SrcImportingTest {
                                    path: module.path.clone(),
                                    src: module.src.clone(),
                                    meta,
                                    src_module: module.name.clone(),
                                    test_module: name,
                                },
                            );
                        }
                        add_edge(&mut self.graph, index, i);
                        assert(self.linked() =~= import_edges(all, seen));
                    },
                }
            }
            assert(own.take(own.len() as int) =~= own);
            assert(all.take(i + 1).drop_last() =~= all.take(i as int));
        }
        assert(all.take(all.len() as int) =~= all);
        Ok(())
    }

    /// An order in which each module comes after the modules that it imports. There is
    /// none where modules import each other in a circle.
    pub fn order<P, E>(&self) -> (result: Result<Vec<usize>, Error<P, E>>)
        requires
            self.wf(),
        ensures
            match result {
                Ok(order) => {
                    &&& toposort_order(self@.len(), self.linked()) == Some(indices(order@))
                    &&& is_topological_order(self@.len(), self.linked(), indices(order@))
                },
                Err(error) => {
                    &&& error@ == ErrorView::<P, E>::DependencyCycle
                    &&& toposort_order(self@.len(), self.linked()) is None
                    &&& has_cycle(self.linked())
                },
            },
    {
        match toposort(&self.graph) {
            Ok(order) => Ok(order),
            Err(_) => Err(Error::DependencyCycle),
        }
    }

    /// The modules, in the order in which they were added.
    pub fn into_modules(self) -> (modules: Vec<Module<M>>)
        ensures
            module_views(modules@) == self@,
    {
        self.modules
    }
}

/// The imports of the first modules are the first imports of all.
proof fn lemma_imports_prefix<M>(modules: Seq<ModuleView<M>>, count: int)
    requires
        0 <= count < modules.len(),
    ensures
        (imports(modules.take(count)) + module_imports(
            modules[count],
            count as nat,
        )).is_prefix_of(imports(modules)),
    decreases modules.len(),
{
    if count == modules.len() - 1 {
        assert(modules.take(count) =~= modules.drop_last());
    } else {
        lemma_imports_prefix(modules.drop_last(), count);
        assert(modules.drop_last().take(count) =~= modules.take(count));
    }
}

/// What is wrong with the first imports of a list is what is wrong with the list.
proof fn lemma_first_import_error_prefix<M, P, E>(
    modules: Seq<ModuleView<M>>,
    first: Seq<Import>,
    list: Seq<Import>,
)
    requires
        first.is_prefix_of(list),
    ensures
        first_import_error::<M, P, E>(modules, first) is Some ==> first_import_error::<M, P, E>(
            modules,
            list,
        ) == first_import_error::<M, P, E>(modules, first),
    decreases list.len(),
{
    if first.len() == list.len() {
        assert(first =~= list);
    } else {
        assert(first.is_prefix_of(list.drop_last()));
        lemma_first_import_error_prefix::<M, P, E>(modules, first, list.drop_last());
    }
}

} // verus!
