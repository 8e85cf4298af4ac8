//! Ordering a module's import graph for instantiation.
//!
//! The embedder compiles the root module and records what it imports, then
//! asks which module is still missing, compiles that one, and so on until
//! nothing is missing. The graph that results is walked depth first: every
//! module is listed after the modules it imports, and a pass over that list
//! keeps the first entry of each module.

use std::path::PathBuf;
use vstd::prelude::*;
use wasmtime::Module;
use crate::error::LinkError;

pub mod laws;

verus! {

/// A file-system path of std. The resolver never looks inside one: it hands
/// each path on as it got it.
#[verifier::external_type_specification]
#[verifier::external_body]
pub struct ExPathBuf(PathBuf);

/// `Clone::clone` of std's `PathBuf`: the copy is the same path.
pub assume_specification[ <PathBuf as Clone>::clone ](path: &PathBuf) -> (copy: PathBuf)
    ensures
        copy == *path,
;

/// A compiled module of wasmtime. The resolver reads the namespaces of its
/// imports and nothing else.
#[verifier::external_type_specification]
#[verifier::external_body]
pub struct ExModule(Module);

/// The namespaces of the imports that `module` declares, one for each import
/// and in the order of the module's import section.
pub uninterp spec fn module_import_namespaces(module: Module) -> Seq<Seq<char>>;

/// `Module::imports` of wasmtime, each import reduced to its namespace
/// (`ImportType::module`): the imports come in the order in which the module
/// declares them, and none is left out or merged with another.
#[verifier::external_body]
fn import_namespaces(module: &Module) -> (namespaces: Vec<String>)
    ensures
        namespaces@.map_values(|namespace: String| namespace@) == module_import_namespaces(
            *module,
        ),
{
    module.imports().map(|import| import.module().to_string()).collect()
}

/// Whether imports from `namespace` are served by the host itself: the
/// OS interface, the host bridge and the generic environment. No module is
/// loaded for such a namespace.
pub open spec fn is_terminal(namespace: Seq<char>) -> bool {
    namespace == "wasi_snapshot_preview1"@ || namespace == "env"@ || namespace == "host"@
}

/// Whether imports from `namespace` are served by the host itself.
pub fn is_terminal_namespace(namespace: &String) -> (terminal: bool)
    ensures
        terminal == is_terminal(namespace@),
{
    *namespace == "wasi_snapshot_preview1".to_owned() || *namespace == "env".to_owned()
        || *namespace == "host".to_owned()
}

/// The file that holds the module imported as `namespace`: the namespace
/// followed by `.wasm`. It is looked for beside the importing module.
pub fn module_file_name(namespace: &String) -> (file_name: String)
    ensures
        file_name@ == namespace@ + ".wasm"@,
{
    let mut file_name = namespace.clone();
    file_name.append(".wasm");
    file_name
}

/// One compiled module as the resolver knows it.
pub struct ModuleRecord {
    /// The name under which other modules import it.
    pub name: String,
    /// Where its file lies.
    pub path: PathBuf,
    /// The namespace of each of its imports, in declaration order.
    pub imports: Vec<String>,
}

/// Whether `graph` holds a module called `name`.
pub open spec fn has_module(graph: Seq<ModuleRecord>, name: Seq<char>) -> bool {
    exists|i: int| 0 <= i < graph.len() && (#[trigger] graph[i]).name@ == name
}

/// The position in `graph` of the module called `name`.
pub open spec fn module_index(graph: Seq<ModuleRecord>, name: Seq<char>) -> int
    recommends
        has_module(graph, name),
{
    choose|i: int| 0 <= i < graph.len() && (#[trigger] graph[i]).name@ == name
}

/// No two modules of `graph` have the same name.
pub open spec fn unique_names(graph: Seq<ModuleRecord>) -> bool {
    forall|i: int, j: int|
        0 <= i < j < graph.len() ==> (#[trigger] graph[i]).name@ != (#[trigger] graph[j]).name@
}

/// The namespace of import number `k` of module number `m`.
pub open spec fn import_at(graph: Seq<ModuleRecord>, m: int, k: int) -> Seq<char> {
    graph[m].imports@[k]@
}

/// Whether import number `k` of module number `m` asks for a module that
/// `graph` does not hold.
pub open spec fn is_missing(graph: Seq<ModuleRecord>, m: int, k: int) -> bool {
    &&& 0 <= m < graph.len()
    &&& 0 <= k < graph[m].imports@.len()
    &&& !is_terminal(import_at(graph, m, k))
    &&& !has_module(graph, import_at(graph, m, k))
}

/// Every module that some module of `graph` imports is in `graph` too.
pub open spec fn imports_resolved(graph: Seq<ModuleRecord>) -> bool {
    forall|m: int, k: int| !is_missing(graph, m, k)
}

/// Whether import number `k` of module number `m` is the first one, going
/// through the modules in the order recorded and through each module's
/// imports in declaration order, that asks for a module not in `graph`.
pub open spec fn is_first_missing(graph: Seq<ModuleRecord>, m: int, k: int) -> bool {
    &&& is_missing(graph, m, k)
    &&& forall|m2: int, k2: int|
        m2 < m || (m2 == m && k2 < k) ==> !#[trigger] is_missing(graph, m2, k2)
}

/// A name determines its module where names are unique.
pub proof fn lemma_module_index(graph: Seq<ModuleRecord>, i: int)
    requires
        unique_names(graph),
        0 <= i < graph.len(),
    ensures
        has_module(graph, graph[i].name@),
        module_index(graph, graph[i].name@) == i,
{
}

/// The modules compiled so far, each under a name of its own.
pub struct ImportGraph {
    modules: Vec<ModuleRecord>,
}

impl View for ImportGraph {
    type V = Seq<ModuleRecord>;

    closed spec fn view(&self) -> Seq<ModuleRecord> {
        self.modules@
    }
}

impl ImportGraph {
    /// What every graph satisfies: no name is recorded twice.
    pub open spec fn well_formed(&self) -> bool {
        unique_names(self@)
    }

    /// A graph without modules.
    pub fn new() -> (graph: Self)
        ensures
            graph@ == Seq::<ModuleRecord>::empty(),
            graph.well_formed(),
    {
        ImportGraph { modules: Vec::new() }
    }

    /// The number of modules recorded.
    pub fn len(&self) -> (n: usize)
        ensures
            n == self@.len(),
    {
        self.modules.len()
    }

    /// The position of the module called `name`, if the graph holds it.
    pub fn position(&self, name: &String) -> (found: Option<usize>)
        requires
            self.well_formed(),
        ensures
            found is Some <==> has_module(self@, name@),
            found matches Some(i) ==> i == module_index(self@, name@),
    {
        let mut i: usize = 0;
        while i < self.modules.len()
            invariant
                self.well_formed(),
                i <= self.modules.len(),
                forall|j: int| 0 <= j < i ==> (#[trigger] self.modules@[j]).name@ != name@,
            decreases self.modules.len() - i,
        {
            if self.modules[i].name == *name {
                proof {
                    lemma_module_index(self@, i as int);
                }
                return Some(i);
            }
            i += 1;
        }
        None
    }

    /// The next module to compile: the namespace of the first import that
    /// asks for a module not recorded yet. `None` says that every module
    /// reachable through imports is recorded.
    pub fn first_missing(&self) -> (missing: Option<String>)
        requires
            self.well_formed(),
        ensures
            missing is None <==> imports_resolved(self@),
            missing matches Some(namespace) ==> exists|m: int, k: int|
                #[trigger] is_first_missing(self@, m, k) && namespace@ == import_at(self@, m, k),
    {
        let mut m: usize = 0;
        while m < self.modules.len()
            invariant
                self.well_formed(),
                m <= self.modules.len(),
                forall|m2: int, k2: int| m2 < m ==> !#[trigger] is_missing(self@, m2, k2),
            decreases self.modules.len() - m,
        {
            let imports = &self.modules[m].imports;
            let mut k: usize = 0;
            while k < imports.len()
                invariant
                    self.well_formed(),
                    m < self.modules.len(),
                    imports == &self.modules@[m as int].imports,
                    k <= imports.len(),
                    forall|m2: int, k2: int| m2 < m ==> !#[trigger] is_missing(self@, m2, k2),
                    forall|k2: int| k2 < k ==> !#[trigger] is_missing(self@, m as int, k2),
                decreases imports.len() - k,
            {
                if !is_terminal_namespace(&imports[k]) && self.position(&imports[k]).is_none() {
                    proof {
                        assert(is_missing(self@, m as int, k as int));
                        assert(is_first_missing(self@, m as int, k as int));
                    }
                    return Some(imports[k].clone());
                }
                k += 1;
            }
            m += 1;
        }
        None
    }

    /// Records a module with the namespaces of its imports. A name that the
    /// graph already holds is not recorded again: the graph stays as it was
    /// and `false` is returned.
    pub fn add_module(&mut self, name: String, path: PathBuf, imports: Vec<String>) -> (added: bool)
        requires
            old(self).well_formed(),
        ensures
            final(self).well_formed(),
            added == !has_module(old(self)@, name@),
            added ==> final(self)@ == old(self)@.push(ModuleRecord { name, path, imports }),
            !added ==> final(self)@ == old(self)@,
    {
        if self.position(&name).is_some() {
            return false;
        }
        self.modules.push(ModuleRecord { name, path, imports });
        true
    }

    /// Records a compiled module: as [`ImportGraph::add_module`], with the
    /// import namespaces read from `module`.
    pub fn record_module(&mut self, name: String, path: PathBuf, module: &Module) -> (added: bool)
        requires
            old(self).well_formed(),
        ensures
            final(self).well_formed(),
            added == !has_module(old(self)@, name@),
            added ==> {
                &&& final(self)@.len() == old(self)@.len() + 1
                &&& final(self)@.drop_last() == old(self)@
                &&& final(self)@.last().name == name
                &&& final(self)@.last().path == path
                &&& final(self)@.last().imports@.map_values(|namespace: String| namespace@)
                    == module_import_namespaces(*module)
            },
            !added ==> final(self)@ == old(self)@,
    {
        let imports = import_namespaces(module);
        self.add_module(name, path, imports)
    }
}

/// The list entry of a module: its name and the path of its file.
pub open spec fn entry_of(record: ModuleRecord) -> (String, PathBuf) {
    (record.name, record.path)
}

/// How many modules are not on the path that the walk currently follows.
pub open spec fn unvisited(on_path: Seq<bool>) -> nat
    decreases on_path.len(),
{
    if on_path.len() == 0 {
        0
    } else {
        unvisited(on_path.drop_last()) + if on_path.last() {
            0nat
        } else {
            1nat
        }
    }
}

/// Stepping onto a module leaves one module fewer off the path.
pub proof fn lemma_mark_shrinks_unvisited(on_path: Seq<bool>, d: int)
    requires
        0 <= d < on_path.len(),
        !on_path[d],
    ensures
        unvisited(on_path.update(d, true)) + 1 == unvisited(on_path),
    decreases on_path.len(),
{
    let marked = on_path.update(d, true);
    if d == on_path.len() - 1 {
        assert(marked.drop_last() == on_path.drop_last());
    } else {
        lemma_mark_shrinks_unvisited(on_path.drop_last(), d);
        assert(marked.drop_last() == on_path.drop_last().update(d, true));
    }
}

/// The depth-first walk below module number `m`, from its import number `k`
/// on: for each import that is not terminal, the list of the imported module
/// (which ends with that module), and at the very end module `m` itself.
/// `on_path` marks the modules between the root and `m`. An import that
/// leads back onto that path closes a cycle; one that names no module of
/// `graph` is a module that could not be compiled. The walk stops at the
/// first import that fails in either way.
pub open spec fn traverse(graph: Seq<ModuleRecord>, m: int, k: int, on_path: Seq<bool>) -> Result<
    Seq<(String, PathBuf)>,
    LinkError,
>
    decreases unvisited(on_path), graph[m].imports@.len() - k,
    when 0 <= m < graph.len() && 0 <= k && on_path.len() == graph.len()
{
    if k >= graph[m].imports@.len() {
        Ok(seq![entry_of(graph[m])])
    } else if is_terminal(import_at(graph, m, k)) {
        traverse(graph, m, k + 1, on_path)
    } else if !has_module(graph, import_at(graph, m, k)) {
        Err(LinkError::CompileError)
    } else {
        let d = module_index(graph, import_at(graph, m, k));
        if on_path[d] {
            Err(LinkError::CyclicDependency)
        } else {
            proof {
                lemma_mark_shrinks_unvisited(on_path, d);
            }
            match traverse(graph, d, 0, on_path.update(d, true)) {
                Err(e) => Err(e),
                Ok(first) => match traverse(graph, m, k + 1, on_path) {
                    Err(e) => Err(e),
                    Ok(rest) => Ok(first + rest),
                },
            }
        }
    }
}

/// The path of a walk that stands on module `root` and nowhere else.
pub open spec fn path_at_root(graph: Seq<ModuleRecord>, root: int) -> Seq<bool> {
    Seq::new(graph.len(), |i: int| i == root)
}

/// The depth-first list of everything that the module called `root` needs,
/// itself included and last. A module that is imported along several ways is
/// listed once for each.
pub open spec fn spec_dependency_order(graph: Seq<ModuleRecord>, root: Seq<char>) -> Result<
    Seq<(String, PathBuf)>,
    LinkError,
> {
    if !has_module(graph, root) {
        Err(LinkError::CompileError)
    } else {
        traverse(graph, module_index(graph, root), 0, path_at_root(graph, module_index(graph, root)))
    }
}

/// The instantiation order for the module called `root`: the depth-first
/// list with only the first entry of each module.
pub open spec fn spec_resolve(graph: Seq<ModuleRecord>, root: Seq<char>) -> Result<
    Seq<(String, PathBuf)>,
    LinkError,
> {
    match spec_dependency_order(graph, root) {
        Ok(listed) => Ok(first_occurrences(listed)),
        Err(e) => Err(e),
    }
}

/// Walks the imports of module number `m` and appends what the walk lists to
/// `order`. `on_path` marks the modules between the root and `m`; it is the
/// same after a walk that succeeds.
fn dfs(
    graph: &ImportGraph,
    m: usize,
    on_path: &mut Vec<bool>,
    order: &mut Vec<(String, PathBuf)>,
) -> (done: Result<(), LinkError>)
    requires
        graph.well_formed(),
        m < graph@.len(),
        old(on_path)@.len() == graph@.len(),
    ensures
        match traverse(graph@, m as int, 0, old(on_path)@) {
            Ok(listed) => done is Ok && final(order)@ == old(order)@ + listed && final(on_path)@
                == old(on_path)@,
            Err(e) => done matches Err(g) && g == e,
        },
    decreases unvisited(old(on_path)@),
{
    let ghost marks = on_path@;
    let ghost before = order@;
    let ghost mut listed: Seq<(String, PathBuf)> = Seq::empty();
    let record = &graph.modules[m];
    let mut k: usize = 0;
    while k < record.imports.len()
        invariant
            graph.well_formed(),
            m < graph@.len(),
            record == &graph@[m as int],
            k <= record.imports@.len(),
            marks.len() == graph@.len(),
            marks == old(on_path)@,
            on_path@ == marks,
            order@ == before + listed,
            traverse(graph@, m as int, 0, marks) == match traverse(
                graph@,
                m as int,
                k as int,
                marks,
            ) {
                Ok(rest) => Ok(listed + rest),
                Err(e) => Err(e),
            },
        decreases record.imports@.len() - k,
    {
        let namespace = &record.imports[k];
        if !is_terminal_namespace(namespace) {
            let d = match graph.position(namespace) {
                Some(d) => d,
                None => {
                    return Err(LinkError::CompileError);
                },
            };
            if on_path[d] {
                return Err(LinkError::CyclicDependency);
            }
            on_path[d] = true;
            proof {
                lemma_mark_shrinks_unvisited(marks, d as int);
            }
            match dfs(graph, d, on_path, order) {
                Ok(()) => {},
                Err(e) => {
                    return Err(e);
                },
            }
            on_path[d] = false;
            proof {
                let first = traverse(graph@, d as int, 0, marks.update(d as int, true))->Ok_0;
                assert(on_path@ == marks);
                match traverse(graph@, m as int, k + 1, marks) {
                    Ok(rest) => {
                        assert(listed + (first + rest) == (listed + first) + rest);
                    },
                    Err(_) => {},
                }
                assert(before + listed + first == before + (listed + first));
                listed = listed + first;
            }
        }
        k += 1;
    }
    order.push((record.name.clone(), record.path.clone()));
    proof {
        assert(before + listed + seq![entry_of(graph@[m as int])] == before + (listed + seq![
            entry_of(graph@[m as int]),
        ]));
    }
    Ok(())
}

/// Lists, depth first, everything that the module called `root` needs: each
/// module after the modules it imports, `root` itself last. A module that is
/// reached along several ways is listed once for each way.
///
/// Fails with `CompileError` where `root` or a module reached from it is not
/// in `graph`, and with `CyclicDependency` where a module reached from
/// `root` imports a module that is still being walked.
pub fn dependency_order(graph: &ImportGraph, root: &String) -> (order: Result<
    Vec<(String, PathBuf)>,
    LinkError,
>)
    requires
        graph.well_formed(),
    ensures
        match spec_dependency_order(graph@, root@) {
            Ok(listed) => order matches Ok(got) && got@ == listed,
            Err(e) => order matches Err(g) && g == e,
        },
{
    let r = match graph.position(root) {
        Some(r) => r,
        None => {
            return Err(LinkError::CompileError);
        },
    };
    let mut on_path: Vec<bool> = Vec::new();
    let mut i: usize = 0;
    while i < graph.modules.len()
        invariant
            i <= graph.modules.len(),
            on_path@ == Seq::new(i as nat, |j: int| j == r),
        decreases graph.modules.len() - i,
    {
        on_path.push(i == r);
        proof {
            assert(on_path@ == Seq::new((i + 1) as nat, |j: int| j == r));
        }
        i += 1;
    }
    proof {
        assert(on_path@ == path_at_root(graph@, r as int));
    }
    let mut order: Vec<(String, PathBuf)> = Vec::new();
    match dfs(graph, r, &mut on_path, &mut order) {
        Ok(()) => {
            proof {
                let listed = spec_dependency_order(graph@, root@)->Ok_0;
                assert(Seq::<(String, PathBuf)>::empty() + listed == listed);
            }
            Ok(order)
        },
        Err(e) => Err(e),
    }
}

/// The order in which to instantiate the module called `root` and all it
/// needs: every module once, and after each module it imports.
pub fn resolve(graph: &ImportGraph, root: &String) -> (order: Result<
    Vec<(String, PathBuf)>,
    LinkError,
>)
    requires
        graph.well_formed(),
    ensures
        match spec_resolve(graph@, root@) {
            Ok(listed) => order matches Ok(got) && got@ == listed,
            Err(e) => order matches Err(g) && g == e,
        },
{
    match dependency_order(graph, root) {
        Ok(listed) => Ok(remove_duplicates(listed)),
        Err(e) => Err(e),
    }
}

/// Whether the name of entry `i` already occurs at an earlier position.
pub open spec fn name_seen_before(entries: Seq<(String, PathBuf)>, i: int) -> bool {
    exists|j: int| 0 <= j < i && #[trigger] entries[j].0@ == entries[i].0@
}

/// The entries whose name occurs for the first time, in their original order.
pub open spec fn first_occurrences(entries: Seq<(String, PathBuf)>) -> Seq<(String, PathBuf)>
    decreases entries.len(),
{
    if entries.len() == 0 {
        Seq::empty()
    } else {
        let rest = first_occurrences(entries.drop_last());
        if name_seen_before(entries, entries.len() - 1) {
            rest
        } else {
            rest.push(entries.last())
        }
    }
}

/// Every name of `entries` is the name of some kept entry, and every kept
/// entry carries a name of `entries`.
pub proof fn lemma_first_occurrences_names(entries: Seq<(String, PathBuf)>)
    ensures
        forall|i: int|
            0 <= i < entries.len() ==> exists|k: int|
                0 <= k < first_occurrences(entries).len() && #[trigger] first_occurrences(
                    entries,
                )[k].0@ == (#[trigger] entries[i]).0@,
        forall|k: int|
            0 <= k < first_occurrences(entries).len() ==> exists|i: int|
                0 <= i < entries.len() && (#[trigger] entries[i]).0@ == (#[trigger] first_occurrences(
                    entries,
                )[k]).0@,
    decreases entries.len(),
{
    if entries.len() > 0 {
        let init = entries.drop_last();
        let n = entries.len() - 1;
        lemma_first_occurrences_names(init);
        let kept = first_occurrences(entries);
        let kept_init = first_occurrences(init);
        assert forall|i: int| 0 <= i < entries.len() implies exists|k: int|
            0 <= k < kept.len() && #[trigger] kept[k].0@ == (#[trigger] entries[i]).0@ by {
            if i < n {
                assert(init[i] == entries[i]);
                let k = choose|k: int|
                    0 <= k < kept_init.len() && #[trigger] kept_init[k].0@ == init[i].0@;
                assert(kept[k] == kept_init[k]);
            } else if name_seen_before(entries, n) {
                let j = choose|j: int| 0 <= j < n && #[trigger] entries[j].0@ == entries[n].0@;
                assert(init[j] == entries[j]);
                let k = choose|k: int|
                    0 <= k < kept_init.len() && #[trigger] kept_init[k].0@ == init[j].0@;
                assert(kept[k] == kept_init[k]);
            } else {
                assert(kept[kept.len() - 1] == entries[n]);
            }
        }
        assert forall|k: int| 0 <= k < kept.len() implies exists|i: int|
            0 <= i < entries.len() && (#[trigger] entries[i]).0@ == (#[trigger] kept[k]).0@ by {
            if k < kept_init.len() {
                assert(kept[k] == kept_init[k]);
                let i = choose|i: int|
                    0 <= i < init.len() && (#[trigger] init[i]).0@ == kept_init[k].0@;
                assert(init[i] == entries[i]);
            } else {
                assert(kept[k] == entries[n]);
            }
        }
    }
}

/// Whether some entry of `kept` carries `name`.
fn holds_name(kept: &Vec<(String, PathBuf)>, name: &String) -> (found: bool)
    ensures
        found == exists|m: int| 0 <= m < kept@.len() && #[trigger] kept@[m].0@ == name@,
{
    let mut k: usize = 0;
    while k < kept.len()
        invariant
            k <= kept.len(),
            forall|m: int| 0 <= m < k ==> #[trigger] kept@[m].0@ != name@,
        decreases kept.len() - k,
    {
        if kept[k].0 == *name {
            return true;
        }
        k += 1;
    }
    false
}

/// Drops every entry whose name already occurred earlier in the list. The
/// entries that stay keep their order.
pub fn remove_duplicates(vec: Vec<(String, PathBuf)>) -> (kept: Vec<(String, PathBuf)>)
    ensures
        kept@ == first_occurrences(vec@),
{
    let mut kept: Vec<(String, PathBuf)> = Vec::new();
    for entry in it: vec
        invariant
            it.seq() == vec@,
            kept@ == first_occurrences(vec@.take(it.index() as int)),
    {
        let seen = holds_name(&kept, &entry.0);
        proof {
            let i = it.index() as int;
            let prefix = vec@.take(i);
            let next = vec@.take(i + 1);
            lemma_first_occurrences_names(prefix);
            assert(next.drop_last() == prefix);
            assert(next.last() == entry);
            if seen {
                let m = choose|m: int| 0 <= m < kept@.len() && #[trigger] kept@[m].0@ == entry.0@;
                let j = choose|j: int|
                    0 <= j < prefix.len() && (#[trigger] prefix[j]).0@ == kept@[m].0@;
                assert(next[j] == prefix[j]);
                assert(name_seen_before(next, i));
            } else if name_seen_before(next, i) {
                let j = choose|j: int| 0 <= j < i && #[trigger] next[j].0@ == next[i].0@;
                assert(prefix[j] == next[j]);
                let m = choose|m: int|
                    0 <= m < kept@.len() && #[trigger] kept@[m].0@ == prefix[j].0@;
                assert(false);
            }
        }
        if !seen {
            kept.push(entry);
        }
    }
    proof {
        assert(vec@.take(vec@.len() as int) == vec@);
    }
    kept
}

} // verus!
