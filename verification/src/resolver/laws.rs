//! What holds of every order that the resolver gives.

use std::path::PathBuf;
use vstd::prelude::*;
use crate::error::LinkError;
use crate::resolver::{
    entry_of, first_occurrences, has_module, import_at, imports_resolved, is_missing, is_terminal,
    lemma_first_occurrences_names, lemma_mark_shrinks_unvisited, lemma_module_index, module_index,
    name_seen_before, path_at_root, spec_dependency_order, spec_resolve, traverse, unique_names,
    unvisited, ModuleRecord,
};

verus! {

/// Whether a module called `name` is listed in `order` before position `p`.
pub open spec fn listed_before(order: Seq<(String, PathBuf)>, p: int, name: Seq<char>) -> bool {
    exists|q: int| 0 <= q < p && (#[trigger] order[q]).0@ == name
}

/// Whether every module that module number `m` imports, from its import
/// number `from` on, is listed in `order` before position `p`.
pub open spec fn imports_precede(
    graph: Seq<ModuleRecord>,
    m: int,
    from: int,
    order: Seq<(String, PathBuf)>,
    p: int,
) -> bool {
    forall|k: int|
        from <= k < graph[m].imports@.len() && !is_terminal(#[trigger] import_at(graph, m, k))
            ==> listed_before(order, p, import_at(graph, m, k))
}

/// Whether `order` lists only modules of `graph`, and each of them strictly
/// after every module that it imports.
pub open spec fn dependencies_first(graph: Seq<ModuleRecord>, order: Seq<(String, PathBuf)>) -> bool {
    forall|p: int|
        0 <= p < order.len() ==> has_module(graph, (#[trigger] order[p]).0@) && imports_precede(
            graph,
            module_index(graph, order[p].0@),
            0,
            order,
            p,
        )
}

/// Whether no module is listed twice in `order`.
pub open spec fn distinct_names(order: Seq<(String, PathBuf)>) -> bool {
    forall|p: int, q: int|
        0 <= p < q < order.len() ==> (#[trigger] order[p]).0@ != (#[trigger] order[q]).0@
}

proof fn lemma_listed_before_left(
    a: Seq<(String, PathBuf)>,
    b: Seq<(String, PathBuf)>,
    p: int,
    name: Seq<char>,
)
    requires
        listed_before(a, p, name),
        p <= a.len(),
    ensures
        listed_before(a + b, p, name),
{
    let q = choose|q: int| 0 <= q < p && (#[trigger] a[q]).0@ == name;
    assert((a + b)[q] == a[q]);
}

proof fn lemma_listed_before_right(
    a: Seq<(String, PathBuf)>,
    b: Seq<(String, PathBuf)>,
    p: int,
    name: Seq<char>,
)
    requires
        listed_before(b, p, name),
        p <= b.len(),
    ensures
        listed_before(a + b, a.len() + p, name),
{
    let q = choose|q: int| 0 <= q < p && (#[trigger] b[q]).0@ == name;
    assert((a + b)[a.len() + q] == b[q]);
}

proof fn lemma_imports_precede_left(
    graph: Seq<ModuleRecord>,
    m: int,
    from: int,
    a: Seq<(String, PathBuf)>,
    b: Seq<(String, PathBuf)>,
    p: int,
)
    requires
        imports_precede(graph, m, from, a, p),
        p <= a.len(),
    ensures
        imports_precede(graph, m, from, a + b, p),
{
    assert forall|k: int|
        from <= k < graph[m].imports@.len() && !is_terminal(
            #[trigger] import_at(graph, m, k),
        ) implies listed_before(a + b, p, import_at(graph, m, k)) by {
        lemma_listed_before_left(a, b, p, import_at(graph, m, k));
    }
}

proof fn lemma_imports_precede_right(
    graph: Seq<ModuleRecord>,
    m: int,
    from: int,
    a: Seq<(String, PathBuf)>,
    b: Seq<(String, PathBuf)>,
    p: int,
)
    requires
        imports_precede(graph, m, from, b, p),
        p <= b.len(),
    ensures
        imports_precede(graph, m, from, a + b, a.len() + p),
{
    assert forall|k: int|
        from <= k < graph[m].imports@.len() && !is_terminal(
            #[trigger] import_at(graph, m, k),
        ) implies listed_before(a + b, a.len() + p, import_at(graph, m, k)) by {
        lemma_listed_before_right(a, b, p, import_at(graph, m, k));
    }
}

/// A walk that succeeds lists module `m` last, after every module that it
/// imports from import number `k` on, and lists every other module after
/// all that this one imports.
pub proof fn lemma_traverse_lists_imports_first(
    graph: Seq<ModuleRecord>,
    m: int,
    k: int,
    on_path: Seq<bool>,
)
    requires
        unique_names(graph),
        0 <= m < graph.len(),
        0 <= k,
        on_path.len() == graph.len(),
        traverse(graph, m, k, on_path) is Ok,
    ensures
        ({
            let listed = traverse(graph, m, k, on_path)->Ok_0;
            &&& listed.len() >= 1
            &&& listed.last() == entry_of(graph[m])
            &&& imports_precede(graph, m, k, listed, listed.len() - 1)
            &&& forall|p: int|
                0 <= p < listed.len() - 1 ==> has_module(graph, (#[trigger] listed[p]).0@)
                    && imports_precede(graph, module_index(graph, listed[p].0@), 0, listed, p)
        }),
    decreases unvisited(on_path), graph[m].imports@.len() - k,
{
    let n = graph[m].imports@.len();
    let listed = traverse(graph, m, k, on_path)->Ok_0;
    if k >= n {
    } else if is_terminal(import_at(graph, m, k)) {
        lemma_traverse_lists_imports_first(graph, m, k + 1, on_path);
    } else {
        let d = module_index(graph, import_at(graph, m, k));
        let marked = on_path.update(d, true);
        lemma_mark_shrinks_unvisited(on_path, d);
        let first = traverse(graph, d, 0, marked)->Ok_0;
        let rest = traverse(graph, m, k + 1, on_path)->Ok_0;
        lemma_traverse_lists_imports_first(graph, d, 0, marked);
        lemma_traverse_lists_imports_first(graph, m, k + 1, on_path);
        assert(listed == first + rest);
        assert(listed.last() == rest.last());
        assert forall|j: int|
            k <= j < n && !is_terminal(#[trigger] import_at(graph, m, j)) implies listed_before(
            listed,
            listed.len() - 1,
            import_at(graph, m, j),
        ) by {
            if j == k {
                assert(listed[first.len() - 1] == first.last());
            } else {
                lemma_listed_before_right(first, rest, rest.len() - 1, import_at(graph, m, j));
            }
        }
        assert forall|p: int| 0 <= p < listed.len() - 1 implies has_module(
            graph,
            (#[trigger] listed[p]).0@,
        ) && imports_precede(graph, module_index(graph, listed[p].0@), 0, listed, p) by {
            if p < first.len() - 1 {
                assert(listed[p] == first[p]);
                lemma_imports_precede_left(
                    graph,
                    module_index(graph, first[p].0@),
                    0,
                    first,
                    rest,
                    p,
                );
            } else if p == first.len() - 1 {
                assert(listed[p] == first.last());
                lemma_module_index(graph, d);
                lemma_imports_precede_left(graph, d, 0, first, rest, p);
            } else {
                let at = p - first.len();
                assert(listed[p] == rest[at]);
                lemma_imports_precede_right(
                    graph,
                    module_index(graph, rest[at].0@),
                    0,
                    first,
                    rest,
                    at,
                );
            }
        }
    }
}

/// Keeping the first entry of each module keeps the order sound: where every
/// module stood after its imports, it still does, and no module is listed
/// twice any more.
pub proof fn lemma_first_occurrences_keep_dependencies_first(
    graph: Seq<ModuleRecord>,
    listed: Seq<(String, PathBuf)>,
)
    requires
        dependencies_first(graph, listed),
    ensures
        dependencies_first(graph, first_occurrences(listed)),
        distinct_names(first_occurrences(listed)),
    decreases listed.len(),
{
    if listed.len() > 0 {
        let n = listed.len() - 1;
        let init = listed.drop_last();
        let kept = first_occurrences(listed);
        let kept_init = first_occurrences(init);
        assert forall|p: int| 0 <= p < init.len() implies has_module(
            graph,
            (#[trigger] init[p]).0@,
        ) && imports_precede(graph, module_index(graph, init[p].0@), 0, init, p) by {
            assert(init[p] == listed[p]);
            let m = module_index(graph, listed[p].0@);
            assert forall|k: int|
                0 <= k < graph[m].imports@.len() && !is_terminal(
                    #[trigger] import_at(graph, m, k),
                ) implies listed_before(init, p, import_at(graph, m, k)) by {
                let q = choose|q: int|
                    0 <= q < p && (#[trigger] listed[q]).0@ == import_at(graph, m, k);
                assert(init[q] == listed[q]);
            }
        }
        lemma_first_occurrences_keep_dependencies_first(graph, init);
        lemma_first_occurrences_names(init);
        if !name_seen_before(listed, n) {
            assert(kept == kept_init.push(listed[n]));
            assert forall|p: int| 0 <= p < kept.len() implies has_module(
                graph,
                (#[trigger] kept[p]).0@,
            ) && imports_precede(graph, module_index(graph, kept[p].0@), 0, kept, p) by {
                let m = module_index(graph, kept[p].0@);
                if p < kept_init.len() {
                    assert(kept[p] == kept_init[p]);
                    assert(kept == kept_init + seq![listed[n]]);
                    lemma_imports_precede_left(graph, m, 0, kept_init, seq![listed[n]], p);
                } else {
                    assert(kept[p] == listed[n]);
                    assert forall|k: int|
                        0 <= k < graph[m].imports@.len() && !is_terminal(
                            #[trigger] import_at(graph, m, k),
                        ) implies listed_before(kept, p, import_at(graph, m, k)) by {
                        let q = choose|q: int|
                            0 <= q < n && (#[trigger] listed[q]).0@ == import_at(graph, m, k);
                        assert(init[q] == listed[q]);
                        let c = choose|c: int|
                            0 <= c < kept_init.len() && (#[trigger] kept_init[c]).0@
                                == init[q].0@;
                        assert(kept[c] == kept_init[c]);
                    }
                }
            }
            assert forall|p: int, q: int| 0 <= p < q < kept.len() implies (#[trigger] kept[p]).0@
                != (#[trigger] kept[q]).0@ by {
                assert(kept[p] == kept_init[p]);
                if q < kept_init.len() {
                    assert(kept[q] == kept_init[q]);
                } else {
                    assert(kept[q] == listed[n]);
                    if kept_init[p].0@ == listed[n].0@ {
                        let i = choose|i: int|
                            0 <= i < init.len() && (#[trigger] init[i]).0@ == kept_init[p].0@;
                        assert(init[i] == listed[i]);
                        assert(name_seen_before(listed, n));
                    }
                }
            }
        }
    }
}

/// The order that `resolve` gives is topological: it lists only modules of
/// the graph, none of them twice, the module asked for among them, and each
/// module strictly after every module that it imports from a namespace that
/// is not terminal.
pub proof fn lemma_resolve_is_topological(graph: Seq<ModuleRecord>, root: Seq<char>)
    requires
        unique_names(graph),
        spec_resolve(graph, root) is Ok,
    ensures
        dependencies_first(graph, spec_resolve(graph, root)->Ok_0),
        distinct_names(spec_resolve(graph, root)->Ok_0),
        listed_before(
            spec_resolve(graph, root)->Ok_0,
            spec_resolve(graph, root)->Ok_0.len() as int,
            root,
        ),
{
    let r = module_index(graph, root);
    let listed = spec_dependency_order(graph, root)->Ok_0;
    lemma_traverse_lists_imports_first(graph, r, 0, path_at_root(graph, r));
    lemma_module_index(graph, r);
    assert(dependencies_first(graph, listed)) by {
        assert forall|p: int| 0 <= p < listed.len() implies has_module(
            graph,
            (#[trigger] listed[p]).0@,
        ) && imports_precede(graph, module_index(graph, listed[p].0@), 0, listed, p) by {
            if p == listed.len() - 1 {
                assert(listed[p] == entry_of(graph[r]));
            }
        }
    }
    lemma_first_occurrences_keep_dependencies_first(graph, listed);
    lemma_first_occurrences_names(listed);
    let kept = first_occurrences(listed);
    let c = choose|c: int|
        0 <= c < kept.len() && (#[trigger] kept[c]).0@ == listed[listed.len() - 1].0@;
    assert(kept[c].0@ == root);
}

/// A walk that succeeds lists, before its last entry, only modules that
/// are off the path on which it set out.
pub proof fn lemma_traverse_lists_off_path(
    graph: Seq<ModuleRecord>,
    m: int,
    k: int,
    on_path: Seq<bool>,
)
    requires
        unique_names(graph),
        0 <= m < graph.len(),
        0 <= k,
        on_path.len() == graph.len(),
        traverse(graph, m, k, on_path) is Ok,
    ensures
        ({
            let listed = traverse(graph, m, k, on_path)->Ok_0;
            &&& listed.len() >= 1
            &&& forall|p: int|
                0 <= p < listed.len() - 1 ==> has_module(graph, (#[trigger] listed[p]).0@)
                    && !on_path[module_index(graph, listed[p].0@)]
        }),
    decreases unvisited(on_path), graph[m].imports@.len() - k,
{
    let n = graph[m].imports@.len();
    let listed = traverse(graph, m, k, on_path)->Ok_0;
    if k >= n {
    } else if is_terminal(import_at(graph, m, k)) {
        lemma_traverse_lists_off_path(graph, m, k + 1, on_path);
    } else {
        let d = module_index(graph, import_at(graph, m, k));
        let marked = on_path.update(d, true);
        lemma_mark_shrinks_unvisited(on_path, d);
        let first = traverse(graph, d, 0, marked)->Ok_0;
        let rest = traverse(graph, m, k + 1, on_path)->Ok_0;
        lemma_traverse_lists_off_path(graph, d, 0, marked);
        lemma_traverse_lists_off_path(graph, m, k + 1, on_path);
        lemma_traverse_lists_imports_first(graph, d, 0, marked);
        assert(listed == first + rest);
        assert forall|p: int| 0 <= p < listed.len() - 1 implies has_module(
            graph,
            (#[trigger] listed[p]).0@,
        ) && !on_path[module_index(graph, listed[p].0@)] by {
            if p < first.len() - 1 {
                assert(listed[p] == first[p]);
            } else if p == first.len() - 1 {
                assert(listed[p] == first.last());
                lemma_module_index(graph, d);
            } else {
                assert(listed[p] == rest[p - first.len()]);
            }
        }
    }
}

/// The module asked for is instantiated last: it closes the order that
/// `resolve` gives.
pub proof fn lemma_resolve_ends_with_root(graph: Seq<ModuleRecord>, root: Seq<char>)
    requires
        unique_names(graph),
        spec_resolve(graph, root) is Ok,
    ensures
        spec_resolve(graph, root)->Ok_0.len() >= 1,
        spec_resolve(graph, root)->Ok_0.last() == entry_of(graph[module_index(graph, root)]),
{
    let r = module_index(graph, root);
    let listed = spec_dependency_order(graph, root)->Ok_0;
    let n = listed.len() - 1;
    lemma_traverse_lists_imports_first(graph, r, 0, path_at_root(graph, r));
    lemma_traverse_lists_off_path(graph, r, 0, path_at_root(graph, r));
    if name_seen_before(listed, n) {
        let j = choose|j: int| 0 <= j < n && (#[trigger] listed[j]).0@ == listed[n].0@;
        assert(module_index(graph, listed[j].0@) == r);
        assert(false);
    }
}

/// Whether module number `m` imports module number `d`.
pub open spec fn imports_module(graph: Seq<ModuleRecord>, m: int, d: int) -> bool {
    exists|k: int|
        0 <= k < graph[m].imports@.len() && !is_terminal(#[trigger] import_at(graph, m, k))
            && has_module(graph, import_at(graph, m, k)) && module_index(
            graph,
            import_at(graph, m, k),
        ) == d
}

/// Whether link number `i` of `chain` is an import: the module at that
/// place imports the one at the next.
pub open spec fn chain_link(graph: Seq<ModuleRecord>, chain: Seq<int>, i: int) -> bool {
    imports_module(graph, chain[i], chain[i + 1])
}

/// Whether `chain` is a run of modules of `graph` in which each imports the
/// next.
pub open spec fn is_import_chain(graph: Seq<ModuleRecord>, chain: Seq<int>) -> bool {
    &&& chain.len() >= 1
    &&& forall|i: int| 0 <= i < chain.len() ==> 0 <= #[trigger] chain[i] < graph.len()
    &&& forall|i: int| 0 <= i < chain.len() - 1 ==> #[trigger] chain_link(graph, chain, i)
}

/// No module of `graph` reaches itself through one or more imports.
pub open spec fn acyclic(graph: Seq<ModuleRecord>) -> bool {
    forall|chain: Seq<int>|
        #[trigger] is_import_chain(graph, chain) && chain.len() >= 2 ==> chain.first()
            != chain.last()
}

/// Whether module number `d` is module number `m` itself or is reached from
/// it through imports.
pub open spec fn reaches(graph: Seq<ModuleRecord>, m: int, d: int) -> bool {
    exists|chain: Seq<int>|
        #[trigger] is_import_chain(graph, chain) && chain.first() == m && chain.last() == d
}

/// Whether `entry` is the list entry of a module that module number `m`
/// reaches.
pub open spec fn is_reached_entry(graph: Seq<ModuleRecord>, m: int, entry: (String, PathBuf)) -> bool {
    exists|d: int| #[trigger] reaches(graph, m, d) && entry_of(graph[d]) == entry
}

/// Whether `chains` holds, for each module on the path, a chain of imports
/// that leads from it to module `m`.
pub open spec fn path_leads_to(
    graph: Seq<ModuleRecord>,
    on_path: Seq<bool>,
    chains: Map<int, Seq<int>>,
    m: int,
) -> bool {
    forall|j: int|
        0 <= j < graph.len() && #[trigger] on_path[j] ==> chains.dom().contains(j)
            && is_import_chain(graph, chains[j]) && chains[j].first() == j && chains[j].last()
            == m
}

/// A chain that is lengthened by a module which its last module imports is
/// a chain again.
proof fn lemma_extend_chain(graph: Seq<ModuleRecord>, chain: Seq<int>, d: int)
    requires
        is_import_chain(graph, chain),
        0 <= d < graph.len(),
        imports_module(graph, chain.last(), d),
    ensures
        is_import_chain(graph, chain.push(d)),
        chain.push(d).first() == chain.first(),
        chain.push(d).last() == d,
{
    let longer = chain.push(d);
    assert forall|i: int| 0 <= i < longer.len() - 1 implies #[trigger] chain_link(
        graph,
        longer,
        i,
    ) by {
        if i < chain.len() - 1 {
            assert(chain_link(graph, chain, i));
            assert(longer[i] == chain[i] && longer[i + 1] == chain[i + 1]);
        } else {
            assert(longer[i] == chain.last() && longer[i + 1] == d);
        }
    }
}

/// A chain that is lengthened at its front by a module which imports its
/// first module is a chain again.
proof fn lemma_prepend_chain(graph: Seq<ModuleRecord>, m: int, chain: Seq<int>)
    requires
        is_import_chain(graph, chain),
        0 <= m < graph.len(),
        imports_module(graph, m, chain.first()),
    ensures
        is_import_chain(graph, seq![m] + chain),
        (seq![m] + chain).first() == m,
        (seq![m] + chain).last() == chain.last(),
{
    let longer = seq![m] + chain;
    assert forall|i: int| 0 <= i < longer.len() - 1 implies #[trigger] chain_link(
        graph,
        longer,
        i,
    ) by {
        if i == 0 {
            assert(longer[0] == m && longer[1] == chain.first());
        } else {
            assert(chain_link(graph, chain, i - 1));
            assert(longer[i] == chain[i - 1] && longer[i + 1] == chain[i]);
        }
    }
}

/// A chain without its last module is a chain again.
proof fn lemma_shorten_chain(graph: Seq<ModuleRecord>, chain: Seq<int>)
    requires
        is_import_chain(graph, chain),
        chain.len() >= 2,
    ensures
        is_import_chain(graph, chain.drop_last()),
        chain.drop_last().first() == chain.first(),
        imports_module(graph, chain.drop_last().last(), chain.last()),
{
    let shorter = chain.drop_last();
    assert forall|i: int| 0 <= i < shorter.len() - 1 implies #[trigger] chain_link(
        graph,
        shorter,
        i,
    ) by {
        assert(chain_link(graph, chain, i));
    }
    assert(chain_link(graph, chain, chain.len() - 2));
}

/// A walk lists only what module `m` reaches.
pub proof fn lemma_traverse_lists_only_reached(
    graph: Seq<ModuleRecord>,
    m: int,
    k: int,
    on_path: Seq<bool>,
)
    requires
        unique_names(graph),
        0 <= m < graph.len(),
        0 <= k,
        on_path.len() == graph.len(),
        traverse(graph, m, k, on_path) is Ok,
    ensures
        forall|p: int|
            0 <= p < traverse(graph, m, k, on_path)->Ok_0.len() ==> is_reached_entry(
                graph,
                m,
                #[trigger] traverse(graph, m, k, on_path)->Ok_0[p],
            ),
    decreases unvisited(on_path), graph[m].imports@.len() - k,
{
    let n = graph[m].imports@.len();
    let listed = traverse(graph, m, k, on_path)->Ok_0;
    if k >= n {
        assert(is_import_chain(graph, seq![m]));
        assert(reaches(graph, m, m));
        assert(entry_of(graph[m]) == listed[0]);
    } else if is_terminal(import_at(graph, m, k)) {
        lemma_traverse_lists_only_reached(graph, m, k + 1, on_path);
    } else {
        let d = module_index(graph, import_at(graph, m, k));
        let marked = on_path.update(d, true);
        lemma_mark_shrinks_unvisited(on_path, d);
        let first = traverse(graph, d, 0, marked)->Ok_0;
        let rest = traverse(graph, m, k + 1, on_path)->Ok_0;
        lemma_traverse_lists_only_reached(graph, d, 0, marked);
        lemma_traverse_lists_only_reached(graph, m, k + 1, on_path);
        assert(listed == first + rest);
        assert(imports_module(graph, m, d));
        assert forall|p: int| 0 <= p < listed.len() implies is_reached_entry(
            graph,
            m,
            #[trigger] listed[p],
        ) by {
            if p < first.len() {
                assert(listed[p] == first[p]);
                assert(is_reached_entry(graph, d, first[p]));
                let e = choose|e: int|
                    #[trigger] reaches(graph, d, e) && entry_of(graph[e]) == first[p];
                let chain = choose|chain: Seq<int>|
                    #[trigger] is_import_chain(graph, chain) && chain.first() == d
                        && chain.last() == e;
                lemma_prepend_chain(graph, m, chain);
                assert(is_import_chain(graph, seq![m] + chain));
                assert(reaches(graph, m, e));
            } else {
                assert(listed[p] == rest[p - first.len()]);
                assert(is_reached_entry(graph, m, rest[p - first.len()]));
            }
        }
    }
}

/// The order that `resolve` gives lists every module that the module asked
/// for reaches through imports.
pub proof fn lemma_resolve_lists_all_reached(
    graph: Seq<ModuleRecord>,
    root: Seq<char>,
    chain: Seq<int>,
)
    requires
        unique_names(graph),
        spec_resolve(graph, root) is Ok,
        is_import_chain(graph, chain),
        chain.first() == module_index(graph, root),
    ensures
        listed_before(
            spec_resolve(graph, root)->Ok_0,
            spec_resolve(graph, root)->Ok_0.len() as int,
            graph[chain.last()].name@,
        ),
    decreases chain.len(),
{
    let order = spec_resolve(graph, root)->Ok_0;
    lemma_resolve_is_topological(graph, root);
    if chain.len() >= 2 {
        let shorter = chain.drop_last();
        let m = shorter.last();
        let d = chain.last();
        lemma_shorten_chain(graph, chain);
        lemma_resolve_lists_all_reached(graph, root, shorter);
        let q = choose|q: int| 0 <= q < order.len() && (#[trigger] order[q]).0@ == graph[m].name@;
        lemma_module_index(graph, m);
        let k = choose|k: int|
            0 <= k < graph[m].imports@.len() && !is_terminal(#[trigger] import_at(graph, m, k))
                && has_module(graph, import_at(graph, m, k)) && module_index(
                graph,
                import_at(graph, m, k),
            ) == d;
        assert(listed_before(order, q, import_at(graph, m, k)));
        let b = choose|b: int| 0 <= b < q && (#[trigger] order[b]).0@ == import_at(graph, m, k);
        assert(order[b].0@ == graph[d].name@);
    }
}

/// The order that `resolve` gives lists nothing but what the module asked
/// for reaches through imports.
pub proof fn lemma_resolve_lists_only_reached(graph: Seq<ModuleRecord>, root: Seq<char>)
    requires
        unique_names(graph),
        spec_resolve(graph, root) is Ok,
    ensures
        forall|p: int|
            0 <= p < spec_resolve(graph, root)->Ok_0.len() ==> reaches(
                graph,
                module_index(graph, root),
                module_index(graph, (#[trigger] spec_resolve(graph, root)->Ok_0[p]).0@),
            ),
{
    let r = module_index(graph, root);
    let order = spec_resolve(graph, root)->Ok_0;
    let listed = spec_dependency_order(graph, root)->Ok_0;
    lemma_traverse_lists_only_reached(graph, r, 0, path_at_root(graph, r));
    lemma_first_occurrences_names(listed);
    assert forall|p: int| 0 <= p < order.len() implies reaches(
        graph,
        r,
        module_index(graph, (#[trigger] order[p]).0@),
    ) by {
        let i = choose|i: int| 0 <= i < listed.len() && (#[trigger] listed[i]).0@ == order[p].0@;
        assert(is_reached_entry(graph, r, listed[i]));
        let d = choose|d: int| #[trigger] reaches(graph, r, d) && entry_of(graph[d]) == listed[i];
        let chain = choose|chain: Seq<int>|
            #[trigger] is_import_chain(graph, chain) && chain.first() == r && chain.last() == d;
        lemma_module_index(graph, d);
    }
}

/// A walk fails only where the graph is at fault: with `CompileError` only
/// where some import names a module that the graph does not hold, and with
/// `CyclicDependency` only where some module reaches itself through imports.
pub proof fn lemma_traverse_fails_only_on_defect(
    graph: Seq<ModuleRecord>,
    m: int,
    k: int,
    on_path: Seq<bool>,
    chains: Map<int, Seq<int>>,
)
    requires
        unique_names(graph),
        0 <= m < graph.len(),
        0 <= k,
        on_path.len() == graph.len(),
        path_leads_to(graph, on_path, chains, m),
    ensures
        traverse(graph, m, k, on_path) matches Err(e) ==> (e == LinkError::CompileError
            && !imports_resolved(graph)) || (e == LinkError::CyclicDependency && !acyclic(graph)),
    decreases unvisited(on_path), graph[m].imports@.len() - k,
{
    let n = graph[m].imports@.len();
    if k >= n {
    } else if is_terminal(import_at(graph, m, k)) {
        lemma_traverse_fails_only_on_defect(graph, m, k + 1, on_path, chains);
    } else if !has_module(graph, import_at(graph, m, k)) {
        assert(is_missing(graph, m, k));
    } else {
        let d = module_index(graph, import_at(graph, m, k));
        assert(imports_module(graph, m, d));
        if on_path[d] {
            lemma_extend_chain(graph, chains[d], d);
            assert(is_import_chain(graph, chains[d].push(d)));
        } else {
            let marked = on_path.update(d, true);
            let longer = Map::new(
                |j: int| 0 <= j < graph.len() && marked[j],
                |j: int|
                    if j == d {
                        seq![d]
                    } else {
                        chains[j].push(d)
                    },
            );
            lemma_mark_shrinks_unvisited(on_path, d);
            assert forall|j: int| 0 <= j < graph.len() && #[trigger] marked[j] implies longer.dom().contains(
                j,
            ) && is_import_chain(graph, longer[j]) && longer[j].first() == j && longer[j].last()
                == d by {
                if j == d {
                } else {
                    assert(on_path[j]);
                    lemma_extend_chain(graph, chains[j], d);
                }
            }
            lemma_traverse_fails_only_on_defect(graph, d, 0, marked, longer);
            lemma_traverse_fails_only_on_defect(graph, m, k + 1, on_path, chains);
        }
    }
}

/// `resolve` fails only where the graph is at fault: with `CompileError`
/// only where the module asked for, or one that some module imports, is not
/// in the graph, and with `CyclicDependency` only where some module reaches
/// itself through imports.
pub proof fn lemma_resolve_fails_only_on_defect(graph: Seq<ModuleRecord>, root: Seq<char>)
    requires
        unique_names(graph),
    ensures
        spec_resolve(graph, root) matches Err(e) ==> (e == LinkError::CompileError && (!has_module(
            graph,
            root,
        ) || !imports_resolved(graph))) || (e == LinkError::CyclicDependency && !acyclic(graph)),
{
    if has_module(graph, root) {
        let r = module_index(graph, root);
        let chains = Map::new(|j: int| j == r, |j: int| seq![r]);
        lemma_traverse_fails_only_on_defect(graph, r, 0, path_at_root(graph, r), chains);
    }
}

/// On a graph without cycles that holds the module asked for and every
/// module that is imported, `resolve` succeeds.
pub proof fn lemma_resolve_succeeds(graph: Seq<ModuleRecord>, root: Seq<char>)
    requires
        unique_names(graph),
        has_module(graph, root),
        imports_resolved(graph),
        acyclic(graph),
    ensures
        spec_resolve(graph, root) is Ok,
{
    lemma_resolve_fails_only_on_defect(graph, root);
}

} // verus!
