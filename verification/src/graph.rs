//! Mapping catalog libraries onto Gradle's resolved graph, with each used
//! library's transitive dependency tree.

use vstd::prelude::*;
use vstd::set_lib::*;
use crate::catalog::{Catalog, CatalogLibrary};
use crate::gradle::{ResolvedComponent, ResolvedGraph};
use crate::model::{ComponentId, DependencyNode, component_lt, lemma_component_lt_transitive, lemma_component_lt_irreflexive};
use crate::order::{insert_by, sort_by, sorted_by, strict_order, lemma_insert_by_at, lemma_sort_by_sorted};
use crate::text::{lex_lt, lemma_lex_irreflexive};

verus! {

/// A dependency node as a value.
pub struct NodeView {
    pub component: ((Seq<char>, Seq<char>), Seq<char>),
    pub children: Seq<NodeView>,
    pub cycle: bool,
    pub repeated: bool,
}

/// The value of a dependency tree node.
pub open spec fn node_view(n: DependencyNode) -> NodeView
    decreases n,
{
    NodeView {
        component: n.component@,
        children: Seq::new(
            n.children@.len(),
            |i: int|
                {
                    if 0 <= i < n.children@.len() {
                        node_view(n.children@[i])
                    } else {
                        NodeView {
                            component: n.component@,
                            children: Seq::empty(),
                            cycle: false,
                            repeated: false,
                        }
                    }
                },
        ),
        cycle: n.cycle,
        repeated: n.repeated,
    }
}

/// The values of a sequence of nodes.
pub open spec fn nodes_view(s: Seq<DependencyNode>) -> Seq<NodeView> {
    Seq::new(s.len(), |i: int| node_view(s[i]))
}


/// Component `u` lists the key of component `v` among its children.
pub open spec fn has_child(g: ResolvedGraph, u: int, v: int) -> bool {
    exists|j: int|
        0 <= j < g.entry(u).children@.len() && #[trigger] g.entry(u).children@[j]@ == g.key(v)
}

/// The components that component `u` depends on, once each, in key order;
/// child keys that name no component are left out.
pub open spec fn child_order(g: ResolvedGraph, u: int) -> Seq<int> {
    Seq::new(g.components@.len(), |i: int| i).filter(|v: int| has_child(g, u, v))
}

/// The index of the component with key `key`.
fn find_key(g: &ResolvedGraph, key: &String) -> (r: Option<usize>)
    requires
        g.wf(),
    ensures
        match r {
            Some(w) => w < g.components@.len() && g.key(w as int) == key@,
            None => forall|v: int| 0 <= v < g.components@.len() ==> g.key(v) != key@,
        },
{
    let mut i: usize = 0;
    while i < g.components.len()
        invariant
            i <= g.components@.len(),
            forall|v: int| 0 <= v < i ==> g.key(v) != key@,
        decreases g.components.len() - i,
    {
        if g.components[i].0 == *key {
            return Some(i);
        }
        i += 1;
    }
    None
}

proof fn lemma_keys_distinct(g: ResolvedGraph, v: int, w: int)
    requires
        g.wf(),
        0 <= v < g.components@.len(),
        0 <= w < g.components@.len(),
        g.key(v) == g.key(w),
    ensures
        v == w,
{
    lemma_lex_irreflexive(g.key(v));
    if v < w {
        assert(lex_lt(g.key(v), g.key(w)));
    } else if w < v {
        assert(lex_lt(g.key(w), g.key(v)));
    }
}

/// The indices of `child_order(g, u)`.
fn child_indices(g: &ResolvedGraph, u: usize) -> (r: Vec<usize>)
    requires
        g.wf(),
        u < g.components@.len(),
    ensures
        r@.len() == child_order(*g, u as int).len(),
        forall|k: int| 0 <= k < r@.len() ==> r@[k] as int == #[trigger] child_order(*g, u as int)[k],
        forall|k: int| 0 <= k < r@.len() ==> #[trigger] r@[k] < g.components@.len(),
{
    let n = g.components.len();
    let children = &g.components[u].1.children;
    let mut marks: Vec<bool> = Vec::new();
    let mut i: usize = 0;
    while i < n
        invariant
            i <= n == g.components@.len(),
            marks@.len() == i,
            forall|v: int| 0 <= v < i ==> !#[trigger] marks@[v],
        decreases n - i,
    {
        marks.push(false);
        i += 1;
    }
    let mut j: usize = 0;
    while j < children.len()
        invariant
            g.wf(),
            u < n == g.components@.len(),
            children == g.entry(u as int).children,
            j <= children@.len(),
            marks@.len() == n,
            forall|v: int|
                0 <= v < n ==> (#[trigger] marks@[v] <==> exists|jj: int|
                    0 <= jj < j && #[trigger] children@[jj]@ == g.key(v)),
        decreases children.len() - j,
    {
        let found = find_key(g, &children[j]);
        let ghost before = marks@;
        if let Some(w) = found {
            marks.set(w, true);
        }
        assert forall|v: int| 0 <= v < n implies (#[trigger] marks@[v] <==> exists|jj: int|
            0 <= jj < j + 1 && #[trigger] children@[jj]@ == g.key(v)) by {
            if marks@[v] && !before[v] {
                assert(children@[j as int]@ == g.key(v));
            }
            if children@[j as int]@ == g.key(v) {
                if let Some(w) = found {
                    lemma_keys_distinct(*g, v, w as int);
                }
            }
            if !marks@[v] {
                assert forall|jj: int| 0 <= jj < j + 1 implies #[trigger] children@[jj]@ != g.key(v) by {
                    if jj < j {
                        assert(!before[v]);
                    }
                }
            }
        }
        j += 1;
    }
    let ghost pred = |v: int| has_child(*g, u as int, v);
    let ghost all = Seq::new(n as nat, |x: int| x);
    let mut r: Vec<usize> = Vec::new();
    let mut v: usize = 0;
    assert(all.take(0).filter(pred) =~= Seq::<int>::empty()) by {
        reveal(Seq::filter);
    }
    while v < n
        invariant
            v <= n == g.components@.len(),
            marks@.len() == n,
            all == Seq::new(n as nat, |x: int| x),
            pred == (|w: int| has_child(*g, u as int, w)),
            forall|w: int|
                0 <= w < n ==> (#[trigger] marks@[w] <==> exists|jj: int|
                    0 <= jj < children@.len() && #[trigger] children@[jj]@ == g.key(w)),
            children == g.entry(u as int).children,
            r@.len() == all.take(v as int).filter(pred).len(),
            forall|k: int|
                0 <= k < r@.len() ==> r@[k] as int == #[trigger] all.take(v as int).filter(pred)[k],
            forall|k: int| 0 <= k < r@.len() ==> #[trigger] r@[k] < v,
        decreases n - v,
    {
        let ghost prev = all.take(v as int).filter(pred);
        assert(all.take(v + 1).drop_last() =~= all.take(v as int));
        assert(all.take(v + 1).last() == v as int);
        assert(marks@[v as int] == pred(v as int));
        assert(all.take(v + 1).filter(pred) == (if pred(v as int) {
            prev.push(v as int)
        } else {
            prev
        })) by {
            reveal(Seq::filter);
        }
        if marks[v] {
            r.push(v);
        }
        v += 1;
    }
    assert(all.take(n as int) =~= all);
    r
}


/// Sibling order: by component coordinate.
pub open spec fn node_lt(a: NodeView, b: NodeView) -> bool {
    component_lt(a.component, b.component)
}

/// Siblings stably sorted by component coordinate.
pub open spec fn sort_nodes(s: Seq<NodeView>) -> Seq<NodeView> {
    sort_by(s, |a: NodeView, b: NodeView| node_lt(a, b))
}

/// The indices marked in `m`.
pub open spec fn marked_set(m: Seq<bool>) -> Set<int> {
    Set::new(|v: int| 0 <= v < m.len() && m[v])
}

/// Depth-first expansion of the components `order`, in that order, below the
/// components on `path`, given the components already `expanded` in this
/// library's tree.  Each child is a cycle when it is on the path, a repetition
/// when it was expanded before; only a child that is neither is expanded, and
/// is marked expanded from then on.  Returns the nodes (unsorted at this
/// level, their own children sorted) and the components expanded afterwards.
/// `fuel` bounds the depth; it never runs out while the path holds fewer than
/// all components.
pub open spec fn expand(
    g: ResolvedGraph,
    order: Seq<int>,
    path: Set<int>,
    expanded: Set<int>,
    fuel: nat,
) -> (Seq<NodeView>, Set<int>)
    decreases fuel, order.len(),
{
    if order.len() == 0 {
        (Seq::empty(), expanded)
    } else {
        let v = order[0];
        let cycle = path.contains(v);
        let repeated = !cycle && expanded.contains(v);
        let marked = if cycle {
            expanded
        } else {
            expanded.insert(v)
        };
        let below = if cycle || repeated || fuel == 0 {
            (Seq::<NodeView>::empty(), marked)
        } else {
            expand(g, child_order(g, v), path.insert(v), marked, (fuel - 1) as nat)
        };
        let node = NodeView {
            component: g.entry(v).id@,
            children: sort_nodes(below.0),
            cycle,
            repeated,
        };
        let rest = expand(g, order.drop_first(), path, below.1, fuel);
        (seq![node] + rest.0, rest.1)
    }
}

/// The dependency tree below component `u`.
pub open spec fn dependency_tree(g: ResolvedGraph, u: int) -> Seq<NodeView> {
    sort_nodes(
        expand(g, child_order(g, u), set![u], set![u], (g.components@.len() - 1) as nat).0,
    )
}

proof fn lemma_node_view_children(n: DependencyNode)
    ensures
        node_view(n).children == nodes_view(n.children@),
        node_view(n).component == n.component@,
        node_view(n).cycle == n.cycle,
        node_view(n).repeated == n.repeated,
{
    assert(node_view(n).children =~= nodes_view(n.children@));
}

proof fn lemma_node_order()
    ensures
        strict_order(|a: NodeView, b: NodeView| node_lt(a, b)),
{
    let lt = |a: NodeView, b: NodeView| node_lt(a, b);
    assert forall|a: NodeView| !#[trigger] lt(a, a) by {
        lemma_component_lt_irreflexive(a.component);
    }
    assert forall|a: NodeView, b: NodeView, c: NodeView| #[trigger] lt(a, b) && #[trigger] lt(b, c) implies lt(a, c) by {
        lemma_component_lt_transitive(a.component, b.component, c.component);
    }
}

/// Inserts `node` before the first sibling it strictly precedes.
fn insert_node(nodes: &mut Vec<DependencyNode>, node: DependencyNode)
    ensures
        nodes_view(final(nodes)@) == insert_by(
            nodes_view(old(nodes)@),
            node_view(node),
            |a: NodeView, b: NodeView| node_lt(a, b),
        ),
{
    let ghost nv = node_view(node);
    proof {
        lemma_node_view_children(node);
    }
    let mut k: usize = 0;
    while k < nodes.len() && !node.component.precedes(&nodes[k].component)
        invariant
            k <= nodes@.len(),
            nodes@ == old(nodes)@,
            nv == node_view(node),
            forall|i: int| 0 <= i < k ==> !node_lt(nv, #[trigger] nodes_view(nodes@)[i]),
        decreases nodes.len() - k,
    {
        proof {
            lemma_node_view_children(nodes@[k as int]);
        }
        k += 1;
    }
    proof {
        if k < nodes@.len() {
            lemma_node_view_children(nodes@[k as int]);
        }
        lemma_insert_by_at(
            nodes_view(nodes@),
            nv,
            |a: NodeView, b: NodeView| node_lt(a, b),
            k as int,
        );
    }
    let ghost before = nodes@;
    nodes.insert(k, node);
    assert(nodes_view(nodes@) =~= nodes_view(before).insert(k as int, nv));
}

proof fn lemma_path_room(path: Set<int>, v: int, n: int)
    requires
        path.subset_of(set_int_range(0, n)),
        0 <= v < n,
        !path.contains(v),
    ensures
        path.finite(),
        path.insert(v).finite(),
        path.insert(v).len() == path.len() + 1,
        path.insert(v).len() <= n,
        path.insert(v).subset_of(set_int_range(0, n)),
{
    lemma_int_range(0, n);
    vstd::set_lib::lemma_set_subset_finite(set_int_range(0, n), path);
    lemma_len_subset(path.insert(v), set_int_range(0, n));
}

/// Expands `order` below `path`; see `expand`.
fn children(
    g: &ResolvedGraph,
    order: &Vec<usize>,
    on_path: &mut Vec<bool>,
    expanded: &mut Vec<bool>,
    Ghost(path): Ghost<Set<int>>,
    Ghost(order_spec): Ghost<Seq<int>>,
    Ghost(fuel): Ghost<nat>,
) -> (nodes: Vec<DependencyNode>)
    requires
        g.wf(),
        order@.len() == order_spec.len(),
        forall|k: int| 0 <= k < order@.len() ==> order@[k] as int == #[trigger] order_spec[k],
        forall|k: int| 0 <= k < order@.len() ==> #[trigger] order@[k] < g.components@.len(),
        old(on_path)@.len() == g.components@.len(),
        old(expanded)@.len() == g.components@.len(),
        forall|v: int|
            0 <= v < g.components@.len() ==> #[trigger] old(on_path)@[v] == path.contains(v),
        path.subset_of(set_int_range(0, g.components@.len() as int)),
        path.finite(),
        path.len() + fuel == g.components@.len(),
    ensures
        final(on_path)@ == old(on_path)@,
        final(expanded)@.len() == g.components@.len(),
        marked_set(final(expanded)@) == expand(
            *g,
            order_spec,
            path,
            marked_set(old(expanded)@),
            fuel,
        ).1,
        nodes_view(nodes@) == sort_nodes(
            expand(*g, order_spec, path, marked_set(old(expanded)@), fuel).0,
        ),
    decreases fuel,
{
    let n = g.components.len();
    let ghost e0 = marked_set(expanded@);
    let ghost total = expand(*g, order_spec, path, e0, fuel);
    let ghost lt = |a: NodeView, b: NodeView| node_lt(a, b);
    let ghost mut done: Seq<NodeView> = Seq::empty();
    let mut nodes: Vec<DependencyNode> = Vec::new();
    let mut i: usize = 0;
    assert(order_spec.skip(0) == order_spec);
    while i < order.len()
        invariant
            g.wf(),
            n == g.components@.len(),
            order@.len() == order_spec.len(),
            forall|k: int| 0 <= k < order@.len() ==> order@[k] as int == #[trigger] order_spec[k],
            forall|k: int| 0 <= k < order@.len() ==> #[trigger] order@[k] < n,
            on_path@ == old(on_path)@,
            on_path@.len() == n,
            forall|v: int| 0 <= v < n ==> #[trigger] on_path@[v] == path.contains(v),
            path.subset_of(set_int_range(0, n as int)),
            path.finite(),
            path.len() + fuel == n,
            expanded@.len() == n,
            i <= order@.len(),
            lt == (|a: NodeView, b: NodeView| node_lt(a, b)),
            total == expand(*g, order_spec, path, e0, fuel),
            total.0 == done + expand(*g, order_spec.skip(i as int), path, marked_set(expanded@), fuel).0,
            total.1 == expand(*g, order_spec.skip(i as int), path, marked_set(expanded@), fuel).1,
            nodes_view(nodes@) == sort_nodes(done),
        decreases order.len() - i,
    {
        let v = order[i];
        let ghost rest = order_spec.skip(i as int);
        let ghost e_i = marked_set(expanded@);
        assert(rest[0] == v as int);
        assert(rest.drop_first() =~= order_spec.skip(i + 1));
        let cycle = on_path[v];
        let repeated = !cycle && expanded[v];
        if !cycle {
            expanded.set(v, true);
            assert(marked_set(expanded@) =~= e_i.insert(v as int));
        }
        let ghost marked = marked_set(expanded@);
        let kids = if cycle || repeated {
            Vec::new()
        } else {
            proof {
                lemma_path_room(path, v as int, n as int);
            }
            on_path.set(v, true);
            let order_v = child_indices(g, v);
            let k = children(
                g,
                &order_v,
                on_path,
                expanded,
                Ghost(path.insert(v as int)),
                Ghost(child_order(*g, v as int)),
                Ghost((fuel - 1) as nat),
            );
            on_path.set(v, false);
            assert(on_path@ =~= old(on_path)@);
            k
        };
        let ghost below = if cycle || repeated {
            (Seq::<NodeView>::empty(), marked)
        } else {
            expand(*g, child_order(*g, v as int), path.insert(v as int), marked, (fuel - 1) as nat)
        };
        assert(nodes_view(kids@) == sort_nodes(below.0)) by {
            if cycle || repeated {
                assert(nodes_view(kids@) =~= Seq::<NodeView>::empty());
            }
        }
        assert(marked_set(expanded@) == below.1);
        let node = DependencyNode {
            component: g.components[v].1.id.duplicate(),
            children: kids,
            cycle,
            repeated,
        };
        let ghost nv = NodeView {
            component: g.entry(v as int).id@,
            children: sort_nodes(below.0),
            cycle,
            repeated,
        };
        proof {
            lemma_node_view_children(node);
        }
        assert(node_view(node) == nv);
        insert_node(&mut nodes, node);
        proof {
            assert(done.push(nv).drop_last() =~= done);
            done = done.push(nv);
            let r = expand(*g, order_spec.skip(i + 1), path, below.1, fuel);
            assert(expand(*g, rest, path, e_i, fuel).0 == seq![nv] + r.0);
            assert(total.0 =~= done + r.0);
        }
        i += 1;
    }
    assert(order_spec.skip(order@.len() as int) =~= Seq::<int>::empty());
    assert(done =~= total.0);
    nodes
}


/// The dependency tree below component `u`.
fn library_tree(g: &ResolvedGraph, u: usize) -> (nodes: Vec<DependencyNode>)
    requires
        g.wf(),
        u < g.components@.len(),
    ensures
        nodes_view(nodes@) == dependency_tree(*g, u as int),
{
    let n = g.components.len();
    let mut on_path: Vec<bool> = Vec::new();
    let mut expanded: Vec<bool> = Vec::new();
    let mut i: usize = 0;
    while i < n
        invariant
            i <= n == g.components@.len(),
            u < n,
            on_path@.len() == i,
            expanded@.len() == i,
            forall|v: int| 0 <= v < i ==> #[trigger] on_path@[v] == (v == u),
            forall|v: int| 0 <= v < i ==> #[trigger] expanded@[v] == (v == u),
        decreases n - i,
    {
        on_path.push(i == u);
        expanded.push(i == u);
        i += 1;
    }
    let ghost path = set![u as int];
    proof {
        assert(path.subset_of(set_int_range(0, n as int)));
        assert(path.len() == 1);
        assert(marked_set(expanded@) =~= path);
    }
    let order = child_indices(g, u);
    children(
        g,
        &order,
        &mut on_path,
        &mut expanded,
        Ghost(path),
        Ghost(child_order(*g, u as int)),
        Ghost((n - 1) as nat),
    )
}

/// The last component (in key order) whose module is `m`, among the first `k`.
pub open spec fn last_with_module(g: ResolvedGraph, m: (Seq<char>, Seq<char>), k: nat) -> Option<int>
    decreases k,
{
    if k == 0 {
        None
    } else if g.entry(k - 1).id.module@ == m {
        Some(k - 1)
    } else {
        last_with_module(g, m, (k - 1) as nat)
    }
}

/// The component a module resolved to: the last one with that module.
pub open spec fn selected_for(g: ResolvedGraph, m: (Seq<char>, Seq<char>)) -> Option<int> {
    last_with_module(g, m, g.components@.len())
}

proof fn lemma_last_with_module_bounds(g: ResolvedGraph, m: (Seq<char>, Seq<char>), k: nat)
    ensures
        last_with_module(g, m, k) matches Some(u) ==> 0 <= u < k,
    decreases k,
{
    if k > 0 {
        lemma_last_with_module_bounds(g, m, (k - 1) as nat);
    }
}

/// The index of the component that module `m` resolved to.
fn find_selected(g: &ResolvedGraph, m: &crate::model::ModuleId) -> (r: Option<usize>)
    ensures
        match r {
            Some(u) => selected_for(*g, m@) == Some(u as int) && u < g.components@.len(),
            None => selected_for(*g, m@) is None,
        },
{
    let mut k = g.components.len();
    while k > 0
        invariant
            k <= g.components@.len(),
            selected_for(*g, m@) == last_with_module(*g, m@, k as nat),
        decreases k,
    {
        if g.components[k - 1].1.id.module.same(m) {
            return Some(k - 1);
        }
        k -= 1;
    }
    None
}

/// A catalog library that the resolved graph uses.
#[derive(Debug)]
pub struct ResolvedLibrary {
    pub alias: String,
    /// The catalog's coordinate, when the catalog names a version.
    pub requested: Option<ComponentId>,
    /// The component Gradle selected.
    pub selected: ComponentId,
    pub dependencies: Vec<DependencyNode>,
    pub metadata_urls: Vec<String>,
}

/// A resolved library as a value.
pub struct LibraryView {
    pub alias: Seq<char>,
    pub requested: Option<((Seq<char>, Seq<char>), Seq<char>)>,
    pub selected: ((Seq<char>, Seq<char>), Seq<char>),
    pub dependencies: Seq<NodeView>,
    pub metadata_urls: Seq<Seq<char>>,
}

/// The value of a resolved library.
pub open spec fn library_view(r: ResolvedLibrary) -> LibraryView {
    LibraryView {
        alias: r.alias@,
        requested: match r.requested {
            Some(c) => Some(c@),
            None => None,
        },
        selected: r.selected@,
        dependencies: nodes_view(r.dependencies@),
        metadata_urls: r.metadata_urls.deep_view(),
    }
}

/// The values of a sequence of resolved libraries.
pub open spec fn libraries_view(s: Seq<ResolvedLibrary>) -> Seq<LibraryView> {
    Seq::new(s.len(), |i: int| library_view(s[i]))
}

/// What a catalog library maps to: nothing when no component has its module;
/// otherwise its alias, requested coordinate, the selected component, that
/// component's dependency tree and metadata URLs.
pub open spec fn used_library(g: ResolvedGraph, lib: CatalogLibrary) -> Option<LibraryView> {
    match selected_for(g, lib.module@) {
        None => None,
        Some(u) => Some(
            LibraryView {
                alias: lib.alias@,
                requested: match lib.requested_version {
                    Some(v) => Some((lib.module@, v@)),
                    None => None,
                },
                selected: g.entry(u).id@,
                dependencies: dependency_tree(g, u),
                metadata_urls: g.entry(u).metadata_urls.deep_view(),
            },
        ),
    }
}

/// The used libraries, in catalog order.
pub open spec fn used_libraries(g: ResolvedGraph, libs: Seq<CatalogLibrary>) -> Seq<LibraryView>
    decreases libs.len(),
{
    if libs.len() == 0 {
        Seq::empty()
    } else {
        let init = used_libraries(g, libs.drop_last());
        match used_library(g, libs.last()) {
            Some(l) => init.push(l),
            None => init,
        }
    }
}

/// Library order: by alias.
pub open spec fn alias_lt(a: LibraryView, b: LibraryView) -> bool {
    lex_lt(a.alias, b.alias)
}

/// The catalog libraries that `graph` uses, stably sorted by alias, each with
/// Gradle's selected component and its transitive dependency tree (see
/// `used_library` and `expand`).
pub fn map_used_libraries(catalog: &Catalog, graph: &ResolvedGraph) -> (r: Vec<ResolvedLibrary>)
    requires
        graph.wf(),
    ensures
        libraries_view(r@) == mapped_libraries(*graph, catalog.libraries@),
{
    let ghost lt = |a: LibraryView, b: LibraryView| alias_lt(a, b);
    let mut out: Vec<ResolvedLibrary> = Vec::new();
    let mut i: usize = 0;
    while i < catalog.libraries.len()
        invariant
            graph.wf(),
            i <= catalog.libraries@.len(),
            lt == (|a: LibraryView, b: LibraryView| alias_lt(a, b)),
            libraries_view(out@) == sort_by(used_libraries(*graph, catalog.libraries@.take(i as int)), lt),
        decreases catalog.libraries.len() - i,
    {
        let library = &catalog.libraries[i];
        let ghost prefix = catalog.libraries@.take(i as int);
        assert(catalog.libraries@.take(i + 1).drop_last() =~= prefix);
        assert(catalog.libraries@.take(i + 1).last() == *library);
        if let Some(u) = find_selected(graph, &library.module) {
            let selected = &graph.components[u].1;
            let requested = match &library.requested_version {
                Some(version) => Some(
                    ComponentId { module: library.module.duplicate(), version: version.clone() },
                ),
                None => None,
            };
            let dependencies = library_tree(graph, u);
            let resolved = ResolvedLibrary {
                alias: library.alias.clone(),
                requested,
                selected: selected.id.duplicate(),
                dependencies,
                metadata_urls: crate::text::copy_strings(&selected.metadata_urls),
            };
            let ghost lv = library_view(resolved);
            assert(used_library(*graph, *library) == Some(lv));
            let ghost init = used_libraries(*graph, prefix);
            assert(init.push(lv).drop_last() =~= init);
            let mut k: usize = 0;
            while k < out.len() && !crate::text::str_less(resolved.alias.as_str(), out[k].alias.as_str())
                invariant
                    k <= out@.len(),
                    lv == library_view(resolved),
                    forall|j: int| 0 <= j < k ==> !alias_lt(lv, #[trigger] libraries_view(out@)[j]),
                decreases out.len() - k,
            {
                k += 1;
            }
            proof {
                lemma_insert_by_at(libraries_view(out@), lv, lt, k as int);
            }
            let ghost before = out@;
            out.insert(k, resolved);
            assert(libraries_view(out@) =~= libraries_view(before).insert(k as int, lv));
        }
        i += 1;
    }
    assert(catalog.libraries@.take(catalog.libraries@.len() as int) =~= catalog.libraries@);
    out
}

/// Siblings in every dependency list come in coordinate order.
pub proof fn lemma_siblings_sorted(s: Seq<NodeView>)
    ensures
        sorted_by(sort_nodes(s), |a: NodeView, b: NodeView| node_lt(a, b)),
{
    lemma_node_order();
    lemma_sort_by_sorted(s, |a: NodeView, b: NodeView| node_lt(a, b));
}

/// A node is a cycle or a repetition, never both, and then has no children;
/// the same holds all the way down.
pub open spec fn stops_at_repeats(n: NodeView) -> bool
    decreases n,
{
    &&& !(n.cycle && n.repeated)
    &&& (n.cycle || n.repeated) ==> n.children.len() == 0
    &&& forall|i: int| 0 <= i < n.children.len() ==> stops_at_repeats(#[trigger] n.children[i])
}

/// Cycles and repetitions are marked and never expanded again, at every depth
/// of every expansion.
pub proof fn lemma_expansion_stops_at_repeats(
    g: ResolvedGraph,
    order: Seq<int>,
    path: Set<int>,
    expanded: Set<int>,
    fuel: nat,
)
    ensures
        forall|i: int|
            0 <= i < expand(g, order, path, expanded, fuel).0.len() ==> stops_at_repeats(
                #[trigger] expand(g, order, path, expanded, fuel).0[i],
            ),
    decreases fuel, order.len(),
{
    if order.len() > 0 {
        let v = order[0];
        let cycle = path.contains(v);
        let repeated = !cycle && expanded.contains(v);
        let marked = if cycle {
            expanded
        } else {
            expanded.insert(v)
        };
        let below = if cycle || repeated || fuel == 0 {
            (Seq::<NodeView>::empty(), marked)
        } else {
            expand(g, child_order(g, v), path.insert(v), marked, (fuel - 1) as nat)
        };
        if !(cycle || repeated || fuel == 0) {
            lemma_expansion_stops_at_repeats(g, child_order(g, v), path.insert(v), marked, (fuel - 1) as nat);
        }
        let kids = sort_nodes(below.0);
        assert forall|i: int| 0 <= i < kids.len() implies stops_at_repeats(#[trigger] kids[i]) by {
            crate::order::lemma_sort_by_member(below.0, |a: NodeView, b: NodeView| node_lt(a, b), i);
        }
        lemma_expansion_stops_at_repeats(g, order.drop_first(), path, below.1, fuel);
        let all = expand(g, order, path, expanded, fuel).0;
        let rest = expand(g, order.drop_first(), path, below.1, fuel).0;
        assert forall|i: int| 0 <= i < all.len() implies stops_at_repeats(#[trigger] all[i]) by {
            if i > 0 {
                assert(all[i] == rest[i - 1]);
            }
        }
    }
}

/// Every library's tree stops at cycles and repetitions.
pub proof fn lemma_tree_stops_at_repeats(g: ResolvedGraph, u: int)
    ensures
        forall|i: int| 0 <= i < dependency_tree(g, u).len() ==> stops_at_repeats(#[trigger] dependency_tree(g, u)[i]),
{
    let s = expand(g, child_order(g, u), set![u], set![u], (g.components@.len() - 1) as nat).0;
    lemma_expansion_stops_at_repeats(g, child_order(g, u), set![u], set![u], (g.components@.len() - 1) as nat);
    assert forall|i: int| 0 <= i < dependency_tree(g, u).len() implies stops_at_repeats(#[trigger] dependency_tree(g, u)[i]) by {
        crate::order::lemma_sort_by_member(s, |a: NodeView, b: NodeView| node_lt(a, b), i);
    }
}

/// Mapped libraries come in alias order.
pub proof fn lemma_libraries_in_alias_order(g: ResolvedGraph, libs: Seq<CatalogLibrary>)
    ensures
        sorted_by(sort_by(used_libraries(g, libs), |a: LibraryView, b: LibraryView| alias_lt(a, b)), |a: LibraryView, b: LibraryView| alias_lt(a, b)),
{
    let lt = |a: LibraryView, b: LibraryView| alias_lt(a, b);
    assert forall|a: LibraryView| !#[trigger] lt(a, a) by {
        lemma_lex_irreflexive(a.alias);
    }
    assert forall|a: LibraryView, b: LibraryView, c: LibraryView| #[trigger] lt(a, b) && #[trigger] lt(b, c) implies lt(a, c) by {
        crate::text::lemma_lex_transitive(a.alias, b.alias, c.alias);
    }
    lemma_sort_by_sorted(used_libraries(g, libs), lt);
}

/// Only libraries whose module occurs in the graph are mapped, each to the
/// component that module resolved to.
pub proof fn lemma_only_used_libraries(g: ResolvedGraph, libs: Seq<CatalogLibrary>, i: int)
    requires
        0 <= i < used_libraries(g, libs).len(),
    ensures
        exists|j: int|
            0 <= j < libs.len() && (#[trigger] selected_for(g, libs[j].module@)) is Some && used_libraries(g, libs)[i]
                == used_library(g, libs[j])->Some_0 && used_libraries(g, libs)[i].selected == g.entry(
                selected_for(g, libs[j].module@)->Some_0,
            ).id@,
    decreases libs.len(),
{
    if libs.len() > 0 {
        let init = used_libraries(g, libs.drop_last());
        if i < init.len() {
            lemma_only_used_libraries(g, libs.drop_last(), i);
            let j = choose|j: int|
                0 <= j < libs.drop_last().len() && (#[trigger] selected_for(g, libs.drop_last()[j].module@)) is Some
                    && init[i] == used_library(g, libs.drop_last()[j])->Some_0 && init[i].selected == g.entry(
                    selected_for(g, libs.drop_last()[j].module@)->Some_0,
                ).id@;
            assert(libs.drop_last()[j] == libs[j]);
        } else {
            assert(libs[libs.len() - 1] == libs.last());
        }
    }
}


/// Number of nodes for component `c` in the tree of `n`, `n` included, that
/// are expanded: neither a cycle nor a repetition.
pub open spec fn node_expansions(n: NodeView, c: ((Seq<char>, Seq<char>), Seq<char>)) -> nat
    decreases n, 0nat,
{
    (if !n.cycle && !n.repeated && n.component == c {
        1nat
    } else {
        0nat
    }) + forest_expansions(n.children, c, n.children.len())
}

/// Expanded nodes for component `c` in the trees of the first `k` of `s`.
pub open spec fn forest_expansions(s: Seq<NodeView>, c: ((Seq<char>, Seq<char>), Seq<char>), k: nat) -> nat
    decreases s, k,
{
    if k == 0 || k > s.len() {
        0
    } else {
        forest_expansions(s, c, (k - 1) as nat) + node_expansions(s[k - 1], c)
    }
}

/// Expanded nodes for component `c` in the trees of `s`.
pub open spec fn expansions(s: Seq<NodeView>, c: ((Seq<char>, Seq<char>), Seq<char>)) -> nat {
    forest_expansions(s, c, s.len())
}

proof fn lemma_forest_prefix(s: Seq<NodeView>, t: Seq<NodeView>, c: ((Seq<char>, Seq<char>), Seq<char>), k: nat)
    requires
        k <= s.len(),
        k <= t.len(),
        forall|i: int| 0 <= i < k ==> s[i] == t[i],
    ensures
        forest_expansions(s, c, k) == forest_expansions(t, c, k),
    decreases k,
{
    if k > 0 {
        lemma_forest_prefix(s, t, c, (k - 1) as nat);
    }
}

proof fn lemma_expansions_prepend(x: NodeView, s: Seq<NodeView>, c: ((Seq<char>, Seq<char>), Seq<char>), k: nat)
    requires
        k <= s.len(),
    ensures
        forest_expansions(seq![x] + s, c, k + 1) == node_expansions(x, c) + forest_expansions(s, c, k),
    decreases k,
{
    let xs = seq![x] + s;
    assert(xs.len() == s.len() + 1);
    if k > 0 {
        lemma_expansions_prepend(x, s, c, (k - 1) as nat);
        assert(xs[k as int] == s[k - 1]);
        assert(forest_expansions(xs, c, k + 1) == forest_expansions(xs, c, k) + node_expansions(xs[k as int], c));
        assert(forest_expansions(s, c, k) == forest_expansions(s, c, (k - 1) as nat) + node_expansions(s[k - 1], c));
    } else {
        assert(xs[0] == x);
        assert(forest_expansions(xs, c, 0) == 0);
        assert(forest_expansions(xs, c, 1) == forest_expansions(xs, c, 0) + node_expansions(xs[0], c));
    }
}

proof fn lemma_expansions_insert(
    s: Seq<NodeView>,
    x: NodeView,
    lt: spec_fn(NodeView, NodeView) -> bool,
    c: ((Seq<char>, Seq<char>), Seq<char>),
)
    ensures
        expansions(insert_by(s, x, lt), c) == expansions(s, c) + node_expansions(x, c),
    decreases s.len(),
{
    crate::order::lemma_insert_by_len(s, x, lt);
    if s.len() == 0 {
        lemma_expansions_prepend(x, s, c, 0);
    } else if lt(x, s[0]) {
        lemma_expansions_prepend(x, s, c, s.len());
    } else {
        let t = s.drop_first();
        lemma_expansions_insert(t, x, lt, c);
        crate::order::lemma_insert_by_len(t, x, lt);
        lemma_expansions_prepend(s[0], insert_by(t, x, lt), c, insert_by(t, x, lt).len());
        lemma_expansions_prepend(s[0], t, c, t.len());
        assert(seq![s[0]] + t =~= s);
    }
}

/// Sorting siblings moves nodes but keeps every expansion.
proof fn lemma_expansions_sort(s: Seq<NodeView>, lt: spec_fn(NodeView, NodeView) -> bool, c: ((Seq<char>, Seq<char>), Seq<char>))
    ensures
        expansions(sort_by(s, lt), c) == expansions(s, c),
    decreases s.len(),
{
    if s.len() > 0 {
        let init = s.drop_last();
        lemma_expansions_sort(init, lt, c);
        lemma_expansions_insert(sort_by(init, lt), s.last(), lt, c);
        lemma_forest_prefix(s, init, c, init.len());
    }
}

proof fn lemma_child_order_in_range(g: ResolvedGraph, u: int)
    ensures
        forall|k: int| 0 <= k < child_order(g, u).len() ==> 0 <= #[trigger] child_order(g, u)[k] < g.components@.len(),
{
    let all = Seq::new(g.components@.len(), |i: int| i);
    let pred = |v: int| has_child(g, u, v);
    assert forall|k: int| 0 <= k < child_order(g, u).len() implies 0 <= #[trigger] child_order(g, u)[k] < g.components@.len() by {
        let x = child_order(g, u)[k];
        assert(all.filter(pred).contains(x));
        all.lemma_filter_contains_rev(pred, x);
        let j = choose|j: int| 0 <= j < all.len() && all[j] == x;
    }
}

/// Each component is expanded at most once in an expansion, and only when it
/// was not expanded before it; the expanded set only grows.
proof fn lemma_expand_once(
    g: ResolvedGraph,
    order: Seq<int>,
    path: Set<int>,
    expanded: Set<int>,
    fuel: nat,
    c: ((Seq<char>, Seq<char>), Seq<char>),
)
    requires
        forall|i: int| 0 <= i < order.len() ==> 0 <= #[trigger] order[i] < g.components@.len(),
        forall|v: int, w: int|
            0 <= v < g.components@.len() && 0 <= w < g.components@.len() && #[trigger] g.entry(v).id@
                == #[trigger] g.entry(w).id@ ==> v == w,
    ensures
        expanded.subset_of(expand(g, order, path, expanded, fuel).1),
        expansions(expand(g, order, path, expanded, fuel).0, c) <= 1,
        expansions(expand(g, order, path, expanded, fuel).0, c) == 1 ==> exists|v: int|
            0 <= v < g.components@.len() && g.entry(v).id@ == c && !expanded.contains(v)
                && #[trigger] expand(g, order, path, expanded, fuel).1.contains(v),
    decreases fuel, order.len(),
{
    let n = g.components@.len();
    if order.len() > 0 {
        let v = order[0];
        let cycle = path.contains(v);
        let repeated = !cycle && expanded.contains(v);
        let marked = if cycle {
            expanded
        } else {
            expanded.insert(v)
        };
        let below = if cycle || repeated || fuel == 0 {
            (Seq::<NodeView>::empty(), marked)
        } else {
            expand(g, child_order(g, v), path.insert(v), marked, (fuel - 1) as nat)
        };
        if !(cycle || repeated || fuel == 0) {
            lemma_child_order_in_range(g, v);
            lemma_expand_once(g, child_order(g, v), path.insert(v), marked, (fuel - 1) as nat, c);
        }
        let kids = sort_nodes(below.0);
        lemma_expansions_sort(below.0, |a: NodeView, b: NodeView| node_lt(a, b), c);
        let node = NodeView { component: g.entry(v).id@, children: kids, cycle, repeated };
        let rest_order = order.drop_first();
        assert forall|i: int| 0 <= i < rest_order.len() implies 0 <= #[trigger] rest_order[i] < n by {
            assert(rest_order[i] == order[i + 1]);
        }
        lemma_expand_once(g, rest_order, path, below.1, fuel, c);
        let rest = expand(g, rest_order, path, below.1, fuel);
        lemma_expansions_prepend(node, rest.0, c, rest.0.len());
        let out = expand(g, order, path, expanded, fuel);
        assert(out.0 == seq![node] + rest.0);
        assert(out.1 == rest.1);
        let own: nat = if !cycle && !repeated && g.entry(v).id@ == c {
            1
        } else {
            0
        };
        assert(expansions(out.0, c) == own + expansions(below.0, c) + expansions(rest.0, c));
        if expansions(below.0, c) == 1 {
            let w = choose|w: int|
                0 <= w < n && g.entry(w).id@ == c && !marked.contains(w) && #[trigger] below.1.contains(w);
            if own == 1 {
                assert(w == v);
            }
            if expansions(rest.0, c) == 1 {
                let x = choose|x: int|
                    0 <= x < n && g.entry(x).id@ == c && !below.1.contains(x) && #[trigger] rest.1.contains(x);
                assert(x == w);
            }
            assert(rest.1.contains(w));
        }
        if own == 1 {
            assert(rest.1.contains(v));
            if expansions(rest.0, c) == 1 {
                let x = choose|x: int|
                    0 <= x < n && g.entry(x).id@ == c && !below.1.contains(x) && #[trigger] rest.1.contains(x);
                assert(x == v);
            }
        }
        if expansions(rest.0, c) == 1 {
            let x = choose|x: int|
                0 <= x < n && g.entry(x).id@ == c && !below.1.contains(x) && #[trigger] rest.1.contains(x);
            assert(!expanded.contains(x));
        }
    }
}

/// A shared subgraph is expanded only once per library: in the tree below a
/// component, each component is expanded (shown neither as a cycle nor as a
/// repetition) at most once, and the component at the root never.  This holds
/// wherever distinct components have distinct coordinates.
pub proof fn lemma_expanded_once_per_tree(g: ResolvedGraph, u: int, c: ((Seq<char>, Seq<char>), Seq<char>))
    requires
        0 <= u < g.components@.len(),
        forall|v: int, w: int|
            0 <= v < g.components@.len() && 0 <= w < g.components@.len() && #[trigger] g.entry(v).id@
                == #[trigger] g.entry(w).id@ ==> v == w,
    ensures
        expansions(dependency_tree(g, u), c) <= 1,
        expansions(dependency_tree(g, u), g.entry(u).id@) == 0,
{
    let fuel = (g.components@.len() - 1) as nat;
    lemma_child_order_in_range(g, u);
    let out = expand(g, child_order(g, u), set![u], set![u], fuel).0;
    lemma_expand_once(g, child_order(g, u), set![u], set![u], fuel, c);
    lemma_expand_once(g, child_order(g, u), set![u], set![u], fuel, g.entry(u).id@);
    lemma_expansions_sort(out, |a: NodeView, b: NodeView| node_lt(a, b), c);
    lemma_expansions_sort(out, |a: NodeView, b: NodeView| node_lt(a, b), g.entry(u).id@);
}


proof fn lemma_used_library_listed(g: ResolvedGraph, libs: Seq<CatalogLibrary>, j: int)
    requires
        0 <= j < libs.len(),
        selected_for(g, libs[j].module@) is Some,
    ensures
        used_libraries(g, libs).contains(used_library(g, libs[j])->Some_0),
    decreases libs.len(),
{
    let init = used_libraries(g, libs.drop_last());
    if j == libs.len() - 1 {
        assert(libs.last() == libs[j]);
        let r = used_libraries(g, libs);
        assert(r[r.len() - 1] == used_library(g, libs[j])->Some_0);
    } else {
        assert(libs.drop_last()[j] == libs[j]);
        lemma_used_library_listed(g, libs.drop_last(), j);
        let k = choose|k: int| 0 <= k < init.len() && init[k] == used_library(g, libs[j])->Some_0;
        let r = used_libraries(g, libs);
        assert(r[k] == init[k]);
    }
}

/// Every catalog library whose module the graph resolved is mapped, with the
/// selected component, its tree and metadata URLs, and the catalog's alias
/// and requested coordinate (see `used_library`).
pub proof fn lemma_every_used_library_mapped(g: ResolvedGraph, libs: Seq<CatalogLibrary>, j: int)
    requires
        0 <= j < libs.len(),
        selected_for(g, libs[j].module@) is Some,
    ensures
        sort_by(used_libraries(g, libs), |a: LibraryView, b: LibraryView| alias_lt(a, b)).contains(
            used_library(g, libs[j])->Some_0,
        ),
{
    lemma_used_library_listed(g, libs, j);
    crate::order::lemma_sort_by_keeps(used_libraries(g, libs), |a: LibraryView, b: LibraryView| alias_lt(a, b));
}


/// What `map_used_libraries` returns: the used libraries, stably sorted by
/// alias.
pub open spec fn mapped_libraries(g: ResolvedGraph, libs: Seq<CatalogLibrary>) -> Seq<LibraryView> {
    sort_by(used_libraries(g, libs), |a: LibraryView, b: LibraryView| alias_lt(a, b))
}

/// The mapped libraries are exactly the catalog libraries whose module some
/// component has, stably sorted by alias; each keeps its alias, gives the
/// catalog's requested coordinate when it names a version, and carries the
/// component selected for its module: its coordinate, dependency tree and
/// metadata URLs.
pub proof fn lemma_mapped_libraries_exactly(g: ResolvedGraph, libs: Seq<CatalogLibrary>)
    ensures
        sorted_by(mapped_libraries(g, libs), |a: LibraryView, b: LibraryView| alias_lt(a, b)),
        forall|x: LibraryView|
            #[trigger] mapped_libraries(g, libs).contains(x) <==> exists|j: int|
                0 <= j < libs.len() && (#[trigger] selected_for(g, libs[j].module@)) is Some && x == (LibraryView {
                    alias: libs[j].alias@,
                    requested: match libs[j].requested_version {
                        Some(v) => Some((libs[j].module@, v@)),
                        None => None,
                    },
                    selected: g.entry(selected_for(g, libs[j].module@)->Some_0).id@,
                    dependencies: dependency_tree(g, selected_for(g, libs[j].module@)->Some_0),
                    metadata_urls: g.entry(selected_for(g, libs[j].module@)->Some_0).metadata_urls.deep_view(),
                }),
{
    let lt = |a: LibraryView, b: LibraryView| alias_lt(a, b);
    let used = used_libraries(g, libs);
    let sorted = sort_by(used, lt);
    lemma_libraries_in_alias_order(g, libs);
    assert forall|x: LibraryView| #[trigger] sorted.contains(x) <==> exists|j: int|
        0 <= j < libs.len() && (#[trigger] selected_for(g, libs[j].module@)) is Some && x == used_library(g, libs[j])->Some_0 by {
        if sorted.contains(x) {
            let i = choose|i: int| 0 <= i < sorted.len() && sorted[i] == x;
            crate::order::lemma_sort_by_member(used, lt, i);
            let k = choose|k: int| 0 <= k < used.len() && sorted[i] == used[k];
            lemma_only_used_libraries(g, libs, k);
        }
        if exists|j: int| 0 <= j < libs.len() && (#[trigger] selected_for(g, libs[j].module@)) is Some && x == used_library(g, libs[j])->Some_0 {
            let j = choose|j: int| 0 <= j < libs.len() && (#[trigger] selected_for(g, libs[j].module@)) is Some && x == used_library(g, libs[j])->Some_0;
            lemma_every_used_library_mapped(g, libs, j);
        }
    }
}


proof fn lemma_expand_len(g: ResolvedGraph, order: Seq<int>, path: Set<int>, expanded: Set<int>, fuel: nat)
    ensures
        expand(g, order, path, expanded, fuel).0.len() == order.len(),
    decreases order.len(),
{
    if order.len() > 0 {
        let v = order[0];
        let cycle = path.contains(v);
        let repeated = !cycle && expanded.contains(v);
        let marked = if cycle {
            expanded
        } else {
            expanded.insert(v)
        };
        let below = if cycle || repeated || fuel == 0 {
            (Seq::<NodeView>::empty(), marked)
        } else {
            expand(g, child_order(g, v), path.insert(v), marked, (fuel - 1) as nat)
        };
        lemma_expand_len(g, order.drop_first(), path, below.1, fuel);
    }
}

/// How a traversal marks what it visits.  The `i`-th component visited at
/// one level gives the `i`-th node, with its coordinate.  The node is a cycle
/// exactly when the component is on the path (the tree's root or one of the
/// node's ancestors), and a repetition exactly when, not being a cycle, the
/// component was expanded earlier in this library's traversal.  Otherwise its
/// children are the expansion, below it, of the components its distinct
/// child keys name (`child_order`), sorted by coordinate; a cycle or a
/// repetition has none.
pub proof fn lemma_expansion_marks(
    g: ResolvedGraph,
    order: Seq<int>,
    path: Set<int>,
    expanded: Set<int>,
    fuel: nat,
    i: int,
)
    requires
        0 <= i < order.len(),
    ensures
        expand(g, order, path, expanded, fuel).0.len() == order.len(),
        expand(g, order, path, expanded, fuel).0[i].component == g.entry(order[i]).id@,
        expand(g, order, path, expanded, fuel).0[i].cycle == path.contains(order[i]),
        expand(g, order, path, expanded, fuel).0[i].repeated == (!path.contains(order[i]) && expand(
            g,
            order.take(i),
            path,
            expanded,
            fuel,
        ).1.contains(order[i])),
        expand(g, order, path, expanded, fuel).0[i].cycle || expand(g, order, path, expanded, fuel).0[i].repeated
            ==> expand(g, order, path, expanded, fuel).0[i].children.len() == 0,
        !expand(g, order, path, expanded, fuel).0[i].cycle && !expand(g, order, path, expanded, fuel).0[i].repeated
            && fuel > 0 ==> expand(g, order, path, expanded, fuel).0[i].children == sort_nodes(
            expand(
                g,
                child_order(g, order[i]),
                path.insert(order[i]),
                expand(g, order.take(i), path, expanded, fuel).1.insert(order[i]),
                (fuel - 1) as nat,
            ).0,
        ),
    decreases i,
{
    lemma_expand_len(g, order, path, expanded, fuel);
    let v = order[0];
    let cycle = path.contains(v);
    let repeated = !cycle && expanded.contains(v);
    let marked = if cycle {
        expanded
    } else {
        expanded.insert(v)
    };
    let below = if cycle || repeated || fuel == 0 {
        (Seq::<NodeView>::empty(), marked)
    } else {
        expand(g, child_order(g, v), path.insert(v), marked, (fuel - 1) as nat)
    };
    let rest_order = order.drop_first();
    let rest = expand(g, rest_order, path, below.1, fuel);
    let out = expand(g, order, path, expanded, fuel);
    assert(out.0 == seq![out.0[0]] + rest.0);
    if i == 0 {
        assert(order.take(0).len() == 0);
        assert(expand(g, order.take(0), path, expanded, fuel).1 == expanded);
        lemma_sort_nodes_empty();
    } else {
        lemma_expansion_marks(g, rest_order, path, below.1, fuel, i - 1);
        let head = order.take(i);
        assert(head[0] == v);
        assert(head.drop_first() =~= rest_order.take(i - 1));
        assert(expand(g, head, path, expanded, fuel).1 == expand(g, rest_order.take(i - 1), path, below.1, fuel).1);
        assert(out.0[i] == rest.0[i - 1]);
        assert(order[i] == rest_order[i - 1]);
    }
}

proof fn lemma_sort_nodes_empty()
    ensures
        sort_nodes(Seq::<NodeView>::empty()) == Seq::<NodeView>::empty(),
{
}

} // verus!
