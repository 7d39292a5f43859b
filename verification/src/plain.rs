//! The plain-text report: stable, with no terminal control sequences.

use vstd::prelude::*;
use crate::graph::{NodeView, node_view, nodes_view};
use crate::model::{ChangeKind, ComponentId, DependencyNode, Inspection, LibraryChange, LibraryInspection, ReleaseLink, ReleaseMatch, change_label, component_text};
use crate::text::{concat, ends_with, occurs_at, starts_with};
use crate::changes::{change_view, opt_component_view};
use crate::releases::link_view;
use crate::export::{decimal, push_decimal};

verus! {

/// The branch drawn before a node: the last sibling closes the branch.
pub open spec fn branch(last: bool) -> Seq<char> {
    if last {
        "└──"@
    } else {
        "├──"@
    }
}

/// The prefix under which a node's children are drawn.
pub open spec fn child_prefix(prefix: Seq<char>, last: bool) -> Seq<char> {
    prefix + (if last {
        " "@
    } else {
        "│"@
    }) + "   "@
}

/// The lines of a node and, below it, of its children.
pub open spec fn node_text(n: NodeView, prefix: Seq<char>, last: bool) -> Seq<char>
    decreases n, 0nat,
{
    prefix + branch(last) + " "@ + component_text(n.component) + (if n.cycle {
        " (cycle)"@
    } else {
        ""@
    }) + "\n"@ + children_text(n.children, child_prefix(prefix, last), n.children.len())
}

/// The lines of the first `k` of `kids`, each drawn as the last one when it
/// is the last of all `kids`.
pub open spec fn children_text(kids: Seq<NodeView>, prefix: Seq<char>, k: nat) -> Seq<char>
    decreases kids, k,
{
    if k == 0 || k > kids.len() {
        Seq::empty()
    } else {
        children_text(kids, prefix, (k - 1) as nat) + node_text(kids[k - 1], prefix, k == kids.len())
    }
}

/// Appends `text` to `output`.
fn put(output: &mut String, text: &str)
    ensures
        final(output)@ == old(output)@ + text@,
{
    output.append(text);
}

/// Draws a node and its children below `prefix`.
fn render_node(output: &mut String, node: &DependencyNode, prefix: &str, last: bool)
    ensures
        final(output)@ == old(output)@ + node_text(node_view(*node), prefix@, last),
    decreases node,
{
    proof {
        reveal_strlit("└──");
        reveal_strlit("├──");
        reveal_strlit(" ");
        reveal_strlit("│");
        reveal_strlit("   ");
        reveal_strlit(" (cycle)");
        reveal_strlit("");
        reveal_strlit("\n");
    }
    let ghost nv = node_view(*node);
    assert(nv.children =~= nodes_view(node.children@));
    put(output, prefix);
    put(output, if last { "└──" } else { "├──" });
    put(output, " ");
    put(output, node.component.to_string().as_str());
    put(output, if node.cycle { " (cycle)" } else { "" });
    put(output, "\n");
    let first = concat(prefix, if last { " " } else { "│" });
    let next = concat(first.as_str(), "   ");
    let ghost start = output@;
    let mut index: usize = 0;
    while index < node.children.len()
        invariant
            index <= node.children@.len(),
            nv == node_view(*node),
            nv.children == nodes_view(node.children@),
            next@ == child_prefix(prefix@, last),
            output@ == start + children_text(nv.children, next@, index as nat),
        decreases node.children.len() - index,
    {
        assert(decreases_to!(*node => node.children));
        assert(decreases_to!(node.children => node.children@));
        assert(decreases_to!(node.children@ => node.children@[index as int]));
        render_node(output, &node.children[index], next.as_str(), index + 1 == node.children.len());
        index += 1;
    }
    assert(output@ =~= old(output)@ + node_text(nv, prefix@, last));
}

/// A coordinate's text, or `absent` when there is none.
pub open spec fn coordinate_or(c: Option<ComponentId>, absent: Seq<char>) -> Seq<char> {
    match c {
        Some(x) => component_text(x@),
        None => absent,
    }
}

/// A text, or `absent` when there is none.
pub open spec fn text_or(t: Option<String>, absent: Seq<char>) -> Seq<char> {
    match t {
        Some(x) => x@,
        None => absent,
    }
}

/// How a release match is labelled.
pub open spec fn match_label(m: ReleaseMatch) -> Seq<char> {
    match m {
        ReleaseMatch::Exact => "exact"@,
        ReleaseMatch::Generic => "generic"@,
        ReleaseMatch::Unmatched => "none"@,
    }
}

/// The lines describing a library's catalog change.
pub open spec fn change_text(c: Option<LibraryChange>) -> Seq<char> {
    match c {
        Some(ch) => "  change:    "@ + change_label(ch.kind) + "\n"@ + "  baseline:  "@ + coordinate_or(
            ch.baseline,
            "not present"@,
        ) + "\n"@ + "  current:   "@ + coordinate_or(ch.current, "not present"@) + "\n"@,
        None => Seq::empty(),
    }
}

/// The coordinate lines of a library.
pub open spec fn coordinates_text(l: LibraryInspection) -> Seq<char> {
    "  requested: "@ + coordinate_or(l.requested, "managed by Gradle"@) + "\n"@ + "  selected:  "@
        + component_text(l.selected@) + "\n"@
}

/// The release-notes lines of a library.
pub open spec fn release_text(l: LibraryInspection) -> Seq<char> {
    "  release notes:\n"@ + "    version: "@ + l.release.version@ + "\n"@ + "    url: "@ + text_or(
        l.release.url,
        "not found"@,
    ) + "\n"@ + "    match: "@ + match_label(l.release.match_kind) + "\n"@ + (match l.release.diagnostic {
        Some(d) => "    note: "@ + d@ + "\n"@,
        None => Seq::empty(),
    })
}

/// The section of one library.
pub open spec fn library_text(l: LibraryInspection) -> Seq<char> {
    "\n"@ + l.alias@ + "\n"@ + change_text(l.change) + coordinates_text(l) + release_text(l)
        + "  dependencies:\n"@ + children_text(
        nodes_view(l.dependencies@),
        "    "@,
        l.dependencies@.len(),
    )
}

/// The sections of the first `k` libraries.
pub open spec fn libraries_text(libs: Seq<LibraryInspection>, k: nat) -> Seq<char>
    decreases k,
{
    if k == 0 || k > libs.len() {
        Seq::empty()
    } else {
        libraries_text(libs, (k - 1) as nat) + library_text(libs[k - 1])
    }
}

/// The lines of the first `k` changes that the configuration does not use.
pub open spec fn removed_text(changes: Seq<LibraryChange>, k: nat) -> Seq<char>
    decreases k,
{
    if k == 0 || k > changes.len() {
        Seq::empty()
    } else {
        removed_text(changes, (k - 1) as nat) + "  "@ + changes[k - 1].alias@ + ": "@
            + coordinate_or(changes[k - 1].baseline, "unknown"@) + "\n"@
    }
}

/// The whole report.
pub open spec fn report(i: Inspection) -> Seq<char> {
    "configuration: "@ + i.configuration@ + "\n"@ + libraries_text(i.libraries@, i.libraries@.len())
        + (if i.removed@.len() > 0 {
        "\nchanges not present in configuration:\n"@ + removed_text(i.removed@, i.removed@.len())
    } else {
        Seq::empty()
    })
}

/// A coordinate's text, or `absent` when there is none.
fn put_coordinate_or(output: &mut String, c: &Option<ComponentId>, absent: &str)
    ensures
        final(output)@ == old(output)@ + coordinate_or(*c, absent@),
{
    match c {
        Some(x) => put(output, x.to_string().as_str()),
        None => put(output, absent),
    }
}

/// Appends the change lines of a library.
fn render_change(output: &mut String, change: &Option<LibraryChange>)
    ensures
        final(output)@ == old(output)@ + change_text(*change),
{
    proof {
        reveal_strlit("\n");
        reveal_strlit("  change:    ");
        reveal_strlit("  baseline:  ");
        reveal_strlit("  current:   ");
        reveal_strlit("not present");
    }
    if let Some(change) = change {
        put(output, "  change:    ");
        put(output, change.kind.label());
        put(output, "\n");
        put(output, "  baseline:  ");
        put_coordinate_or(output, &change.baseline, "not present");
        put(output, "\n");
        put(output, "  current:   ");
        put_coordinate_or(output, &change.current, "not present");
        put(output, "\n");
    }
    assert(output@ =~= old(output)@ + change_text(*change));
}

/// Appends the coordinate lines of a library.
fn render_coordinates(output: &mut String, library: &LibraryInspection)
    ensures
        final(output)@ == old(output)@ + coordinates_text(*library),
{
    proof {
        reveal_strlit("\n");
        reveal_strlit("  requested: ");
        reveal_strlit("managed by Gradle");
        reveal_strlit("  selected:  ");
    }
    put(output, "  requested: ");
    put_coordinate_or(output, &library.requested, "managed by Gradle");
    put(output, "\n");
    put(output, "  selected:  ");
    put(output, library.selected.to_string().as_str());
    put(output, "\n");
    assert(output@ =~= old(output)@ + coordinates_text(*library));
}

/// Appends the release-notes lines of a library.
fn render_release(output: &mut String, library: &LibraryInspection)
    ensures
        final(output)@ == old(output)@ + release_text(*library),
{
    proof {
        reveal_strlit("\n");
        reveal_strlit("  release notes:\n");
        reveal_strlit("    version: ");
        reveal_strlit("    url: ");
        reveal_strlit("not found");
        reveal_strlit("    match: ");
        reveal_strlit("exact");
        reveal_strlit("generic");
        reveal_strlit("none");
        reveal_strlit("    note: ");
    }
    put(output, "  release notes:\n");
    put(output, "    version: ");
    put(output, library.release.version.as_str());
    put(output, "\n");
    put(output, "    url: ");
    match &library.release.url {
        Some(url) => put(output, url.as_str()),
        None => put(output, "not found"),
    }
    put(output, "\n");
    put(output, "    match: ");
    let label = match library.release.match_kind {
        ReleaseMatch::Exact => "exact",
        ReleaseMatch::Generic => "generic",
        ReleaseMatch::Unmatched => "none",
    };
    put(output, label);
    put(output, "\n");
    let ghost mid = output@;
    if let Some(diagnostic) = &library.release.diagnostic {
        put(output, "    note: ");
        put(output, diagnostic.as_str());
        put(output, "\n");
    }
    assert(output@ =~= old(output)@ + release_text(*library));
}

/// Appends the section of one library.
fn render_library(output: &mut String, library: &LibraryInspection)
    ensures
        final(output)@ == old(output)@ + library_text(*library),
{
    proof {
        reveal_strlit("\n");
        reveal_strlit("  dependencies:\n");
        reveal_strlit("    ");
    }
    put(output, "\n");
    put(output, library.alias.as_str());
    put(output, "\n");
    render_change(output, &library.change);
    render_coordinates(output, library);
    render_release(output, library);
    put(output, "  dependencies:\n");
    let ghost before_nodes = output@;
    let ghost kids = nodes_view(library.dependencies@);
    let mut index: usize = 0;
    while index < library.dependencies.len()
        invariant
            index <= library.dependencies@.len(),
            kids == nodes_view(library.dependencies@),
            output@ == before_nodes + children_text(kids, "    "@, index as nat),
        decreases library.dependencies.len() - index,
    {
        render_node(output, &library.dependencies[index], "    ", index + 1 == library.dependencies.len());
        index += 1;
    }
    assert(output@ =~= old(output)@ + library_text(*library));
}

/// The plain report of an inspection: the configuration, then for each
/// library its alias, catalog change, requested and selected coordinates,
/// release notes and dependency tree, then the catalog changes that the
/// configuration does not use.
pub fn render(inspection: &Inspection) -> (r: String)
    ensures
        r@ == report(*inspection),
{
    proof {
        reveal_strlit("configuration: ");
        reveal_strlit("\n");
        reveal_strlit("\nchanges not present in configuration:\n");
        reveal_strlit("  ");
        reveal_strlit(": ");
        reveal_strlit("unknown");
    }
    let mut output = concat("configuration: ", inspection.configuration.as_str());
    put(&mut output, "\n");
    let ghost head = output@;
    let mut i: usize = 0;
    while i < inspection.libraries.len()
        invariant
            i <= inspection.libraries@.len(),
            output@ == head + libraries_text(inspection.libraries@, i as nat),
        decreases inspection.libraries.len() - i,
    {
        render_library(&mut output, &inspection.libraries[i]);
        i += 1;
    }
    if inspection.removed.len() > 0 {
        put(&mut output, "\nchanges not present in configuration:\n");
        let ghost top = output@;
        let mut j: usize = 0;
        while j < inspection.removed.len()
            invariant
                j <= inspection.removed@.len(),
                output@ == top + removed_text(inspection.removed@, j as nat),
            decreases inspection.removed.len() - j,
        {
            let change = &inspection.removed[j];
            put(&mut output, "  ");
            put(&mut output, change.alias.as_str());
            put(&mut output, ": ");
            put_coordinate_or(&mut output, &change.baseline, "unknown");
            put(&mut output, "\n");
            j += 1;
        }
    }
    assert(output@ =~= report(*inspection));
    output
}

// ------------------------------------------------------------ copies

/// A copy of a dependency tree.
pub fn copy_node(node: &DependencyNode) -> (r: DependencyNode)
    ensures
        node_view(r) == node_view(*node),
    decreases node,
{
    let mut children: Vec<DependencyNode> = Vec::new();
    let mut i: usize = 0;
    while i < node.children.len()
        invariant
            i <= node.children@.len(),
            children@.len() == i,
            forall|j: int| 0 <= j < i ==> node_view(#[trigger] children@[j]) == node_view(node.children@[j]),
        decreases node.children.len() - i,
    {
        assert(decreases_to!(*node => node.children));
        assert(decreases_to!(node.children => node.children@));
        assert(decreases_to!(node.children@ => node.children@[i as int]));
        children.push(copy_node(&node.children[i]));
        i += 1;
    }
    let r = DependencyNode {
        component: node.component.duplicate(),
        children,
        cycle: node.cycle,
        repeated: node.repeated,
    };
    assert(node_view(r).children =~= node_view(*node).children);
    r
}

fn copy_component(c: &Option<ComponentId>) -> (r: Option<ComponentId>)
    ensures
        opt_component_view(r) == opt_component_view(*c),
{
    match c {
        Some(x) => Some(x.duplicate()),
        None => None,
    }
}

fn copy_text(o: &Option<String>) -> (r: Option<String>)
    ensures
        r == *o,
{
    match o {
        Some(s) => Some(s.clone()),
        None => None,
    }
}

/// A copy of a catalog change.
pub fn copy_change(c: &LibraryChange) -> (r: LibraryChange)
    ensures
        change_view(r) == change_view(*c),
{
    LibraryChange {
        alias: c.alias.clone(),
        kind: c.kind,
        baseline: copy_component(&c.baseline),
        current: copy_component(&c.current),
    }
}

pub open spec fn opt_change_view(c: Option<LibraryChange>) -> Option<crate::changes::ChangeView> {
    match c {
        Some(x) => Some(change_view(x)),
        None => None,
    }
}

/// Two library sections hold the same values.
pub open spec fn same_library(a: LibraryInspection, b: LibraryInspection) -> bool {
    &&& a.alias@ == b.alias@
    &&& opt_component_view(a.requested) == opt_component_view(b.requested)
    &&& a.selected@ == b.selected@
    &&& nodes_view(a.dependencies@) == nodes_view(b.dependencies@)
    &&& link_view(a.release) == link_view(b.release)
    &&& opt_change_view(a.change) == opt_change_view(b.change)
}

/// A copy of a library section.
pub fn copy_library(l: &LibraryInspection) -> (r: LibraryInspection)
    ensures
        same_library(r, *l),
{
    let mut dependencies: Vec<DependencyNode> = Vec::new();
    let mut i: usize = 0;
    while i < l.dependencies.len()
        invariant
            i <= l.dependencies@.len(),
            dependencies@.len() == i,
            forall|j: int| 0 <= j < i ==> node_view(#[trigger] dependencies@[j]) == node_view(l.dependencies@[j]),
        decreases l.dependencies.len() - i,
    {
        dependencies.push(copy_node(&l.dependencies[i]));
        i += 1;
    }
    let r = LibraryInspection {
        alias: l.alias.clone(),
        requested: copy_component(&l.requested),
        selected: l.selected.duplicate(),
        dependencies,
        release: ReleaseLink {
            version: l.release.version.clone(),
            url: copy_text(&l.release.url),
            match_kind: l.release.match_kind,
            diagnostic: copy_text(&l.release.diagnostic),
        },
        change: match &l.change {
            Some(c) => Some(copy_change(c)),
            None => None,
        },
    };
    assert(nodes_view(r.dependencies@) =~= nodes_view(l.dependencies@));
    r
}

// ------------------------------------------------------------ filters

/// The indices, among the first `k` libraries, of those with a release URL.
pub open spec fn documented(libs: Seq<LibraryInspection>, k: nat) -> Seq<int>
    decreases k,
{
    if k == 0 || k > libs.len() {
        Seq::empty()
    } else {
        let init = documented(libs, (k - 1) as nat);
        if libs[k - 1].release.url is Some {
            init.push(k - 1)
        } else {
            init
        }
    }
}

/// The inspection restricted to the libraries that have a release URL, in
/// order; the configuration and the changes outside it are kept.
pub fn with_release_notes(inspection: &Inspection) -> (r: Inspection)
    ensures
        r.configuration@ == inspection.configuration@,
        r.removed@.len() == inspection.removed@.len(),
        forall|j: int| 0 <= j < r.removed@.len() ==> change_view(#[trigger] r.removed@[j]) == change_view(inspection.removed@[j]),
        r.libraries@.len() == documented(inspection.libraries@, inspection.libraries@.len()).len(),
        forall|j: int|
            0 <= j < r.libraries@.len() ==> same_library(
                #[trigger] r.libraries@[j],
                inspection.libraries@[documented(inspection.libraries@, inspection.libraries@.len())[j]],
            ),
{
    let mut libraries: Vec<LibraryInspection> = Vec::new();
    let mut i: usize = 0;
    while i < inspection.libraries.len()
        invariant
            i <= inspection.libraries@.len(),
            libraries@.len() == documented(inspection.libraries@, i as nat).len(),
            forall|j: int|
                0 <= j < libraries@.len() ==> same_library(
                    #[trigger] libraries@[j],
                    inspection.libraries@[documented(inspection.libraries@, i as nat)[j]],
                ),
        decreases inspection.libraries.len() - i,
    {
        if inspection.libraries[i].release.url.is_some() {
            libraries.push(copy_library(&inspection.libraries[i]));
        }
        i += 1;
    }
    let mut removed: Vec<LibraryChange> = Vec::new();
    let mut k: usize = 0;
    while k < inspection.removed.len()
        invariant
            k <= inspection.removed@.len(),
            removed@.len() == k,
            forall|j: int| 0 <= j < k ==> change_view(#[trigger] removed@[j]) == change_view(inspection.removed@[j]),
        decreases inspection.removed.len() - k,
    {
        removed.push(copy_change(&inspection.removed[k]));
        k += 1;
    }
    Inspection { configuration: inspection.configuration.clone(), libraries, removed }
}

// ------------------------------------------------------------ summary

/// How many of the first `k` changes are of `kind`.
pub open spec fn count_kind(changes: Seq<LibraryChange>, kind: ChangeKind, k: nat) -> nat
    decreases k,
{
    if k == 0 || k > changes.len() {
        0
    } else {
        count_kind(changes, kind, (k - 1) as nat) + if changes[k - 1].kind == kind {
            1nat
        } else {
            0nat
        }
    }
}

/// The changes of the first `k` libraries that have one.
pub open spec fn library_changes(libs: Seq<LibraryInspection>, k: nat) -> Seq<LibraryChange>
    decreases k,
{
    if k == 0 || k > libs.len() {
        Seq::empty()
    } else {
        let init = library_changes(libs, (k - 1) as nat);
        match libs[k - 1].change {
            Some(c) => init.push(c),
            None => init,
        }
    }
}

/// Every change an inspection reports: those of its libraries, then those
/// outside the configuration.
pub open spec fn all_changes(i: Inspection) -> Seq<LibraryChange> {
    library_changes(i.libraries@, i.libraries@.len()) + i.removed@
}

/// The lines counting each kind of change.
pub open spec fn counts_text(changes: Seq<LibraryChange>) -> Seq<char> {
    "added: "@ + decimal(count_kind(changes, ChangeKind::Added, changes.len())) + "\n"@ + "removed: "@
        + decimal(count_kind(changes, ChangeKind::Removed, changes.len())) + "\n"@ + "updated: "@
        + decimal(count_kind(changes, ChangeKind::Updated, changes.len())) + "\n"@ + "module changed: "@
        + decimal(count_kind(changes, ChangeKind::ModuleChanged, changes.len())) + "\n"@
}

/// The row of one change.
pub open spec fn change_row(c: LibraryChange) -> Seq<char> {
    "\n"@ + c.alias@ + "\n"@ + change_text(Some(c))
}

/// The summary row of a changed library: its change, the selected coordinate
/// and its release URL; unchanged libraries have none.
pub open spec fn library_row(l: LibraryInspection) -> Seq<char> {
    match l.change {
        Some(c) => change_row(c) + "  selected:  "@ + component_text(l.selected@) + "\n"@ + "  release:   "@
            + text_or(l.release.url, "not found"@) + "\n"@,
        None => Seq::empty(),
    }
}

/// The rows of the first `k` libraries.
pub open spec fn library_rows(libs: Seq<LibraryInspection>, k: nat) -> Seq<char>
    decreases k,
{
    if k == 0 || k > libs.len() {
        Seq::empty()
    } else {
        library_rows(libs, (k - 1) as nat) + library_row(libs[k - 1])
    }
}

/// The rows of the first `k` changes outside the configuration.
pub open spec fn removed_rows(changes: Seq<LibraryChange>, k: nat) -> Seq<char>
    decreases k,
{
    if k == 0 || k > changes.len() {
        Seq::empty()
    } else {
        removed_rows(changes, (k - 1) as nat) + change_row(changes[k - 1])
    }
}

/// The summary report.
pub open spec fn summary(i: Inspection) -> Seq<char> {
    "configuration: "@ + i.configuration@ + "\n"@ + counts_text(all_changes(i)) + library_rows(
        i.libraries@,
        i.libraries@.len(),
    ) + removed_rows(i.removed@, i.removed@.len())
}

/// Counts each kind of change among the first `k` changes of `changes`.
fn count_changes(changes: &Vec<&LibraryChange>, kind: ChangeKind) -> (r: u64)
    ensures
        r as nat == count_kind(changes@.map_values(|c: &LibraryChange| *c), kind, changes@.len()),
{
    let ghost cs = changes@.map_values(|c: &LibraryChange| *c);
    let mut n: u64 = 0;
    let mut i: usize = 0;
    while i < changes.len()
        invariant
            i <= changes@.len(),
            cs == changes@.map_values(|c: &LibraryChange| *c),
            n as nat == count_kind(cs, kind, i as nat),
            n <= i,
        decreases changes.len() - i,
    {
        if changes[i].kind == kind {
            n = n + 1;
        }
        i += 1;
    }
    n
}

/// A summary of an inspection: counts of each kind of catalog change, then
/// one row per changed library (its change, selected coordinate and release
/// URL, without dependency trees), then the changes outside the
/// configuration.
#[verifier::spinoff_prover]
#[verifier::rlimit(40)]
pub fn render_summary(inspection: &Inspection) -> (r: String)
    ensures
        r@ == summary(*inspection),
{
    proof {
        reveal_strlit("configuration: ");
        reveal_strlit("\n");
        reveal_strlit("added: ");
        reveal_strlit("removed: ");
        reveal_strlit("updated: ");
        reveal_strlit("module changed: ");
        reveal_strlit("  selected:  ");
        reveal_strlit("  release:   ");
        reveal_strlit("not found");
    }
    let mut changes: Vec<&LibraryChange> = Vec::new();
    let mut i: usize = 0;
    while i < inspection.libraries.len()
        invariant
            i <= inspection.libraries@.len(),
            changes@.map_values(|c: &LibraryChange| *c) == library_changes(inspection.libraries@, i as nat),
        decreases inspection.libraries.len() - i,
    {
        let ghost before = changes@;
        if let Some(c) = &inspection.libraries[i].change {
            changes.push(c);
            assert(changes@.map_values(|c: &LibraryChange| *c) =~= before.map_values(|c: &LibraryChange| *c).push(*c));
        } else {
            assert(changes@ == before);
        }
        i += 1;
    }
    let mut k: usize = 0;
    let ghost lib_changes = changes@.map_values(|c: &LibraryChange| *c);
    while k < inspection.removed.len()
        invariant
            k <= inspection.removed@.len(),
            changes@.map_values(|c: &LibraryChange| *c) == lib_changes + inspection.removed@.take(k as int),
        decreases inspection.removed.len() - k,
    {
        let ghost before = changes@;
        changes.push(&inspection.removed[k]);
        assert(inspection.removed@.take(k + 1) =~= inspection.removed@.take(k as int).push(inspection.removed@[k as int]));
        assert(changes@.map_values(|c: &LibraryChange| *c) =~= before.map_values(|c: &LibraryChange| *c).push(inspection.removed@[k as int]));
        assert(changes@.map_values(|c: &LibraryChange| *c) =~= lib_changes + inspection.removed@.take(k + 1));
        k += 1;
    }
    assert(inspection.removed@.take(inspection.removed@.len() as int) =~= inspection.removed@);
    let mut output = concat("configuration: ", inspection.configuration.as_str());
    put(&mut output, "\n");
    put(&mut output, "added: ");
    push_decimal(&mut output, count_changes(&changes, ChangeKind::Added));
    put(&mut output, "\n");
    put(&mut output, "removed: ");
    push_decimal(&mut output, count_changes(&changes, ChangeKind::Removed));
    put(&mut output, "\n");
    put(&mut output, "updated: ");
    push_decimal(&mut output, count_changes(&changes, ChangeKind::Updated));
    put(&mut output, "\n");
    put(&mut output, "module changed: ");
    push_decimal(&mut output, count_changes(&changes, ChangeKind::ModuleChanged));
    put(&mut output, "\n");
    let ghost head = output@;
    assert(head =~= "configuration: "@ + inspection.configuration@ + "\n"@ + counts_text(all_changes(*inspection)));
    let mut j: usize = 0;
    while j < inspection.libraries.len()
        invariant
            j <= inspection.libraries@.len(),
            output@ == head + library_rows(inspection.libraries@, j as nat),
        decreases inspection.libraries.len() - j,
    {
        let library = &inspection.libraries[j];
        let ghost before = output@;
        if let Some(change) = &library.change {
            render_change_row(&mut output, change);
            put(&mut output, "  selected:  ");
            put(&mut output, library.selected.to_string().as_str());
            put(&mut output, "\n");
            put(&mut output, "  release:   ");
            match &library.release.url {
                Some(url) => put(&mut output, url.as_str()),
                None => put(&mut output, "not found"),
            }
            put(&mut output, "\n");
        }
        assert(output@ =~= before + library_row(*library));
        j += 1;
    }
    let ghost middle = output@;
    let mut t: usize = 0;
    while t < inspection.removed.len()
        invariant
            t <= inspection.removed@.len(),
            output@ == middle + removed_rows(inspection.removed@, t as nat),
        decreases inspection.removed.len() - t,
    {
        render_change_row(&mut output, &inspection.removed[t]);
        t += 1;
    }
    assert(output@ =~= summary(*inspection));
    output
}

/// Appends the row of one change.
fn render_change_row(output: &mut String, change: &LibraryChange)
    ensures
        final(output)@ == old(output)@ + change_row(*change),
{
    proof {
        reveal_strlit("\n");
    }
    put(output, "\n");
    put(output, change.alias.as_str());
    put(output, "\n");
    let copy = Some(copy_change(change));
    render_change(output, &copy);
    assert(change_text(copy) == change_text(Some(*change)));
    assert(output@ =~= old(output)@ + change_row(*change));
}


/// `s` holds no escape character, so no terminal control sequence.
pub open spec fn plain_text(s: Seq<char>) -> bool {
    !s.contains('\u{1b}')
}

/// Joined texts are plain exactly when both parts are.
pub broadcast proof fn lemma_plain_concat(a: Seq<char>, b: Seq<char>)
    ensures
        #[trigger] plain_text(a + b) == (plain_text(a) && plain_text(b)),
{
    let ab = a + b;
    if ab.contains('\u{1b}') {
        let k = choose|k: int| 0 <= k < ab.len() && ab[k] == '\u{1b}';
        if k < a.len() {
            assert(a[k] == ab[k]);
        } else {
            assert(b[k - a.len()] == ab[k]);
        }
    }
    if a.contains('\u{1b}') {
        let k = choose|k: int| 0 <= k < a.len() && a[k] == '\u{1b}';
        assert(ab[k] == a[k]);
    }
    if b.contains('\u{1b}') {
        let k = choose|k: int| 0 <= k < b.len() && b[k] == '\u{1b}';
        assert(ab[k + a.len()] == b[k]);
    }
}

/// The parts of a coordinate are plain.
pub open spec fn plain_component(c: ((Seq<char>, Seq<char>), Seq<char>)) -> bool {
    plain_text(c.0.0) && plain_text(c.0.1) && plain_text(c.1)
}

/// A dependency node and everything below it have plain coordinates.
pub open spec fn plain_node(n: NodeView) -> bool
    decreases n,
{
    &&& plain_component(n.component)
    &&& forall|i: int| 0 <= i < n.children.len() ==> plain_node(#[trigger] n.children[i])
}

/// An optional coordinate is plain.
pub open spec fn plain_coordinate(c: Option<ComponentId>) -> bool {
    match c {
        Some(x) => plain_component(x@),
        None => true,
    }
}

/// An optional text is plain.
pub open spec fn plain_option(t: Option<String>) -> bool {
    match t {
        Some(x) => plain_text(x@),
        None => true,
    }
}

/// A catalog change holds plain texts.
pub open spec fn plain_change(c: LibraryChange) -> bool {
    plain_text(c.alias@) && plain_coordinate(c.baseline) && plain_coordinate(c.current)
}

/// Every text of a library's inspection is plain.
pub open spec fn plain_library(l: LibraryInspection) -> bool {
    &&& plain_text(l.alias@)
    &&& (l.change matches Some(c) ==> plain_change(c))
    &&& plain_coordinate(l.requested)
    &&& plain_component(l.selected@)
    &&& plain_text(l.release.version@)
    &&& plain_option(l.release.url)
    &&& plain_option(l.release.diagnostic)
    &&& forall|i: int| 0 <= i < l.dependencies@.len() ==> plain_node(node_view(#[trigger] l.dependencies@[i]))
}

/// Every text stored in an inspection is plain.
pub open spec fn plain_inspection(i: Inspection) -> bool {
    &&& plain_text(i.configuration@)
    &&& forall|k: int| 0 <= k < i.libraries@.len() ==> plain_library(#[trigger] i.libraries@[k])
    &&& forall|k: int| 0 <= k < i.removed@.len() ==> plain_change(#[trigger] i.removed@[k])
}

proof fn lemma_char_plain(c: char)
    requires
        c != '\u{1b}',
    ensures
        plain_text(seq![c]),
{
    if seq![c].contains('\u{1b}') {
        let k = choose|k: int| 0 <= k < seq![c].len() && seq![c][k] == '\u{1b}';
        assert(seq![c][k] == c);
    }
}

proof fn lemma_literals_plain()
    ensures
        plain_text("└──"@),
        plain_text("├──"@),
        plain_text(" "@),
        plain_text("│"@),
        plain_text("   "@),
        plain_text(" (cycle)"@),
        plain_text(""@),
        plain_text(Seq::<char>::empty()),
        plain_text("\n"@),
        plain_text("exact"@),
        plain_text("generic"@),
        plain_text("none"@),
        plain_text("  change:    "@),
        plain_text("  baseline:  "@),
        plain_text("  current:   "@),
        plain_text("not present"@),
        plain_text("  requested: "@),
        plain_text("managed by Gradle"@),
        plain_text("  selected:  "@),
        plain_text("  release notes:\n"@),
        plain_text("    version: "@),
        plain_text("    url: "@),
        plain_text("not found"@),
        plain_text("    match: "@),
        plain_text("    note: "@),
        plain_text("  dependencies:\n"@),
        plain_text("    "@),
        plain_text("  "@),
        plain_text(": "@),
        plain_text("unknown"@),
        plain_text("configuration: "@),
        plain_text("\nchanges not present in configuration:\n"@),
        plain_text("added"@),
        plain_text("removed"@),
        plain_text("updated"@),
        plain_text("module changed"@),
{
    reveal_strlit("└──");
    reveal_strlit("├──");
    reveal_strlit(" ");
    reveal_strlit("│");
    reveal_strlit("   ");
    reveal_strlit(" (cycle)");
    reveal_strlit("");
    reveal_strlit("\n");
    reveal_strlit("exact");
    reveal_strlit("generic");
    reveal_strlit("none");
    reveal_strlit("  change:    ");
    reveal_strlit("  baseline:  ");
    reveal_strlit("  current:   ");
    reveal_strlit("not present");
    reveal_strlit("  requested: ");
    reveal_strlit("managed by Gradle");
    reveal_strlit("  selected:  ");
    reveal_strlit("  release notes:\n");
    reveal_strlit("    version: ");
    reveal_strlit("    url: ");
    reveal_strlit("not found");
    reveal_strlit("    match: ");
    reveal_strlit("    note: ");
    reveal_strlit("  dependencies:\n");
    reveal_strlit("    ");
    reveal_strlit("  ");
    reveal_strlit(": ");
    reveal_strlit("unknown");
    reveal_strlit("configuration: ");
    reveal_strlit("\nchanges not present in configuration:\n");
    reveal_strlit("added");
    reveal_strlit("removed");
    reveal_strlit("updated");
    reveal_strlit("module changed");
}

proof fn lemma_component_plain(c: ((Seq<char>, Seq<char>), Seq<char>))
    requires
        plain_component(c),
    ensures
        plain_text(component_text(c)),
{
    broadcast use lemma_plain_concat;
    lemma_char_plain(':');
}

proof fn lemma_node_plain(n: NodeView, prefix: Seq<char>, last: bool)
    requires
        plain_node(n),
        plain_text(prefix),
    ensures
        plain_text(node_text(n, prefix, last)),
    decreases n, 0nat,
{
    broadcast use lemma_plain_concat;
    lemma_literals_plain();
    lemma_component_plain(n.component);
    lemma_children_plain(n.children, child_prefix(prefix, last), n.children.len());
}

proof fn lemma_children_plain(kids: Seq<NodeView>, prefix: Seq<char>, k: nat)
    requires
        forall|i: int| 0 <= i < kids.len() ==> plain_node(#[trigger] kids[i]),
        plain_text(prefix),
    ensures
        plain_text(children_text(kids, prefix, k)),
    decreases kids, k,
{
    broadcast use lemma_plain_concat;
    lemma_literals_plain();
    if k > 0 && k <= kids.len() {
        lemma_children_plain(kids, prefix, (k - 1) as nat);
        lemma_node_plain(kids[k - 1], prefix, k == kids.len());
    }
}

proof fn lemma_coordinate_plain(c: Option<ComponentId>, absent: Seq<char>)
    requires
        plain_coordinate(c),
        plain_text(absent),
    ensures
        plain_text(coordinate_or(c, absent)),
{
    if let Some(x) = c {
        lemma_component_plain(x@);
    }
}

proof fn lemma_change_plain(c: LibraryChange)
    requires
        plain_change(c),
    ensures
        plain_text(change_text(Some(c))),
{
    broadcast use lemma_plain_concat;
    lemma_literals_plain();
    lemma_coordinate_plain(c.baseline, "not present"@);
    lemma_coordinate_plain(c.current, "not present"@);
}

proof fn lemma_library_plain(l: LibraryInspection)
    requires
        plain_library(l),
    ensures
        plain_text(library_text(l)),
{
    broadcast use lemma_plain_concat;
    lemma_literals_plain();
    if let Some(c) = l.change {
        lemma_change_plain(c);
    }
    lemma_coordinate_plain(l.requested, "managed by Gradle"@);
    lemma_component_plain(l.selected@);
    let kids = nodes_view(l.dependencies@);
    assert forall|i: int| 0 <= i < kids.len() implies plain_node(#[trigger] kids[i]) by {
        assert(kids[i] == node_view(l.dependencies@[i]));
    }
    lemma_children_plain(kids, "    "@, l.dependencies@.len());
}

proof fn lemma_libraries_plain(libs: Seq<LibraryInspection>, k: nat)
    requires
        forall|j: int| 0 <= j < libs.len() ==> plain_library(#[trigger] libs[j]),
    ensures
        plain_text(libraries_text(libs, k)),
    decreases k,
{
    broadcast use lemma_plain_concat;
    lemma_literals_plain();
    if k > 0 && k <= libs.len() {
        lemma_libraries_plain(libs, (k - 1) as nat);
        lemma_library_plain(libs[k - 1]);
    }
}

proof fn lemma_removed_plain(changes: Seq<LibraryChange>, k: nat)
    requires
        forall|j: int| 0 <= j < changes.len() ==> plain_change(#[trigger] changes[j]),
    ensures
        plain_text(removed_text(changes, k)),
    decreases k,
{
    broadcast use lemma_plain_concat;
    lemma_literals_plain();
    if k > 0 && k <= changes.len() {
        lemma_removed_plain(changes, (k - 1) as nat);
        lemma_coordinate_plain(changes[k - 1].baseline, "unknown"@);
    }
}

/// The report adds no terminal control sequence: when no text stored in the
/// inspection holds an escape character, neither does the report.
pub proof fn lemma_report_has_no_escape(i: Inspection)
    requires
        plain_inspection(i),
    ensures
        !report(i).contains('\u{1b}'),
{
    broadcast use lemma_plain_concat;
    lemma_literals_plain();
    lemma_libraries_plain(i.libraries@, i.libraries@.len());
    lemma_removed_plain(i.removed@, i.removed@.len());
}


proof fn lemma_occurs_in_middle(a: Seq<char>, b: Seq<char>, c: Seq<char>)
    ensures
        occurs_at(a + b + c, b, a.len() as int),
{
    assert((a + b + c).subrange(a.len() as int, (a.len() + b.len()) as int) =~= b);
}

proof fn lemma_occurs_extended(x: Seq<char>, y: Seq<char>, p: Seq<char>, i: int)
    requires
        occurs_at(x, p, i),
    ensures
        occurs_at(x + y, p, i),
{
    assert((x + y).subrange(i, i + p.len()) =~= x.subrange(i, i + p.len()));
}

proof fn lemma_library_sections(libs: Seq<LibraryInspection>, k: int, m: nat)
    requires
        0 <= k < m <= libs.len(),
    ensures
        occurs_at(libraries_text(libs, m), library_text(libs[k]), libraries_text(libs, k as nat).len() as int),
    decreases m,
{
    if m == k + 1 {
        lemma_occurs_in_middle(libraries_text(libs, k as nat), library_text(libs[k]), Seq::empty());
        assert(libraries_text(libs, k as nat) + library_text(libs[k]) + Seq::<char>::empty() =~= libraries_text(
            libs,
            m,
        ));
    } else {
        lemma_library_sections(libs, k, (m - 1) as nat);
        lemma_occurs_extended(
            libraries_text(libs, (m - 1) as nat),
            library_text(libs[m - 1]),
            library_text(libs[k]),
            libraries_text(libs, k as nat).len() as int,
        );
    }
}

/// The report opens with the line naming the configuration.
pub proof fn lemma_report_opens_with_configuration(i: Inspection)
    ensures
        starts_with(report(i), "configuration: "@ + i.configuration@ + "\n"@),
{
    let head = "configuration: "@ + i.configuration@ + "\n"@;
    assert(report(i).take(head.len() as int) =~= head);
}

/// Each library's section stands in the report in the inspection's order:
/// the `k`-th section follows the configuration line and the sections of the
/// libraries before it.  Within a section, the release-notes lines give the
/// version, the address (or "not found"), the match label, and a note
/// exactly when there is a diagnostic.
pub proof fn lemma_library_sections_in_order(i: Inspection, k: int)
    requires
        0 <= k < i.libraries@.len(),
    ensures
        occurs_at(
            report(i),
            library_text(i.libraries@[k]),
            (("configuration: "@ + i.configuration@ + "\n"@).len() + libraries_text(i.libraries@, k as nat).len()) as int,
        ),
        occurs_at(
            library_text(i.libraries@[k]),
            release_text(i.libraries@[k]),
            ("\n"@ + i.libraries@[k].alias@ + "\n"@ + change_text(i.libraries@[k].change) + coordinates_text(
                i.libraries@[k],
            )).len() as int,
        ),
{
    let libs = i.libraries@;
    let head = "configuration: "@ + i.configuration@ + "\n"@;
    let all = libraries_text(libs, libs.len());
    let tail = if i.removed@.len() > 0 {
        "\nchanges not present in configuration:\n"@ + removed_text(i.removed@, i.removed@.len())
    } else {
        Seq::empty()
    };
    lemma_library_sections(libs, k, libs.len());
    let at = libraries_text(libs, k as nat).len() as int;
    let sec = library_text(libs[k]);
    assert(report(i) == head + all + tail);
    assert((head + all + tail).subrange(head.len() + at, head.len() + at + sec.len()) =~= all.subrange(
        at,
        at + sec.len(),
    ));
    let l = libs[k];
    let pre = "\n"@ + l.alias@ + "\n"@ + change_text(l.change) + coordinates_text(l);
    let post = "  dependencies:\n"@ + children_text(nodes_view(l.dependencies@), "    "@, l.dependencies@.len());
    assert(library_text(l) =~= pre + release_text(l) + post);
    lemma_occurs_in_middle(pre, release_text(l), post);
}


/// How a node's line ends: its coordinate, " (cycle)" on a cycle, and the
/// line break.
pub open spec fn line_end(n: NodeView) -> Seq<char> {
    component_text(n.component) + (if n.cycle {
        " (cycle)"@
    } else {
        ""@
    }) + "\n"@
}

/// The lines drawing a node and, below it, its children: one per node.
pub open spec fn node_lines(n: NodeView, prefix: Seq<char>, last: bool) -> Seq<Seq<char>>
    decreases n, 0nat,
{
    seq![prefix + branch(last) + " "@ + line_end(n)] + children_lines(
        n.children,
        child_prefix(prefix, last),
        n.children.len(),
    )
}

/// The lines of the first `k` of `kids` and of the nodes below them.
pub open spec fn children_lines(kids: Seq<NodeView>, prefix: Seq<char>, k: nat) -> Seq<Seq<char>>
    decreases kids, k,
{
    if k == 0 || k > kids.len() {
        Seq::empty()
    } else {
        children_lines(kids, prefix, (k - 1) as nat) + node_lines(kids[k - 1], prefix, k == kids.len())
    }
}

/// A node and the nodes below it, depth first, children in their order.
pub open spec fn node_preorder(n: NodeView) -> Seq<NodeView>
    decreases n, 0nat,
{
    seq![n] + forest_preorder(n.children, n.children.len())
}

/// The first `k` of `kids` and the nodes below them, depth first.
pub open spec fn forest_preorder(kids: Seq<NodeView>, k: nat) -> Seq<NodeView>
    decreases kids, k,
{
    if k == 0 || k > kids.len() {
        Seq::empty()
    } else {
        forest_preorder(kids, (k - 1) as nat) + node_preorder(kids[k - 1])
    }
}

proof fn lemma_node_lines(n: NodeView, prefix: Seq<char>, last: bool)
    ensures
        node_text(n, prefix, last) == node_lines(n, prefix, last).flatten(),
        node_lines(n, prefix, last).len() == node_preorder(n).len(),
        forall|j: int|
            0 <= j < node_lines(n, prefix, last).len() ==> ends_with(
                #[trigger] node_lines(n, prefix, last)[j],
                line_end(node_preorder(n)[j]),
            ),
    decreases n, 0nat,
{
    let first = prefix + branch(last) + " "@ + line_end(n);
    let cp = child_prefix(prefix, last);
    lemma_children_lines(n.children, cp, n.children.len());
    let rest = children_lines(n.children, cp, n.children.len());
    let fpre = forest_preorder(n.children, n.children.len());
    vstd::seq_lib::lemma_flatten_concat(seq![first], rest);
    seq![first].lemma_flatten_one_element();
    assert(node_text(n, prefix, last) =~= first + children_text(n.children, cp, n.children.len()));
    let lines = node_lines(n, prefix, last);
    let pre = node_preorder(n);
    assert forall|j: int| 0 <= j < lines.len() implies ends_with(#[trigger] lines[j], line_end(pre[j])) by {
        if j == 0 {
            assert(lines[0] == first);
            assert(pre[0] == n);
            assert(first.skip(first.len() - line_end(n).len()) =~= line_end(n));
        } else {
            assert(lines[j] == rest[j - 1]);
            assert(pre[j] == fpre[j - 1]);
        }
    }
}

proof fn lemma_children_lines(kids: Seq<NodeView>, prefix: Seq<char>, k: nat)
    ensures
        children_text(kids, prefix, k) == children_lines(kids, prefix, k).flatten(),
        children_lines(kids, prefix, k).len() == forest_preorder(kids, k).len(),
        forall|j: int|
            0 <= j < children_lines(kids, prefix, k).len() ==> ends_with(
                #[trigger] children_lines(kids, prefix, k)[j],
                line_end(forest_preorder(kids, k)[j]),
            ),
    decreases kids, k,
{
    if k > 0 && k <= kids.len() {
        lemma_children_lines(kids, prefix, (k - 1) as nat);
        lemma_node_lines(kids[k - 1], prefix, k == kids.len());
        let a = children_lines(kids, prefix, (k - 1) as nat);
        let b = node_lines(kids[k - 1], prefix, k == kids.len());
        let pa = forest_preorder(kids, (k - 1) as nat);
        let pb = node_preorder(kids[k - 1]);
        vstd::seq_lib::lemma_flatten_concat(a, b);
        let lines = children_lines(kids, prefix, k);
        let pre = forest_preorder(kids, k);
        assert forall|j: int| 0 <= j < lines.len() implies ends_with(#[trigger] lines[j], line_end(pre[j])) by {
            if j < a.len() {
                assert(lines[j] == a[j]);
                assert(pre[j] == pa[j]);
            } else {
                assert(lines[j] == b[j - a.len()]);
                assert(pre[j] == pb[j - pa.len()]);
            }
        }
    }
}

/// Under a library's "  dependencies:" line the report draws exactly one
/// line per dependency node, depth first with children in their order, each
/// ending in the node's coordinate, then " (cycle)" exactly on a cycle node,
/// then the line break; the dependency lines close the library's section.
pub proof fn lemma_dependency_lines(l: LibraryInspection)
    ensures
        ends_with(
            library_text(l),
            "  dependencies:\n"@ + children_lines(nodes_view(l.dependencies@), "    "@, l.dependencies@.len()).flatten(),
        ),
        children_lines(nodes_view(l.dependencies@), "    "@, l.dependencies@.len()).len() == forest_preorder(
            nodes_view(l.dependencies@),
            l.dependencies@.len(),
        ).len(),
        forall|j: int|
            0 <= j < children_lines(nodes_view(l.dependencies@), "    "@, l.dependencies@.len()).len() ==> ends_with(
                #[trigger] children_lines(nodes_view(l.dependencies@), "    "@, l.dependencies@.len())[j],
                line_end(forest_preorder(nodes_view(l.dependencies@), l.dependencies@.len())[j]),
            ),
{
    let kids = nodes_view(l.dependencies@);
    lemma_children_lines(kids, "    "@, l.dependencies@.len());
    let tail = "  dependencies:\n"@ + children_lines(kids, "    "@, l.dependencies@.len()).flatten();
    let pre = "\n"@ + l.alias@ + "\n"@ + change_text(l.change) + coordinates_text(l) + release_text(l);
    assert(library_text(l) =~= pre + tail);
    assert((pre + tail).skip((pre + tail).len() - tail.len()) =~= tail);
}


proof fn lemma_removed_line_in(changes: Seq<LibraryChange>, k: int, m: nat)
    requires
        0 <= k < m <= changes.len(),
    ensures
        occurs_at(
            removed_text(changes, m),
            "  "@ + changes[k].alias@ + ": "@ + (match changes[k].baseline {
                Some(b) => component_text(b@),
                None => "unknown"@,
            }) + "\n"@,
            removed_text(changes, k as nat).len() as int,
        ),
    decreases m,
{
    let line = "  "@ + changes[k].alias@ + ": "@ + (match changes[k].baseline {
        Some(b) => component_text(b@),
        None => "unknown"@,
    }) + "\n"@;
    if m == k + 1 {
        assert(removed_text(changes, m) =~= removed_text(changes, k as nat) + line + Seq::<char>::empty());
        lemma_occurs_in_middle(removed_text(changes, k as nat), line, Seq::empty());
    } else {
        lemma_removed_line_in(changes, k, (m - 1) as nat);
        let last = "  "@ + changes[m - 1].alias@ + ": "@ + coordinate_or(changes[m - 1].baseline, "unknown"@)
            + "\n"@;
        assert(removed_text(changes, m) =~= removed_text(changes, (m - 1) as nat) + last);
        lemma_occurs_extended(removed_text(changes, (m - 1) as nat), last, line, removed_text(changes, k as nat).len() as int);
    }
}

/// After the libraries' sections, the changes the configuration does not use
/// follow under the heading "changes not present in configuration:", one
/// line each and in order: the alias, then the baseline coordinate, or
/// "unknown" when the change has none.
pub proof fn lemma_removed_lines(i: Inspection, k: int)
    requires
        0 <= k < i.removed@.len(),
    ensures
        occurs_at(
            report(i),
            "\nchanges not present in configuration:\n"@,
            (("configuration: "@ + i.configuration@ + "\n"@).len() + libraries_text(i.libraries@, i.libraries@.len()).len()) as int,
        ),
        occurs_at(
            report(i),
            "  "@ + i.removed@[k].alias@ + ": "@ + (match i.removed@[k].baseline {
                Some(b) => component_text(b@),
                None => "unknown"@,
            }) + "\n"@,
            (("configuration: "@ + i.configuration@ + "\n"@).len() + libraries_text(i.libraries@, i.libraries@.len()).len()
                + "\nchanges not present in configuration:\n"@.len() + removed_text(i.removed@, k as nat).len()) as int,
        ),
{
    let before = "configuration: "@ + i.configuration@ + "\n"@ + libraries_text(i.libraries@, i.libraries@.len());
    let heading = "\nchanges not present in configuration:\n"@;
    let lines = removed_text(i.removed@, i.removed@.len());
    let line = "  "@ + i.removed@[k].alias@ + ": "@ + (match i.removed@[k].baseline {
        Some(b) => component_text(b@),
        None => "unknown"@,
    }) + "\n"@;
    assert(report(i) =~= before + heading + lines);
    lemma_occurs_in_middle(before, heading, lines);
    lemma_removed_line_in(i.removed@, k, i.removed@.len());
    let at = removed_text(i.removed@, k as nat).len() as int;
    assert((before + heading + lines).subrange(before.len() + heading.len() + at, before.len() + heading.len() + at + line.len())
        =~= lines.subrange(at, at + line.len()));
}

/// How many changes of `kind` an inspection reports: among its libraries'
/// changes and among the changes outside the configuration.
pub open spec fn reported_with_kind(i: Inspection, kind: ChangeKind) -> nat {
    i.libraries@.filter(|l: LibraryInspection| l.change matches Some(c) && c.kind == kind).len()
        + i.removed@.filter(|c: LibraryChange| c.kind == kind).len()
}

proof fn lemma_count_kind_filter(changes: Seq<LibraryChange>, kind: ChangeKind, k: nat)
    requires
        k <= changes.len(),
    ensures
        count_kind(changes, kind, k) == changes.take(k as int).filter(|c: LibraryChange| c.kind == kind).len(),
    decreases k,
{
    reveal(Seq::filter);
    if k > 0 {
        lemma_count_kind_filter(changes, kind, (k - 1) as nat);
        assert(changes.take(k as int).drop_last() =~= changes.take(k - 1));
        assert(changes.take(k as int).last() == changes[k - 1]);
    } else {
        assert(changes.take(0).len() == 0);
    }
}

proof fn lemma_library_changes_filter(libs: Seq<LibraryInspection>, kind: ChangeKind, k: nat)
    requires
        k <= libs.len(),
    ensures
        library_changes(libs, k).filter(|c: LibraryChange| c.kind == kind).len() == libs.take(k as int).filter(
            |l: LibraryInspection| l.change matches Some(c) && c.kind == kind,
        ).len(),
    decreases k,
{
    reveal(Seq::filter);
    let pc = |c: LibraryChange| c.kind == kind;
    let pl = |l: LibraryInspection| l.change matches Some(c) && c.kind == kind;
    if k > 0 {
        lemma_library_changes_filter(libs, kind, (k - 1) as nat);
        assert(libs.take(k as int).drop_last() =~= libs.take(k - 1));
        assert(libs.take(k as int).last() == libs[k - 1]);
        let init = library_changes(libs, (k - 1) as nat);
        if let Some(c) = libs[k - 1].change {
            assert(init.push(c).drop_last() =~= init);
            assert(init.push(c).last() == c);
        }
    } else {
        assert(libs.take(0).len() == 0);
        assert(library_changes(libs, 0) =~= Seq::<LibraryChange>::empty());
    }
}

proof fn lemma_count_reported(i: Inspection, kind: ChangeKind)
    ensures
        count_kind(all_changes(i), kind, all_changes(i).len()) == reported_with_kind(i, kind),
{
    let libs = i.libraries@;
    let a = library_changes(libs, libs.len());
    let pc = |c: LibraryChange| c.kind == kind;
    lemma_count_kind_filter(all_changes(i), kind, all_changes(i).len());
    assert(all_changes(i).take(all_changes(i).len() as int) =~= all_changes(i));
    Seq::filter_distributes_over_add(a, i.removed@, pc);
    lemma_library_changes_filter(libs, kind, libs.len());
    assert(libs.take(libs.len() as int) =~= libs);
}

/// The summary opens with the configuration line, then counts every reported
/// change under the label of its kind: additions, removals, updates and
/// module changes, each counting the changes of that kind among the
/// libraries' changes and the changes outside the configuration.
pub proof fn lemma_summary_counts(i: Inspection)
    ensures
        starts_with(
            summary(i),
            "configuration: "@ + i.configuration@ + "\n"@ + "added: "@ + decimal(reported_with_kind(i, ChangeKind::Added))
                + "\n"@ + "removed: "@ + decimal(reported_with_kind(i, ChangeKind::Removed)) + "\n"@ + "updated: "@
                + decimal(reported_with_kind(i, ChangeKind::Updated)) + "\n"@ + "module changed: "@ + decimal(
                reported_with_kind(i, ChangeKind::ModuleChanged),
            ) + "\n"@,
        ),
{
    lemma_count_reported(i, ChangeKind::Added);
    lemma_count_reported(i, ChangeKind::Removed);
    lemma_count_reported(i, ChangeKind::Updated);
    lemma_count_reported(i, ChangeKind::ModuleChanged);
    let head = "configuration: "@ + i.configuration@ + "\n"@ + counts_text(all_changes(i));
    let expected = "configuration: "@ + i.configuration@ + "\n"@ + "added: "@ + decimal(
        reported_with_kind(i, ChangeKind::Added),
    ) + "\n"@ + "removed: "@ + decimal(reported_with_kind(i, ChangeKind::Removed)) + "\n"@ + "updated: "@
        + decimal(reported_with_kind(i, ChangeKind::Updated)) + "\n"@ + "module changed: "@ + decimal(
        reported_with_kind(i, ChangeKind::ModuleChanged),
    ) + "\n"@;
    assert(head =~= expected);
    assert(summary(i) =~= head + library_rows(i.libraries@, i.libraries@.len()) + removed_rows(i.removed@, i.removed@.len()));
    assert(summary(i).take(head.len() as int) =~= head);
}


/// The change lines a changed library shows: kind, baseline and current
/// coordinates, "not present" where there is none.
pub open spec fn shown_change(c: Option<LibraryChange>) -> Seq<char> {
    match c {
        Some(ch) => "  change:    "@ + (match ch.kind {
            ChangeKind::Added => "added"@,
            ChangeKind::Removed => "removed"@,
            ChangeKind::Updated => "updated"@,
            ChangeKind::ModuleChanged => "module changed"@,
        }) + "\n"@ + "  baseline:  "@ + (match ch.baseline {
            Some(b) => component_text(b@),
            None => "not present"@,
        }) + "\n"@ + "  current:   "@ + (match ch.current {
            Some(x) => component_text(x@),
            None => "not present"@,
        }) + "\n"@,
        None => Seq::<char>::empty(),
    }
}

/// The coordinate lines a library shows: requested ("managed by Gradle"
/// without one) and selected.
pub open spec fn shown_coordinates(l: LibraryInspection) -> Seq<char> {
    "  requested: "@ + (match l.requested {
        Some(r) => component_text(r@),
        None => "managed by Gradle"@,
    }) + "\n"@ + "  selected:  "@ + component_text(l.selected@) + "\n"@
}

/// The release-notes lines a library shows: version, address or "not
/// found", match label, and a note exactly when there is a diagnostic.
pub open spec fn shown_release(l: LibraryInspection) -> Seq<char> {
    "  release notes:\n"@ + "    version: "@ + l.release.version@ + "\n"@ + "    url: "@ + (match l.release.url {
        Some(u) => u@,
        None => "not found"@,
    }) + "\n"@ + "    match: "@ + (match l.release.match_kind {
        ReleaseMatch::Exact => "exact"@,
        ReleaseMatch::Generic => "generic"@,
        ReleaseMatch::Unmatched => "none"@,
    }) + "\n"@ + (match l.release.diagnostic {
        Some(d) => "    note: "@ + d@ + "\n"@,
        None => Seq::<char>::empty(),
    })
}

/// A library's section, line by line: a blank line and the alias; its
/// change when it changed; its coordinates; its release notes; then the
/// dependencies heading and one line per dependency node, depth first.
pub proof fn lemma_library_section_lines(l: LibraryInspection)
    ensures
        library_text(l) == "\n"@ + l.alias@ + "\n"@ + shown_change(l.change) + shown_coordinates(l) + shown_release(l)
            + "  dependencies:\n"@ + children_lines(nodes_view(l.dependencies@), "    "@, l.dependencies@.len()).flatten(),
{
    lemma_children_lines(nodes_view(l.dependencies@), "    "@, l.dependencies@.len());
    assert(change_text(l.change) == shown_change(l.change));
    assert(coordinates_text(l) == shown_coordinates(l));
    assert(release_text(l) == shown_release(l));
}


proof fn lemma_library_row_in(libs: Seq<LibraryInspection>, k: int, m: nat)
    requires
        0 <= k < m <= libs.len(),
    ensures
        occurs_at(library_rows(libs, m), library_row(libs[k]), library_rows(libs, k as nat).len() as int),
    decreases m,
{
    if m == k + 1 {
        assert(library_rows(libs, m) =~= library_rows(libs, k as nat) + library_row(libs[k]) + Seq::<char>::empty());
        lemma_occurs_in_middle(library_rows(libs, k as nat), library_row(libs[k]), Seq::empty());
    } else {
        lemma_library_row_in(libs, k, (m - 1) as nat);
        lemma_occurs_extended(
            library_rows(libs, (m - 1) as nat),
            library_row(libs[m - 1]),
            library_row(libs[k]),
            library_rows(libs, k as nat).len() as int,
        );
    }
}

proof fn lemma_removed_row_in(changes: Seq<LibraryChange>, k: int, m: nat)
    requires
        0 <= k < m <= changes.len(),
    ensures
        occurs_at(removed_rows(changes, m), change_row(changes[k]), removed_rows(changes, k as nat).len() as int),
    decreases m,
{
    if m == k + 1 {
        assert(removed_rows(changes, m) =~= removed_rows(changes, k as nat) + change_row(changes[k]) + Seq::<char>::empty());
        lemma_occurs_in_middle(removed_rows(changes, k as nat), change_row(changes[k]), Seq::empty());
    } else {
        lemma_removed_row_in(changes, k, (m - 1) as nat);
        lemma_occurs_extended(
            removed_rows(changes, (m - 1) as nat),
            change_row(changes[m - 1]),
            change_row(changes[k]),
            removed_rows(changes, k as nat).len() as int,
        );
    }
}

/// After the counts, the summary has one row per changed library, in order:
/// its change's alias and the change, its selected coordinate and its
/// release address ("not found" without one); an unchanged library has no
/// row.
pub proof fn lemma_summary_library_rows(i: Inspection, k: int)
    requires
        0 <= k < i.libraries@.len(),
    ensures
        i.libraries@[k].change is None ==> library_rows(i.libraries@, (k + 1) as nat) == library_rows(
            i.libraries@,
            k as nat,
        ),
        i.libraries@[k].change is Some ==> occurs_at(
            summary(i),
            "\n"@ + i.libraries@[k].change->Some_0.alias@ + "\n"@ + shown_change(i.libraries@[k].change)
                + "  selected:  "@ + component_text(i.libraries@[k].selected@) + "\n"@ + "  release:   "@ + (
            match i.libraries@[k].release.url {
                Some(u) => u@,
                None => "not found"@,
            }) + "\n"@,
            (("configuration: "@ + i.configuration@ + "\n"@ + counts_text(all_changes(i))).len() + library_rows(
                i.libraries@,
                k as nat,
            ).len()) as int,
        ),
{
    let head = "configuration: "@ + i.configuration@ + "\n"@ + counts_text(all_changes(i));
    let rows = library_rows(i.libraries@, i.libraries@.len());
    let rest = removed_rows(i.removed@, i.removed@.len());
    assert(summary(i) == head + rows + rest);
    let l = i.libraries@[k];
    if let Some(c) = l.change {
        lemma_library_row_in(i.libraries@, k, i.libraries@.len());
        assert(change_text(l.change) == shown_change(l.change));
        let row = library_row(l);
        let expected = "\n"@ + c.alias@ + "\n"@ + shown_change(l.change) + "  selected:  "@ + component_text(l.selected@)
            + "\n"@ + "  release:   "@ + (match l.release.url {
            Some(u) => u@,
            None => "not found"@,
        }) + "\n"@;
        assert(row =~= expected);
        let at = library_rows(i.libraries@, k as nat).len() as int;
        assert((head + rows + rest).subrange(head.len() + at, head.len() + at + row.len()) =~= rows.subrange(
            at,
            at + row.len(),
        ));
    }
}

/// After the libraries' rows, the summary has one row per change outside
/// the configuration, in order: its alias and the change.
pub proof fn lemma_summary_removed_rows(i: Inspection, t: int)
    requires
        0 <= t < i.removed@.len(),
    ensures
        occurs_at(
            summary(i),
            "\n"@ + i.removed@[t].alias@ + "\n"@ + shown_change(Some(i.removed@[t])),
            (("configuration: "@ + i.configuration@ + "\n"@ + counts_text(all_changes(i))).len() + library_rows(
                i.libraries@,
                i.libraries@.len(),
            ).len() + removed_rows(i.removed@, t as nat).len()) as int,
        ),
{
    let head = "configuration: "@ + i.configuration@ + "\n"@ + counts_text(all_changes(i));
    let rows = library_rows(i.libraries@, i.libraries@.len());
    let rest = removed_rows(i.removed@, i.removed@.len());
    assert(summary(i) == head + rows + rest);
    let c = i.removed@[t];
    lemma_removed_row_in(i.removed@, t, i.removed@.len());
    assert(change_text(Some(c)) == shown_change(Some(c)));
    let row = change_row(c);
    assert(row =~= "\n"@ + c.alias@ + "\n"@ + shown_change(Some(c)));
    let at = removed_rows(i.removed@, t as nat).len() as int;
    assert((head + rows + rest).subrange(head.len() + rows.len() + at, head.len() + rows.len() + at + row.len())
        =~= rest.subrange(at, at + row.len()));
}

} // verus!
