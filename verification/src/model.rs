//! The values that inspection produces and reports render.

use vstd::prelude::*;
use crate::text::{split_on, lemma_split_whole, lemma_split_append, lex_lt, lemma_lex_transitive, lemma_lex_total, lemma_lex_irreflexive, str_less};

verus! {

/// A module coordinate, `group:name`.
#[derive(Clone, Debug, PartialEq, Eq, Hash, PartialOrd, Ord)]
pub struct ModuleId {
    pub group: String,
    pub name: String,
}

impl View for ModuleId {
    type V = (Seq<char>, Seq<char>);

    open spec fn view(&self) -> (Seq<char>, Seq<char>) {
        (self.group@, self.name@)
    }
}

/// `group:name`.
pub open spec fn module_text(m: (Seq<char>, Seq<char>)) -> Seq<char> {
    m.0 + seq![':'] + m.1
}

/// `group:name:version`.
pub open spec fn component_text(c: ((Seq<char>, Seq<char>), Seq<char>)) -> Seq<char> {
    module_text(c.0) + seq![':'] + c.1
}

/// Order of component coordinates: by group, then name, then version, each
/// compared lexicographically (the field order of the coordinate).
pub open spec fn component_lt(
    a: ((Seq<char>, Seq<char>), Seq<char>),
    b: ((Seq<char>, Seq<char>), Seq<char>),
) -> bool {
    ||| lex_lt(a.0.0, b.0.0)
    ||| a.0.0 == b.0.0 && lex_lt(a.0.1, b.0.1)
    ||| a.0.0 == b.0.0 && a.0.1 == b.0.1 && lex_lt(a.1, b.1)
}

/// The coordinate order is transitive.
pub proof fn lemma_component_lt_transitive(
    a: ((Seq<char>, Seq<char>), Seq<char>),
    b: ((Seq<char>, Seq<char>), Seq<char>),
    c: ((Seq<char>, Seq<char>), Seq<char>),
)
    requires
        component_lt(a, b),
        component_lt(b, c),
    ensures
        component_lt(a, c),
{
    if lex_lt(a.0.0, b.0.0) && lex_lt(b.0.0, c.0.0) {
        lemma_lex_transitive(a.0.0, b.0.0, c.0.0);
    }
    if lex_lt(a.0.1, b.0.1) && lex_lt(b.0.1, c.0.1) {
        lemma_lex_transitive(a.0.1, b.0.1, c.0.1);
    }
    if lex_lt(a.1, b.1) && lex_lt(b.1, c.1) {
        lemma_lex_transitive(a.1, b.1, c.1);
    }
}

/// Any two distinct coordinates are ordered one way or the other, so sorting
/// by coordinate is deterministic.
pub proof fn lemma_component_lt_total(
    a: ((Seq<char>, Seq<char>), Seq<char>),
    b: ((Seq<char>, Seq<char>), Seq<char>),
)
    ensures
        a == b || component_lt(a, b) || component_lt(b, a),
{
    lemma_lex_total(a.0.0, b.0.0);
    lemma_lex_total(a.0.1, b.0.1);
    lemma_lex_total(a.1, b.1);
}

/// No coordinate comes before itself.
pub proof fn lemma_component_lt_irreflexive(a: ((Seq<char>, Seq<char>), Seq<char>))
    ensures
        !component_lt(a, a),
{
    lemma_lex_irreflexive(a.0.0);
    lemma_lex_irreflexive(a.0.1);
    lemma_lex_irreflexive(a.1);
}

impl ModuleId {
    /// A copy with the same coordinate.
    pub fn duplicate(&self) -> (r: ModuleId)
        ensures
            r@ == self@,
    {
        ModuleId { group: self.group.clone(), name: self.name.clone() }
    }

    /// Whether both coordinates are equal.
    pub fn same(&self, other: &ModuleId) -> (r: bool)
        ensures
            r == (self@ == other@),
    {
        self.group == other.group && self.name == other.name
    }

    /// The coordinate as text, `group:name`.
    pub fn to_string(&self) -> (s: String)
        ensures
            s@ == module_text(self@),
    {
        let mut s = self.group.clone();
        proof {
            reveal_strlit(":");
        }
        s.append(":");
        s.append(self.name.as_str());
        s
    }
}

/// A resolved component coordinate, `group:name:version`.
#[derive(Clone, Debug, PartialEq, Eq, Hash, PartialOrd, Ord)]
pub struct ComponentId {
    pub module: ModuleId,
    pub version: String,
}

impl View for ComponentId {
    type V = ((Seq<char>, Seq<char>), Seq<char>);

    open spec fn view(&self) -> ((Seq<char>, Seq<char>), Seq<char>) {
        (self.module@, self.version@)
    }
}

impl ComponentId {
    /// A copy with the same coordinate.
    pub fn duplicate(&self) -> (r: ComponentId)
        ensures
            r@ == self@,
    {
        ComponentId { module: self.module.duplicate(), version: self.version.clone() }
    }

    /// Whether `self` comes strictly before `other` in coordinate order.
    pub fn precedes(&self, other: &ComponentId) -> (r: bool)
        ensures
            r == component_lt(self@, other@),
    {
        if str_less(self.module.group.as_str(), other.module.group.as_str()) {
            return true;
        }
        if !(self.module.group == other.module.group) {
            return false;
        }
        if str_less(self.module.name.as_str(), other.module.name.as_str()) {
            return true;
        }
        if !(self.module.name == other.module.name) {
            return false;
        }
        str_less(self.version.as_str(), other.version.as_str())
    }

    /// The coordinate as text, `group:name:version`.
    pub fn to_string(&self) -> (s: String)
        ensures
            s@ == component_text(self@),
    {
        let mut s = self.module.to_string();
        proof {
            reveal_strlit(":");
        }
        s.append(":");
        s.append(self.version.as_str());
        s
    }
}

/// A node of a library's transitive dependency tree.
#[derive(Debug)]
pub struct DependencyNode {
    pub component: ComponentId,
    pub children: Vec<DependencyNode>,
    /// The component already stands on the path from the library's root.
    pub cycle: bool,
    /// The component was expanded elsewhere in the same library's tree.
    pub repeated: bool,
}

/// How a release link was established.
#[derive(Clone, Copy, Debug, PartialEq, Eq, Structural)]
pub enum ReleaseMatch {
    Exact,
    Generic,
    Unmatched,
}

/// Release notes found for a selected version.
#[derive(Clone, Debug)]
pub struct ReleaseLink {
    pub version: String,
    /// The serialised URL, when one was found.
    pub url: Option<String>,
    pub match_kind: ReleaseMatch,
    pub diagnostic: Option<String>,
}

/// How a catalog entry differs from the baseline catalog.
#[derive(Clone, Copy, Debug, PartialEq, Eq, Structural)]
pub enum ChangeKind {
    Added,
    Removed,
    Updated,
    ModuleChanged,
}

/// The text a report shows for each kind of change.
pub open spec fn change_label(kind: ChangeKind) -> Seq<char> {
    match kind {
        ChangeKind::Added => "added"@,
        ChangeKind::Removed => "removed"@,
        ChangeKind::Updated => "updated"@,
        ChangeKind::ModuleChanged => "module changed"@,
    }
}

impl ChangeKind {
    /// The text a report shows for this kind of change.
    pub fn label(&self) -> (s: &'static str)
        ensures
            s@ == change_label(*self),
    {
        match self {
            ChangeKind::Added => "added",
            ChangeKind::Removed => "removed",
            ChangeKind::Updated => "updated",
            ChangeKind::ModuleChanged => "module changed",
        }
    }
}

/// One catalog alias whose declaration differs between baseline and current.
#[derive(Clone, Debug)]
pub struct LibraryChange {
    pub alias: String,
    pub kind: ChangeKind,
    pub baseline: Option<ComponentId>,
    pub current: Option<ComponentId>,
}

/// Everything shown for one used catalog library.
#[derive(Debug)]
pub struct LibraryInspection {
    pub alias: String,
    pub requested: Option<ComponentId>,
    pub selected: ComponentId,
    pub dependencies: Vec<DependencyNode>,
    pub release: ReleaseLink,
    pub change: Option<LibraryChange>,
}

/// The result of inspecting one configuration.
#[derive(Debug)]
pub struct Inspection {
    pub configuration: String,
    pub libraries: Vec<LibraryInspection>,
    /// Catalog changes whose libraries the configuration does not use.
    pub removed: Vec<LibraryChange>,
}

/// Reading a module coordinate back from its text (`group:name`, split at
/// `:`) gives the module, when neither part contains `:`.
pub proof fn lemma_module_text_splits(m: (Seq<char>, Seq<char>))
    requires
        !m.0.contains(':'),
        !m.1.contains(':'),
    ensures
        split_on(module_text(m), ':') == seq![m.0, m.1],
{
    lemma_split_whole(m.0, ':');
    lemma_split_append(m.0, m.1, ':');
}

/// Reading a component coordinate back from its text (`group:name:version`,
/// split at `:`) gives its three parts, when none contains `:`.
pub proof fn lemma_component_text_splits(c: ((Seq<char>, Seq<char>), Seq<char>))
    requires
        !c.0.0.contains(':'),
        !c.0.1.contains(':'),
        !c.1.contains(':'),
    ensures
        split_on(component_text(c), ':') == seq![c.0.0, c.0.1, c.1],
{
    lemma_module_text_splits(c.0);
    lemma_split_append(module_text(c.0), c.1, ':');
}

} // verus!
