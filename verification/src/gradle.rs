//! The Gradle inspection protocol: payload framing, graph checks and
//! configuration selectors.

use vstd::prelude::*;
use crate::model::ComponentId;
use crate::text::{occurs_at, chars_of, chars_equal, concat, find_chars, find_from, join, join_strings, lex_lt, lemma_find_from_bounds, trim_range, trimmed};

verus! {

/// One component of Gradle's resolved graph.
#[derive(Clone, Debug)]
pub struct ResolvedComponent {
    pub id: ComponentId,
    /// Keys of the components this one depends on.
    pub children: Vec<String>,
    pub metadata_urls: Vec<String>,
}

/// Gradle's resolved graph: components by key, in key order, and the keys of
/// the configuration's direct dependencies.
#[derive(Clone, Debug)]
pub struct ResolvedGraph {
    pub components: Vec<(String, ResolvedComponent)>,
    pub roots: Vec<String>,
}

impl ResolvedGraph {
    /// The key of the `i`-th component.
    pub open spec fn key(self, i: int) -> Seq<char> {
        self.components@[i].0@
    }

    /// The `i`-th component.
    pub open spec fn entry(self, i: int) -> ResolvedComponent {
        self.components@[i].1
    }

    /// Keys strictly increase, as in a map ordered by key.
    pub open spec fn wf(self) -> bool {
        forall|i: int, j: int|
            0 <= i < j < self.components@.len() ==> lex_lt(#[trigger] self.key(i), #[trigger] self.key(j))
    }

    /// Whether the keys strictly increase; see `wf`.
    pub fn is_well_formed(&self) -> (r: bool)
        ensures
            r == self.wf(),
    {
        let n = self.components.len();
        let mut i: usize = 1;
        while i < n
            invariant
                1 <= i || n == 0,
                i <= n || n == 0,
                n == self.components@.len(),
                forall|a: int, b: int| 0 <= a < b < i && b < n ==> lex_lt(#[trigger] self.key(a), #[trigger] self.key(b)),
            decreases n - i,
        {
            if !crate::text::str_less(self.components[i - 1].0.as_str(), self.components[i].0.as_str()) {
                assert(!lex_lt(self.key(i - 1), self.key(i as int)));
                return false;
            }
            assert forall|a: int, b: int| 0 <= a < b < i + 1 && b < n implies lex_lt(#[trigger] self.key(a), #[trigger] self.key(b)) by {
                if b == i && a < i - 1 {
                    crate::text::lemma_lex_transitive(self.key(a), self.key(i - 1), self.key(b));
                }
            }
            i += 1;
        }
        true
    }
}

/// The marker that opens the inspection payload in Gradle's output.
pub const BEGIN: &'static str = "GRADLE_CHECKER_BEGIN";

/// The marker that closes the inspection payload in Gradle's output.
pub const END: &'static str = "GRADLE_CHECKER_END";

/// Why an inspection through Gradle failed.
#[derive(Clone, Debug, PartialEq, Eq)]
pub enum GradleError {
    MissingWrapper(String),
    Process(String),
    MissingPayload,
    DuplicatePayload,
    InvalidPayload(String),
    UnknownChild(String),
    MissingConfiguration(String),
    AmbiguousConfiguration { selector: String, candidates: String },
    Temp(String),
}

impl GradleError {
    /// The error as a sentence.
    pub fn to_string(&self) -> (s: String)
        ensures
            self matches GradleError::UnknownChild(key) ==> s@ == "inspection payload references unknown child '"@ + key@ + "'"@,
            self matches GradleError::MissingConfiguration(sel) ==> s@ == "configuration '"@ + sel@ + "' was not found"@,
            self matches GradleError::AmbiguousConfiguration { selector, candidates } ==> s@ == "configuration '"@ + selector@ + "' is ambiguous: "@ + candidates@,
            self is MissingPayload ==> s@ == "inspection output contained no payload"@,
            self is DuplicatePayload ==> s@ == "inspection output contained multiple payloads"@,
            self matches GradleError::MissingWrapper(root) ==> s@ == "Gradle Wrapper not found in "@ + root@,
            self matches GradleError::Process(message) ==> s@ == "Gradle failed: "@ + message@,
            self matches GradleError::InvalidPayload(message) ==> s@ == "invalid inspection payload: "@ + message@,
            self matches GradleError::Temp(message) ==> s@ == "cannot create temporary init script: "@ + message@,
    {
        match self {
            GradleError::MissingWrapper(root) => concat("Gradle Wrapper not found in ", root.as_str()),
            GradleError::Process(message) => concat("Gradle failed: ", message.as_str()),
            GradleError::MissingPayload => "inspection output contained no payload".to_owned(),
            GradleError::DuplicatePayload => "inspection output contained multiple payloads".to_owned(),
            GradleError::InvalidPayload(message) => concat("invalid inspection payload: ", message.as_str()),
            GradleError::UnknownChild(key) => {
                let s = concat("inspection payload references unknown child '", key.as_str());
                concat(s.as_str(), "'")
            },
            GradleError::MissingConfiguration(selector) => {
                let s = concat("configuration '", selector.as_str());
                concat(s.as_str(), "' was not found")
            },
            GradleError::AmbiguousConfiguration { selector, candidates } => {
                let s = concat("configuration '", selector.as_str());
                let s = concat(s.as_str(), "' is ambiguous: ");
                concat(s.as_str(), candidates.as_str())
            },
            GradleError::Temp(message) => concat("cannot create temporary init script: ", message.as_str()),
        }
    }
}

/// What the payload framing of Gradle's output yields: the trimmed text
/// between the only `BEGIN` marker and the first `END` marker after it.
pub open spec fn spec_payload(output: Seq<char>) -> Result<Seq<char>, GradleError> {
    match find_from(output, BEGIN@, 0) {
        None => Err(GradleError::MissingPayload),
        Some(f) => {
            let after = f + BEGIN@.len();
            if find_from(output, BEGIN@, after) is Some {
                Err(GradleError::DuplicatePayload)
            } else {
                let rest = output.skip(after as int);
                match find_from(rest, END@, 0) {
                    None => Err(GradleError::MissingPayload),
                    Some(k) => Ok(trimmed(rest.take(k as int))),
                }
            }
        },
    }
}

/// The payload delimited in Gradle's output; Gradle's own logging around it
/// is ignored.
pub fn extract_payload(output: &str) -> (r: Result<String, GradleError>)
    ensures
        match spec_payload(output@) {
            Ok(text) => r matches Ok(s) && s@ == text,
            Err(e) => r == Err::<String, GradleError>(e),
        },
{
    let cs = chars_of(output);
    let begin = chars_of(BEGIN);
    let end = chars_of(END);
    let first = match find_chars(&cs, &begin, 0) {
        None => return Err(GradleError::MissingPayload),
        Some(f) => f,
    };
    proof {
        lemma_find_from_bounds(cs@, begin@, 0);
        assert(occurs_at(cs@, begin@, first as int));
    }
    let total = cs.len();
    assert(first + begin@.len() <= total);
    let after = first + begin.len();
    if find_chars(&cs, &begin, after).is_some() {
        return Err(GradleError::DuplicatePayload);
    }
    let mut rest: Vec<char> = Vec::new();
    let mut i = after;
    while i < cs.len()
        invariant
            after <= i <= cs@.len(),
            rest@ == cs@.subrange(after as int, i as int),
        decreases cs.len() - i,
    {
        rest.push(cs[i]);
        assert(cs@.subrange(after as int, i + 1) =~= cs@.subrange(after as int, i as int).push(cs@[i as int]));
        i += 1;
    }
    assert(rest@ =~= cs@.skip(after as int));
    match find_chars(&rest, &end, 0) {
        None => Err(GradleError::MissingPayload),
        Some(k) => {
            proof {
                lemma_find_from_bounds(rest@, end@, 0);
                assert(rest@.subrange(0, k as int) =~= rest@.take(k as int));
            }
            Ok(trim_range(&rest, 0, k))
        },
    }
}

/// Some component has key `k`.
pub open spec fn known(g: ResolvedGraph, k: Seq<char>) -> bool {
    exists|i: int| 0 <= i < g.components@.len() && #[trigger] g.key(i) == k
}

/// The first of the first `n` keys that no component has.
pub open spec fn first_unknown(g: ResolvedGraph, keys: Seq<String>, n: nat) -> Option<Seq<char>>
    decreases n,
{
    if n == 0 || n > keys.len() {
        None
    } else {
        match first_unknown(g, keys, (n - 1) as nat) {
            Some(k) => Some(k),
            None => if known(g, keys[n - 1]@) {
                None
            } else {
                Some(keys[n - 1]@)
            },
        }
    }
}

/// The first child key, in component order, that no component has.
pub open spec fn first_unknown_child(g: ResolvedGraph, m: nat) -> Option<Seq<char>>
    decreases m,
{
    if m == 0 || m > g.components@.len() {
        None
    } else {
        match first_unknown_child(g, (m - 1) as nat) {
            Some(k) => Some(k),
            None => first_unknown(g, g.entry(m - 1).children@, g.entry(m - 1).children@.len()),
        }
    }
}

/// The key a decoded graph is refused for: its first unknown root, else its
/// first unknown child.
pub open spec fn spec_unknown(g: ResolvedGraph) -> Option<Seq<char>> {
    match first_unknown(g, g.roots@, g.roots@.len()) {
        Some(k) => Some(k),
        None => first_unknown_child(g, g.components@.len()),
    }
}

/// Every root and every child names a component.
pub open spec fn closed(g: ResolvedGraph) -> bool {
    &&& forall|i: int| 0 <= i < g.roots@.len() ==> known(g, #[trigger] g.roots@[i]@)
    &&& forall|u: int, j: int|
        0 <= u < g.components@.len() && 0 <= j < g.entry(u).children@.len() ==> known(
            g,
            #[trigger] g.entry(u).children@[j]@,
        )
}

proof fn lemma_first_unknown_none(g: ResolvedGraph, keys: Seq<String>, n: nat)
    requires
        n <= keys.len(),
        first_unknown(g, keys, n) is None,
    ensures
        forall|i: int| 0 <= i < n ==> known(g, #[trigger] keys[i]@),
    decreases n,
{
    if n > 0 {
        lemma_first_unknown_none(g, keys, (n - 1) as nat);
    }
}

proof fn lemma_first_unknown_child_none(g: ResolvedGraph, m: nat)
    requires
        m <= g.components@.len(),
        first_unknown_child(g, m) is None,
    ensures
        forall|u: int, j: int|
            0 <= u < m && 0 <= j < g.entry(u).children@.len() ==> known(
                g,
                #[trigger] g.entry(u).children@[j]@,
            ),
    decreases m,
{
    if m > 0 {
        lemma_first_unknown_child_none(g, (m - 1) as nat);
        lemma_first_unknown_none(g, g.entry(m - 1).children@, g.entry(m - 1).children@.len());
    }
}

proof fn lemma_first_unknown_stays(g: ResolvedGraph, keys: Seq<String>, n: nat, m: nat)
    requires
        n <= m <= keys.len(),
        first_unknown(g, keys, n) is Some,
    ensures
        first_unknown(g, keys, m) == first_unknown(g, keys, n),
    decreases m - n,
{
    if m > n {
        lemma_first_unknown_stays(g, keys, n, (m - 1) as nat);
    }
}

proof fn lemma_first_unknown_child_stays(g: ResolvedGraph, n: nat, m: nat)
    requires
        n <= m <= g.components@.len(),
        first_unknown_child(g, n) is Some,
    ensures
        first_unknown_child(g, m) == first_unknown_child(g, n),
    decreases m - n,
{
    if m > n {
        lemma_first_unknown_child_stays(g, n, (m - 1) as nat);
    }
}

proof fn lemma_first_unknown_some(g: ResolvedGraph, keys: Seq<String>, n: nat)
    requires
        n <= keys.len(),
        first_unknown(g, keys, n) is Some,
    ensures
        exists|i: int|
            0 <= i < n && #[trigger] keys[i]@ == first_unknown(g, keys, n)->Some_0 && !known(g, keys[i]@),
    decreases n,
{
    if first_unknown(g, keys, (n - 1) as nat) is Some {
        lemma_first_unknown_some(g, keys, (n - 1) as nat);
    } else {
        assert(keys[n - 1]@ == first_unknown(g, keys, n)->Some_0);
    }
}

proof fn lemma_first_unknown_child_some(g: ResolvedGraph, m: nat)
    requires
        m <= g.components@.len(),
        first_unknown_child(g, m) is Some,
    ensures
        exists|u: int, j: int|
            0 <= u < m && 0 <= j < g.entry(u).children@.len() && #[trigger] g.entry(u).children@[j]@
                == first_unknown_child(g, m)->Some_0 && !known(g, g.entry(u).children@[j]@),
    decreases m,
{
    if first_unknown_child(g, (m - 1) as nat) is Some {
        lemma_first_unknown_child_some(g, (m - 1) as nat);
    } else {
        let kids = g.entry(m - 1).children@;
        lemma_first_unknown_some(g, kids, kids.len());
        let j = choose|j: int| 0 <= j < kids.len() && #[trigger] kids[j]@ == first_unknown(g, kids, kids.len())->Some_0 && !known(g, kids[j]@);
        assert(g.entry(m - 1).children@[j]@ == first_unknown_child(g, m)->Some_0);
    }
}

/// A decoded graph is refused exactly when it is not closed: some root or
/// some child names no component, and the key it is refused for is one such.
pub proof fn lemma_refused_exactly_when_not_closed(g: ResolvedGraph)
    ensures
        spec_unknown(g) is None <==> closed(g),
        spec_unknown(g) matches Some(k) ==> !known(g, k) && ((exists|i: int|
            0 <= i < g.roots@.len() && #[trigger] g.roots@[i]@ == k) || (exists|u: int, j: int|
            0 <= u < g.components@.len() && 0 <= j < g.entry(u).children@.len()
                && #[trigger] g.entry(u).children@[j]@ == k)),
{
    if first_unknown(g, g.roots@, g.roots@.len()) is Some {
        lemma_first_unknown_some(g, g.roots@, g.roots@.len());
    } else {
        lemma_first_unknown_none(g, g.roots@, g.roots@.len());
        if first_unknown_child(g, g.components@.len()) is Some {
            lemma_first_unknown_child_some(g, g.components@.len());
        } else {
            lemma_first_unknown_child_none(g, g.components@.len());
        }
    }
}

/// Whether some component has key `k`.
fn has_key(g: &ResolvedGraph, k: &String) -> (r: bool)
    ensures
        r == known(*g, k@),
{
    let mut i: usize = 0;
    while i < g.components.len()
        invariant
            i <= g.components@.len(),
            forall|v: int| 0 <= v < i ==> g.key(v) != k@,
        decreases g.components.len() - i,
    {
        if g.components[i].0 == *k {
            assert(g.key(i as int) == k@);
            return true;
        }
        i += 1;
    }
    false
}

/// The first of `keys` that no component has.
fn find_unknown(g: &ResolvedGraph, keys: &Vec<String>) -> (r: Option<String>)
    ensures
        match first_unknown(*g, keys@, keys@.len()) {
            Some(k) => r matches Some(s) && s@ == k,
            None => r is None,
        },
{
    let mut i: usize = 0;
    while i < keys.len()
        invariant
            i <= keys@.len(),
            first_unknown(*g, keys@, i as nat) is None,
        decreases keys.len() - i,
    {
        if !has_key(g, &keys[i]) {
            proof {
                lemma_first_unknown_stays(*g, keys@, (i + 1) as nat, keys@.len());
            }
            return Some(keys[i].clone());
        }
        i += 1;
    }
    None
}

/// Accepts a decoded graph only when every root and every child names one of
/// its components; otherwise names the first key that does not (roots first,
/// then children in component order).
pub fn check_graph(graph: ResolvedGraph) -> (r: Result<ResolvedGraph, GradleError>)
    ensures
        match spec_unknown(graph) {
            None => r == Ok::<ResolvedGraph, GradleError>(graph) && closed(graph),
            Some(k) => r matches Err(GradleError::UnknownChild(s)) && s@ == k,
        },
        r is Ok <==> closed(graph),
{
    proof {
        lemma_refused_exactly_when_not_closed(graph);
    }
    if let Some(root) = find_unknown(&graph, &graph.roots) {
        return Err(GradleError::UnknownChild(root));
    }
    let mut u: usize = 0;
    while u < graph.components.len()
        invariant
            u <= graph.components@.len(),
            first_unknown(graph, graph.roots@, graph.roots@.len()) is None,
            first_unknown_child(graph, u as nat) is None,
            spec_unknown(graph) is None <==> closed(graph),
        decreases graph.components.len() - u,
    {
        if let Some(child) = find_unknown(&graph, &graph.components[u].1.children) {
            proof {
                lemma_first_unknown_child_stays(graph, (u + 1) as nat, graph.components@.len());
            }
            return Err(GradleError::UnknownChild(child));
        }
        u += 1;
    }
    proof {
        lemma_first_unknown_none(graph, graph.roots@, graph.roots@.len());
        lemma_first_unknown_child_none(graph, graph.components@.len());
    }
    Ok(graph)
}

/// A resolvable configuration of one project.
#[derive(Clone, Debug, PartialEq, Eq)]
pub struct ConfigurationCandidate {
    pub project: String,
    pub name: String,
}

/// The selector of a configuration: `:name` in the root project `:`,
/// otherwise `project:name`.
pub open spec fn selector_text(project: Seq<char>, name: Seq<char>) -> Seq<char> {
    if project == ":"@ {
        ":"@ + name
    } else {
        project + ":"@ + name
    }
}

/// The selector of a configuration.
pub fn format_selector(project: &str, name: &str) -> (r: String)
    ensures
        r@ == selector_text(project@, name@),
{
    proof {
        reveal_strlit(":");
    }
    if chars_equal(&chars_of(project), &chars_of(":")) {
        concat(":", name)
    } else {
        let s = concat(project, ":");
        concat(s.as_str(), name)
    }
}

/// The selectors of a list of configurations, in order.
pub fn configuration_selectors(values: &Vec<ConfigurationCandidate>) -> (r: Vec<String>)
    ensures
        r@.len() == values@.len(),
        forall|i: int|
            0 <= i < values@.len() ==> (#[trigger] r@[i])@ == selector_text(values@[i].project@, values@[i].name@),
{
    let mut r: Vec<String> = Vec::new();
    let mut i: usize = 0;
    while i < values.len()
        invariant
            i <= values@.len(),
            r@.len() == i,
            forall|j: int|
                0 <= j < i ==> (#[trigger] r@[j])@ == selector_text(values@[j].project@, values@[j].name@),
        decreases values.len() - i,
    {
        r.push(format_selector(values[i].project.as_str(), values[i].name.as_str()));
        i += 1;
    }
    r
}

/// Whether a configuration answers to a selector: a selector that starts
/// with `:` names a configuration by its full selector, any other by name.
pub open spec fn answers(selector: Seq<char>, c: ConfigurationCandidate) -> bool {
    if selector.len() > 0 && selector[0] == ':' {
        selector_text(c.project@, c.name@) == selector
    } else {
        c.name@ == selector
    }
}

/// The configurations among the first `k` that answer to `selector`.
pub open spec fn answering(selector: Seq<char>, values: Seq<ConfigurationCandidate>, k: nat) -> Seq<ConfigurationCandidate>
    decreases k,
{
    if k == 0 || k > values.len() {
        Seq::empty()
    } else {
        let init = answering(selector, values, (k - 1) as nat);
        if answers(selector, values[k - 1]) {
            init.push(values[k - 1])
        } else {
            init
        }
    }
}

/// The selectors of a list of configurations.
pub open spec fn selector_texts(values: Seq<ConfigurationCandidate>) -> Seq<Seq<char>> {
    Seq::new(values.len(), |i: int| selector_text(values[i].project@, values[i].name@))
}

/// The one configuration that answers to `selector`; none is an error, and
/// more than one is an error that lists them all.
pub fn resolve_selector(selector: &str, values: &[ConfigurationCandidate]) -> (r: Result<ConfigurationCandidate, GradleError>)
    ensures
        ({
            let m = answering(selector@, values@, values@.len());
            &&& m.len() == 1 ==> (r matches Ok(c) && c == m[0])
            &&& m.len() == 0 ==> (r matches Err(GradleError::MissingConfiguration(s)) && s@ == selector@)
            &&& m.len() > 1 ==> (r matches Err(GradleError::AmbiguousConfiguration { selector: s, candidates }) && s@ == selector@
                && candidates@ == join(selector_texts(m), ", "@))
        }),
{
    let sel = chars_of(selector);
    let qualified = sel.len() > 0 && sel[0] == ':';
    let mut matches: Vec<ConfigurationCandidate> = Vec::new();
    let mut i: usize = 0;
    while i < values.len()
        invariant
            i <= values@.len(),
            sel@ == selector@,
            qualified == (selector@.len() > 0 && selector@[0] == ':'),
            matches@ == answering(selector@, values@, i as nat),
        decreases values.len() - i,
    {
        let c = &values[i];
        let hit = if qualified {
            chars_equal(&chars_of(format_selector(c.project.as_str(), c.name.as_str()).as_str()), &sel)
        } else {
            chars_equal(&chars_of(c.name.as_str()), &sel)
        };
        if hit {
            matches.push(ConfigurationCandidate { project: c.project.clone(), name: c.name.clone() });
        }
        i += 1;
    }
    if matches.len() == 1 {
        return Ok(ConfigurationCandidate { project: matches[0].project.clone(), name: matches[0].name.clone() });
    }
    if matches.len() == 0 {
        return Err(GradleError::MissingConfiguration(selector.to_owned()));
    }
    let texts = configuration_selectors(&matches);
    assert(texts.deep_view() =~= selector_texts(matches@));
    Err(GradleError::AmbiguousConfiguration {
        selector: selector.to_owned(),
        candidates: join_strings(&texts, ", "),
    })
}

/// The Gradle project that inspections run in.
#[derive(Clone, Debug)]
pub struct GradleInspector {
    pub project_root: String,
}

impl GradleInspector {
    /// An inspector for the project rooted at `project_root`.
    pub fn new(project_root: String) -> (r: Self)
        ensures
            r.project_root == project_root,
    {
        GradleInspector { project_root }
    }
}

} // verus!
