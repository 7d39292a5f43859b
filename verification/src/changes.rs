//! Comparing the current catalog with a baseline catalog.

use vstd::prelude::*;
use crate::catalog::{Catalog, CatalogError, CatalogLibrary, catalog_error_text, opt_view};
use crate::model::{ChangeKind, ComponentId, LibraryChange};
use crate::text::{concat, lex_lt, lemma_lex_asymmetric, lemma_lex_irreflexive, lemma_lex_total, lemma_lex_transitive, str_less};

verus! {

/// Why the baseline catalog could not be compared.
#[derive(Clone, Debug)]
pub enum ChangeError {
    /// Git could not show the catalog at the baseline revision.
    Git { baseline: String, path: String, message: String },
    /// The baseline catalog is not a valid catalog.
    Catalog(CatalogError),
}

/// The sentence that describes a change error.
pub open spec fn change_error_text(e: ChangeError) -> Seq<char> {
    match e {
        ChangeError::Git { baseline, path, message } => "git could not read '"@ + path@ + "' from baseline '"@
            + baseline@ + "': "@ + message@,
        ChangeError::Catalog(error) => catalog_error_text(error),
    }
}

impl ChangeError {
    /// The error as a sentence.
    pub fn message(&self) -> (s: String)
        ensures
            s@ == change_error_text(*self),
    {
        match self {
            ChangeError::Git { baseline, path, message } => {
                proof {
                    reveal_strlit("git could not read '");
                    reveal_strlit("' from baseline '");
                    reveal_strlit("': ");
                }
                let s = concat("git could not read '", path.as_str());
                let s = concat(s.as_str(), "' from baseline '");
                let s = concat(s.as_str(), baseline.as_str());
                let s = concat(s.as_str(), "': ");
                concat(s.as_str(), message.as_str())
            },
            ChangeError::Catalog(error) => error.message(),
        }
    }
}

/// The last library declared under `alias` among the first `k`: a catalog
/// read as a map from alias to library keeps the last declaration.
pub open spec fn last_alias(libs: Seq<CatalogLibrary>, alias: Seq<char>, k: nat) -> Option<CatalogLibrary>
    decreases k,
{
    if k == 0 || k > libs.len() {
        None
    } else if libs[k - 1].alias@ == alias {
        Some(libs[k - 1])
    } else {
        last_alias(libs, alias, (k - 1) as nat)
    }
}

/// The library a catalog declares under `alias`.
pub open spec fn entry_of(c: Catalog, alias: Seq<char>) -> Option<CatalogLibrary> {
    last_alias(c.libraries@, alias, c.libraries@.len())
}

/// How an alias changed, given its baseline and current declarations.
pub open spec fn change_kind(old: Option<CatalogLibrary>, new: Option<CatalogLibrary>) -> Option<ChangeKind> {
    match (old, new) {
        (None, Some(_)) => Some(ChangeKind::Added),
        (Some(_), None) => Some(ChangeKind::Removed),
        (Some(o), Some(n)) => if o.module@ != n.module@ {
            Some(ChangeKind::ModuleChanged)
        } else if opt_view(o.requested_version) != opt_view(n.requested_version) {
            Some(ChangeKind::Updated)
        } else {
            None
        },
        (None, None) => None,
    }
}

/// The coordinate a declaration requests, when it names a version.
pub open spec fn component_of(lib: Option<CatalogLibrary>) -> Option<((Seq<char>, Seq<char>), Seq<char>)> {
    match lib {
        Some(l) => match l.requested_version {
            Some(v) => Some((l.module@, v@)),
            None => None,
        },
        None => None,
    }
}

pub type ChangeView = (Seq<char>, ChangeKind, Option<((Seq<char>, Seq<char>), Seq<char>)>, Option<((Seq<char>, Seq<char>), Seq<char>)>);

/// The change reported for `alias`, if any.
pub open spec fn change_for(baseline: Catalog, current: Catalog, alias: Seq<char>) -> Option<ChangeView> {
    let old = entry_of(baseline, alias);
    let new = entry_of(current, alias);
    match change_kind(old, new) {
        Some(kind) => Some((alias, kind, component_of(old), component_of(new))),
        None => None,
    }
}

pub open spec fn opt_component_view(c: Option<ComponentId>) -> Option<((Seq<char>, Seq<char>), Seq<char>)> {
    match c {
        Some(x) => Some(x@),
        None => None,
    }
}

/// The value of a change.
pub open spec fn change_view(c: LibraryChange) -> ChangeView {
    (c.alias@, c.kind, opt_component_view(c.baseline), opt_component_view(c.current))
}

/// The changes for `keys`, in the order of `keys`.
pub open spec fn changes_of(baseline: Catalog, current: Catalog, keys: Seq<Seq<char>>) -> Seq<ChangeView>
    decreases keys.len(),
{
    if keys.len() == 0 {
        Seq::empty()
    } else {
        let init = changes_of(baseline, current, keys.drop_last());
        match change_for(baseline, current, keys.last()) {
            Some(x) => init.push(x),
            None => init,
        }
    }
}

pub open spec fn declares(libs: Seq<CatalogLibrary>, alias: Seq<char>, k: nat) -> bool {
    exists|i: int| 0 <= i < k && #[trigger] libs[i].alias@ == alias
}

pub open spec fn strictly_sorted(keys: Seq<Seq<char>>) -> bool {
    forall|i: int, j: int| 0 <= i < j < keys.len() ==> lex_lt(#[trigger] keys[i], #[trigger] keys[j])
}

proof fn lemma_last_alias(libs: Seq<CatalogLibrary>, alias: Seq<char>, k: nat)
    requires
        k <= libs.len(),
    ensures
        last_alias(libs, alias, k) is Some <==> declares(libs, alias, k),
        last_alias(libs, alias, k) matches Some(l) ==> l.alias@ == alias,
    decreases k,
{
    if k > 0 {
        lemma_last_alias(libs, alias, (k - 1) as nat);
        if declares(libs, alias, k) && libs[k - 1].alias@ != alias {
            let i = choose|i: int| 0 <= i < k && #[trigger] libs[i].alias@ == alias;
            assert(declares(libs, alias, (k - 1) as nat));
        }
    }
}

/// The library declared under `alias`: the last one so declared.
fn find_alias<'a>(libs: &'a Vec<CatalogLibrary>, alias: &String) -> (r: Option<&'a CatalogLibrary>)
    ensures
        match r {
            Some(l) => last_alias(libs@, alias@, libs@.len()) == Some(*l),
            None => last_alias(libs@, alias@, libs@.len()) is None,
        },
{
    let mut k = libs.len();
    while k > 0
        invariant
            k <= libs@.len(),
            last_alias(libs@, alias@, libs@.len()) == last_alias(libs@, alias@, k as nat),
        decreases k,
    {
        if libs[k - 1].alias == *alias {
            return Some(&libs[k - 1]);
        }
        k -= 1;
    }
    None
}

/// Whether two optional strings hold the same text.
fn same_text(a: &Option<String>, b: &Option<String>) -> (r: bool)
    ensures
        r == (opt_view(*a) == opt_view(*b)),
{
    match (a, b) {
        (Some(x), Some(y)) => *x == *y,
        (None, None) => true,
        _ => false,
    }
}

/// The coordinate a declaration requests, when it names a version.
fn component(library: &CatalogLibrary) -> (r: Option<ComponentId>)
    ensures
        opt_component_view(r) == component_of(Some(*library)),
{
    match &library.requested_version {
        Some(version) => Some(ComponentId { module: library.module.duplicate(), version: version.clone() }),
        None => None,
    }
}

fn optional_component(library: Option<&CatalogLibrary>) -> (r: Option<ComponentId>)
    ensures
        opt_component_view(r) == component_of(
            match library {
                Some(l) => Some(*l),
                None => None,
            },
        ),
{
    match library {
        Some(l) => component(l),
        None => None,
    }
}

/// Adds `alias` to the strictly sorted `keys` unless it is there.
fn insert_key(keys: &mut Vec<String>, alias: &String)
    requires
        strictly_sorted(old(keys).deep_view()),
    ensures
        strictly_sorted(final(keys).deep_view()),
        forall|a: Seq<char>| #[trigger] final(keys).deep_view().contains(a) <==> (old(keys).deep_view().contains(a) || a == alias@),
{
    let ghost kv = keys.deep_view();
    let mut k: usize = 0;
    while k < keys.len() && str_less(keys[k].as_str(), alias.as_str())
        invariant
            k <= keys@.len(),
            keys.deep_view() == kv,
            forall|j: int| 0 <= j < k ==> lex_lt(#[trigger] kv[j], alias@),
        decreases keys.len() - k,
    {
        assert(kv[k as int] == keys@[k as int]@);
        k += 1;
    }
    if k < keys.len() {
        assert(kv[k as int] == keys@[k as int]@);
        if keys[k] == *alias {
            return;
        }
        proof {
            lemma_lex_total(kv[k as int], alias@);
        }
    }
    keys.insert(k, alias.clone());
    let ghost nv = keys.deep_view();
    assert(nv =~= kv.insert(k as int, alias@));
    assert forall|i: int, j: int| 0 <= i < j < nv.len() implies lex_lt(#[trigger] nv[i], #[trigger] nv[j]) by {
        if j < k {
        } else if j == k {
        } else if i < k {
            assert(nv[j] == kv[j - 1]);
            lemma_lex_transitive(nv[i], alias@, kv[k as int]);
            if j - 1 > k {
                lemma_lex_transitive(nv[i], kv[k as int], kv[j - 1]);
            }
        } else if i == k {
            assert(nv[j] == kv[j - 1]);
            if j - 1 > k {
                lemma_lex_transitive(alias@, kv[k as int], kv[j - 1]);
            }
        } else {
            assert(nv[i] == kv[i - 1] && nv[j] == kv[j - 1]);
        }
    }
    assert forall|a: Seq<char>| #[trigger] nv.contains(a) <==> (kv.contains(a) || a == alias@) by {
        if nv.contains(a) {
            let i = choose|i: int| 0 <= i < nv.len() && nv[i] == a;
            if i < k {
                assert(kv[i] == a);
            } else if i > k {
                assert(kv[i - 1] == a);
            }
        }
        if kv.contains(a) {
            let i = choose|i: int| 0 <= i < kv.len() && kv[i] == a;
            if i < k {
                assert(nv[i] == a);
            } else {
                assert(nv[i + 1] == a);
            }
        }
        if a == alias@ {
            assert(nv[k as int] == a);
        }
    }
}

/// Every alias either catalog declares, sorted, once each.
fn all_aliases(baseline: &Catalog, current: &Catalog) -> (keys: Vec<String>)
    ensures
        strictly_sorted(keys.deep_view()),
        forall|a: Seq<char>|
            #[trigger] keys.deep_view().contains(a) <==> (declares(
                baseline.libraries@,
                a,
                baseline.libraries@.len(),
            ) || declares(current.libraries@, a, current.libraries@.len())),
{
    let mut keys: Vec<String> = Vec::new();
    let mut i: usize = 0;
    while i < baseline.libraries.len()
        invariant
            i <= baseline.libraries@.len(),
            strictly_sorted(keys.deep_view()),
            forall|a: Seq<char>| #[trigger] keys.deep_view().contains(a) <==> declares(baseline.libraries@, a, i as nat),
        decreases baseline.libraries.len() - i,
    {
        insert_key(&mut keys, &baseline.libraries[i].alias);
        assert forall|a: Seq<char>| #[trigger] keys.deep_view().contains(a) <==> declares(baseline.libraries@, a, (i + 1) as nat) by {
            if declares(baseline.libraries@, a, (i + 1) as nat) && a != baseline.libraries@[i as int].alias@ {
                let w = choose|w: int| 0 <= w < i + 1 && #[trigger] baseline.libraries@[w].alias@ == a;
                assert(declares(baseline.libraries@, a, i as nat));
            }
        }
        i += 1;
    }
    let mut j: usize = 0;
    while j < current.libraries.len()
        invariant
            j <= current.libraries@.len(),
            strictly_sorted(keys.deep_view()),
            forall|a: Seq<char>| #[trigger] keys.deep_view().contains(a) <==> (declares(
                baseline.libraries@,
                a,
                baseline.libraries@.len(),
            ) || declares(current.libraries@, a, j as nat)),
        decreases current.libraries.len() - j,
    {
        insert_key(&mut keys, &current.libraries[j].alias);
        assert forall|a: Seq<char>| #[trigger] keys.deep_view().contains(a) <==> (declares(
            baseline.libraries@,
            a,
            baseline.libraries@.len(),
        ) || declares(current.libraries@, a, (j + 1) as nat)) by {
            if declares(current.libraries@, a, (j + 1) as nat) && a != current.libraries@[j as int].alias@ {
                let w = choose|w: int| 0 <= w < j + 1 && #[trigger] current.libraries@[w].alias@ == a;
                assert(declares(current.libraries@, a, j as nat));
            }
        }
        j += 1;
    }
    keys
}

proof fn lemma_changes_members(baseline: Catalog, current: Catalog, keys: Seq<Seq<char>>)
    ensures
        forall|i: int|
            0 <= i < changes_of(baseline, current, keys).len() ==> {
                &&& exists|j: int| 0 <= j < keys.len() && keys[j] == (#[trigger] changes_of(baseline, current, keys)[i]).0
                &&& change_for(baseline, current, changes_of(baseline, current, keys)[i].0) == Some(
                    changes_of(baseline, current, keys)[i],
                )
            },
        forall|j: int|
            0 <= j < keys.len() && (#[trigger] change_for(baseline, current, keys[j])) is Some ==> exists|i: int|
                0 <= i < changes_of(baseline, current, keys).len() && changes_of(baseline, current, keys)[i].0 == keys[j],
    decreases keys.len(),
{
    if keys.len() > 0 {
        let init_keys = keys.drop_last();
        lemma_changes_members(baseline, current, init_keys);
        let init = changes_of(baseline, current, init_keys);
        let r = changes_of(baseline, current, keys);
        assert forall|i: int| 0 <= i < r.len() implies {
            &&& exists|j: int| 0 <= j < keys.len() && keys[j] == (#[trigger] r[i]).0
            &&& change_for(baseline, current, r[i].0) == Some(r[i])
        } by {
            if i < init.len() {
                assert(r[i] == init[i]);
                let j = choose|j: int| 0 <= j < init_keys.len() && init_keys[j] == init[i].0;
                assert(keys[j] == init_keys[j]);
            } else {
                assert(keys[keys.len() - 1] == r[i].0);
            }
        }
        assert forall|j: int| 0 <= j < keys.len() && (#[trigger] change_for(baseline, current, keys[j])) is Some implies exists|i: int|
            0 <= i < r.len() && r[i].0 == keys[j] by {
            if j < keys.len() - 1 {
                assert(init_keys[j] == keys[j]);
                assert(change_for(baseline, current, init_keys[j]) is Some);
                let i = choose|i: int| 0 <= i < init.len() && init[i].0 == init_keys[j];
                assert(r[i] == init[i]);
            } else {
                assert(r[r.len() - 1].0 == keys[j]);
            }
        }
    }
}

proof fn lemma_changes_sorted(baseline: Catalog, current: Catalog, keys: Seq<Seq<char>>)
    requires
        strictly_sorted(keys),
    ensures
        forall|i: int, j: int|
            0 <= i < j < changes_of(baseline, current, keys).len() ==> lex_lt(
                (#[trigger] changes_of(baseline, current, keys)[i]).0,
                (#[trigger] changes_of(baseline, current, keys)[j]).0,
            ),
    decreases keys.len(),
{
    if keys.len() > 0 {
        let init_keys = keys.drop_last();
        assert(strictly_sorted(init_keys)) by {
            assert forall|i: int, j: int| 0 <= i < j < init_keys.len() implies lex_lt(
                #[trigger] init_keys[i],
                #[trigger] init_keys[j],
            ) by {
                assert(init_keys[i] == keys[i] && init_keys[j] == keys[j]);
            }
        }
        lemma_changes_sorted(baseline, current, init_keys);
        lemma_changes_members(baseline, current, init_keys);
        let init = changes_of(baseline, current, init_keys);
        let r = changes_of(baseline, current, keys);
        assert forall|i: int, j: int| 0 <= i < j < r.len() implies lex_lt(
            (#[trigger] r[i]).0,
            (#[trigger] r[j]).0,
        ) by {
            if j < init.len() {
                assert(r[i] == init[i] && r[j] == init[j]);
            } else {
                assert(r[i] == init[i]);
                let w = choose|w: int| 0 <= w < init_keys.len() && init_keys[w] == init[i].0;
                assert(keys[w] == init_keys[w]);
                assert(lex_lt(keys[w], keys[keys.len() - 1]));
            }
        }
    }
}

/// The changes between the baseline and the current catalog, one per alias
/// whose declaration was added, removed, moved to another module or given
/// another version, in alias order; unchanged aliases are left out.
pub fn compare(baseline: &Catalog, current: &Catalog) -> (r: Vec<LibraryChange>)
    ensures
        forall|i: int, j: int|
            0 <= i < j < r@.len() ==> lex_lt((#[trigger] r@[i]).alias@, (#[trigger] r@[j]).alias@),
        forall|i: int|
            0 <= i < r@.len() ==> change_for(*baseline, *current, (#[trigger] r@[i]).alias@) == Some(
                change_view(r@[i]),
            ),
        forall|a: Seq<char>|
            (#[trigger] change_for(*baseline, *current, a)) is Some ==> exists|i: int|
                0 <= i < r@.len() && r@[i].alias@ == a,
{
    let keys = all_aliases(baseline, current);
    let ghost kv = keys.deep_view();
    let mut r: Vec<LibraryChange> = Vec::new();
    let mut t: usize = 0;
    while t < keys.len()
        invariant
            t <= keys@.len(),
            kv == keys.deep_view(),
            r@.len() == changes_of(*baseline, *current, kv.take(t as int)).len(),
            forall|i: int|
                0 <= i < r@.len() ==> change_view(#[trigger] r@[i]) == changes_of(
                    *baseline,
                    *current,
                    kv.take(t as int),
                )[i],
        decreases keys.len() - t,
    {
        let alias = &keys[t];
        assert(kv[t as int] == alias@);
        assert(kv.take(t + 1).drop_last() =~= kv.take(t as int));
        let old = find_alias(&baseline.libraries, alias);
        let new = find_alias(&current.libraries, alias);
        let kind = match (old, new) {
            (None, Some(_)) => Some(ChangeKind::Added),
            (Some(_), None) => Some(ChangeKind::Removed),
            (Some(o), Some(n)) => {
                if !o.module.same(&n.module) {
                    Some(ChangeKind::ModuleChanged)
                } else if !same_text(&o.requested_version, &n.requested_version) {
                    Some(ChangeKind::Updated)
                } else {
                    None
                }
            },
            (None, None) => None,
        };
        if let Some(kind) = kind {
            let change = LibraryChange {
                alias: alias.clone(),
                kind,
                baseline: optional_component(old),
                current: optional_component(new),
            };
            let ghost before = r@;
            r.push(change);
            assert forall|i: int| 0 <= i < r@.len() implies change_view(#[trigger] r@[i]) == changes_of(
                *baseline,
                *current,
                kv.take(t + 1),
            )[i] by {
                if i < before.len() {
                    assert(r@[i] == before[i]);
                }
            }
        }
        t += 1;
    }
    assert(kv.take(kv.len() as int) =~= kv);
    proof {
        lemma_changes_members(*baseline, *current, kv);
        lemma_changes_sorted(*baseline, *current, kv);
        let ch = changes_of(*baseline, *current, kv);
        assert forall|i: int, j: int| 0 <= i < j < r@.len() implies lex_lt(
            (#[trigger] r@[i]).alias@,
            (#[trigger] r@[j]).alias@,
        ) by {
            assert(change_view(r@[i]) == ch[i] && change_view(r@[j]) == ch[j]);
        }
        assert forall|i: int| 0 <= i < r@.len() implies change_for(*baseline, *current, (#[trigger] r@[i]).alias@) == Some(
            change_view(r@[i]),
        ) by {
            assert(change_view(r@[i]) == ch[i]);
        }
        assert forall|a: Seq<char>| (#[trigger] change_for(*baseline, *current, a)) is Some implies exists|i: int|
            0 <= i < r@.len() && r@[i].alias@ == a by {
            lemma_last_alias(baseline.libraries@, a, baseline.libraries@.len());
            lemma_last_alias(current.libraries@, a, current.libraries@.len());
            assert(kv.contains(a));
            let j = choose|j: int| 0 <= j < kv.len() && kv[j] == a;
            assert(change_for(*baseline, *current, kv[j]) is Some);
            let i = choose|i: int| 0 <= i < ch.len() && ch[i].0 == kv[j];
            assert(change_view(r@[i]) == ch[i]);
        }
    }
    r
}

/// A catalog compared with itself has no changes.
pub proof fn lemma_no_changes_against_itself(c: Catalog, alias: Seq<char>)
    ensures
        change_for(c, c, alias) is None,
{
}

/// Comparing in the other direction swaps additions and removals and keeps
/// module and version changes.
pub proof fn lemma_compare_reversed(baseline: Catalog, current: Catalog, alias: Seq<char>)
    ensures
        (change_for(baseline, current, alias) matches Some(x) && x.1 == ChangeKind::Added) <==> (change_for(
            current,
            baseline,
            alias,
        ) matches Some(y) && y.1 == ChangeKind::Removed),
        (change_for(baseline, current, alias) matches Some(x) && x.1 == ChangeKind::ModuleChanged) <==> (
        change_for(current, baseline, alias) matches Some(y) && y.1 == ChangeKind::ModuleChanged),
        (change_for(baseline, current, alias) matches Some(x) && x.1 == ChangeKind::Updated) <==> (change_for(
            current,
            baseline,
            alias,
        ) matches Some(y) && y.1 == ChangeKind::Updated),
{
}


/// What each kind of change means.  An alias declared in both catalogs with
/// different modules is a module change, whatever its versions; with the same
/// module and different requested versions, an update; declared only in the
/// current catalog, an addition; only in the baseline, a removal; declared
/// the same in both, or in neither, it is not reported.  A reported change
/// carries the baseline and current coordinates of the declarations.
pub proof fn lemma_change_kinds(baseline: Catalog, current: Catalog, alias: Seq<char>)
    ensures
        entry_of(baseline, alias) matches Some(o) && entry_of(current, alias) matches Some(n) && o.module@ != n.module@
            ==> (change_for(baseline, current, alias) matches Some(x) && x.1 == ChangeKind::ModuleChanged),
        entry_of(baseline, alias) matches Some(o) && entry_of(current, alias) matches Some(n) && o.module@ == n.module@
            && opt_view(o.requested_version) != opt_view(n.requested_version) ==> (change_for(
            baseline,
            current,
            alias,
        ) matches Some(x) && x.1 == ChangeKind::Updated),
        entry_of(baseline, alias) is None && entry_of(current, alias) is Some ==> (change_for(
            baseline,
            current,
            alias,
        ) matches Some(x) && x.1 == ChangeKind::Added),
        entry_of(baseline, alias) is Some && entry_of(current, alias) is None ==> (change_for(
            baseline,
            current,
            alias,
        ) matches Some(x) && x.1 == ChangeKind::Removed),
        change_for(baseline, current, alias) is None <==> (entry_of(baseline, alias) == None::<CatalogLibrary>
            && entry_of(current, alias) == None::<CatalogLibrary>) || (entry_of(baseline, alias) matches Some(o)
            && entry_of(current, alias) matches Some(n) && o.module@ == n.module@ && opt_view(o.requested_version)
            == opt_view(n.requested_version)),
        change_for(baseline, current, alias) matches Some(x) ==> x.0 == alias && x.2 == (match entry_of(
            baseline,
            alias,
        ) {
            Some(o) => match o.requested_version {
                Some(v) => Some((o.module@, v@)),
                None => None,
            },
            None => None,
        }) && x.3 == (match entry_of(current, alias) {
            Some(n) => match n.requested_version {
                Some(v) => Some((n.module@, v@)),
                None => None,
            },
            None => None,
        }),
{
}

proof fn lemma_last_declaration(libs: Seq<CatalogLibrary>, alias: Seq<char>, k: nat)
    requires
        k <= libs.len(),
    ensures
        last_alias(libs, alias, k) is None <==> forall|i: int| 0 <= i < k ==> (#[trigger] libs[i]).alias@ != alias,
        last_alias(libs, alias, k) matches Some(l) ==> exists|i: int|
            0 <= i < k && #[trigger] libs[i] == l && l.alias@ == alias && forall|j: int|
                i < j < k ==> (#[trigger] libs[j]).alias@ != alias,
    decreases k,
{
    if k > 0 {
        lemma_last_declaration(libs, alias, (k - 1) as nat);
        if libs[k - 1].alias@ == alias {
            assert(libs[k - 1] == last_alias(libs, alias, k)->Some_0);
        } else if last_alias(libs, alias, k) is Some {
            let l = last_alias(libs, alias, k)->Some_0;
            let i = choose|i: int|
                0 <= i < k - 1 && #[trigger] libs[i] == l && l.alias@ == alias && forall|j: int|
                    i < j < k - 1 ==> (#[trigger] libs[j]).alias@ != alias;
            assert forall|j: int| i < j < k implies (#[trigger] libs[j]).alias@ != alias by {
                if j < k - 1 {
                }
            }
        }
    }
}

/// A catalog read as a map from alias to library: the declaration of an
/// alias is its last one in the catalog, and an alias it never declares has
/// none.
pub proof fn lemma_entry_is_last_declaration(c: Catalog, alias: Seq<char>)
    ensures
        entry_of(c, alias) is None <==> forall|i: int| 0 <= i < c.libraries@.len() ==> (#[trigger] c.libraries@[i]).alias@ != alias,
        entry_of(c, alias) matches Some(l) ==> exists|i: int|
            0 <= i < c.libraries@.len() && #[trigger] c.libraries@[i] == l && l.alias@ == alias && forall|j: int|
                i < j < c.libraries@.len() ==> (#[trigger] c.libraries@[j]).alias@ != alias,
{
    lemma_last_declaration(c.libraries@, alias, c.libraries@.len());
}

} // verus!
