//! Version catalogs: the libraries a catalog declares, normalised.
//!
//! Reading the TOML is done outside the library; what it yields is handed
//! over as a `RawCatalog`, whose entries mirror the catalog's `[versions]` and
//! `[libraries]` tables in key order.

use vstd::prelude::*;
use crate::model::{ModuleId, component_text, module_text, lemma_component_text_splits, lemma_module_text_splits};
use crate::text::{chars_of, concat, lex_lt, split_chars, split_on};

verus! {

/// A normalised catalog.
#[derive(Clone, Debug)]
pub struct Catalog {
    pub libraries: Vec<CatalogLibrary>,
}

/// One `[libraries]` entry: its alias, module and requested version.
#[derive(Clone, Debug)]
pub struct CatalogLibrary {
    pub alias: String,
    pub module: ModuleId,
    pub requested_version: Option<String>,
}

/// Why a catalog could not be used.
#[derive(Clone, Debug)]
pub enum CatalogError {
    /// The catalog file could not be read.
    Read { path: String, message: String },
    /// The catalog is not valid TOML for a version catalog.
    Toml(String),
    /// A library entry could not be normalised.
    Library { alias: String, message: String },
}

/// The sentence that describes a catalog error.
pub open spec fn catalog_error_text(e: CatalogError) -> Seq<char> {
    match e {
        CatalogError::Read { path, message } => "cannot read catalog "@ + path@ + ": "@ + message@,
        CatalogError::Toml(message) => "invalid catalog TOML: "@ + message@,
        CatalogError::Library { alias, message } => "library '"@ + alias@ + "': "@ + message@,
    }
}

impl CatalogError {
    /// The error as a sentence.
    pub fn message(&self) -> (s: String)
        ensures
            s@ == catalog_error_text(*self),
    {
        match self {
            CatalogError::Read { path, message } => {
                let s = concat("cannot read catalog ", path.as_str());
                let s = concat(s.as_str(), ": ");
                concat(s.as_str(), message.as_str())
            },
            CatalogError::Toml(message) => concat("invalid catalog TOML: ", message.as_str()),
            CatalogError::Library { alias, message } => {
                let s = concat("library '", alias.as_str());
                let s = concat(s.as_str(), "': ");
                concat(s.as_str(), message.as_str())
            },
        }
    }
}

/// A rich version declaration; the first present of `strictly`, `require`
/// and `prefer` is the requested version.
#[derive(Clone, Debug)]
pub struct RichVersion {
    pub strictly: Option<String>,
    pub require: Option<String>,
    pub prefer: Option<String>,
}

/// A `[versions]` value.
#[derive(Clone, Debug)]
pub enum VersionValue {
    Simple(String),
    Rich(RichVersion),
}

/// A `[libraries]` value.
#[derive(Clone, Debug)]
pub enum LibraryValue {
    /// `"group:name:version"`.
    Coordinate(String),
    Table(LibraryTable),
}

/// A `[libraries]` table value.
#[derive(Clone, Debug)]
pub struct LibraryTable {
    pub module: Option<String>,
    pub group: Option<String>,
    pub name: Option<String>,
    pub version: Option<VersionSpec>,
}

/// The `version` of a library table.
#[derive(Clone, Debug)]
pub enum VersionSpec {
    Simple(String),
    Ref { reference: String },
    Rich(RichVersion),
}

/// A catalog as read: `[versions]` and `[libraries]` entries in key order.
#[derive(Clone, Debug)]
pub struct RawCatalog {
    pub versions: Vec<(String, VersionValue)>,
    pub libraries: Vec<(String, LibraryValue)>,
}

pub open spec fn opt_view(o: Option<String>) -> Option<Seq<char>> {
    match o {
        Some(s) => Some(s@),
        None => None,
    }
}

/// The requested version of a rich declaration.
pub open spec fn spec_rich_value(r: RichVersion) -> Option<Seq<char>> {
    if r.strictly is Some {
        opt_view(r.strictly)
    } else if r.require is Some {
        opt_view(r.require)
    } else {
        opt_view(r.prefer)
    }
}

/// The requested version a `[versions]` value gives.
pub open spec fn spec_version_value(v: VersionValue) -> Option<Seq<char>> {
    match v {
        VersionValue::Simple(s) => Some(s@),
        VersionValue::Rich(r) => spec_rich_value(r),
    }
}

/// The first `[versions]` entry under `key`, among the first `k`.
pub open spec fn lookup_version(versions: Seq<(String, VersionValue)>, key: Seq<char>, k: nat) -> Option<VersionValue>
    decreases k,
{
    if k == 0 || k > versions.len() {
        None
    } else {
        match lookup_version(versions, key, (k - 1) as nat) {
            Some(v) => Some(v),
            None => if versions[k - 1].0@ == key {
                Some(versions[k - 1].1)
            } else {
                None
            },
        }
    }
}

/// `pieces` has exactly `n` pieces, none empty.
pub open spec fn all_filled(pieces: Seq<Seq<char>>, n: nat) -> bool {
    pieces.len() == n && forall|i: int| 0 <= i < pieces.len() ==> #[trigger] pieces[i].len() > 0
}

/// The module of a `group:name` text.
pub open spec fn spec_parse_module(text: Seq<char>) -> Option<(Seq<char>, Seq<char>)> {
    let pieces = split_on(text, ':');
    if all_filled(pieces, 2) {
        Some((pieces[0], pieces[1]))
    } else {
        None
    }
}

pub open spec fn msg_coordinate() -> Seq<char> {
    "expected 'group:name:version'"@
}

pub open spec fn msg_module() -> Seq<char> {
    "expected module 'group:name'"@
}

pub open spec fn msg_table() -> Seq<char> {
    "expected module or group plus name"@
}

pub open spec fn msg_reference(reference: Seq<char>) -> Seq<char> {
    "version reference '"@ + reference + "' is missing or empty"@
}

/// What a library entry normalises to: its module and requested version, or
/// the message of the error it is refused with.
pub open spec fn spec_normalize(value: LibraryValue, versions: Seq<(String, VersionValue)>) -> Result<
    ((Seq<char>, Seq<char>), Option<Seq<char>>),
    Seq<char>,
> {
    match value {
        LibraryValue::Coordinate(c) => {
            let pieces = split_on(c@, ':');
            if all_filled(pieces, 3) {
                Ok(((pieces[0], pieces[1]), Some(pieces[2])))
            } else {
                Err(msg_coordinate())
            }
        },
        LibraryValue::Table(t) => {
            let module: Result<(Seq<char>, Seq<char>), Seq<char>> = match (t.module, t.group, t.name) {
                (Some(m), None, None) => match spec_parse_module(m@) {
                    Some(id) => Ok(id),
                    None => Err(msg_module()),
                },
                (None, Some(group), Some(name)) => if group@.len() > 0 && name@.len() > 0 {
                    Ok((group@, name@))
                } else {
                    Err(msg_table())
                },
                _ => Err(msg_table()),
            };
            match module {
                Err(msg) => Err(msg),
                Ok(id) => match t.version {
                    None => Ok((id, None)),
                    Some(VersionSpec::Simple(v)) => Ok((id, Some(v@))),
                    Some(VersionSpec::Rich(r)) => Ok((id, spec_rich_value(r))),
                    Some(VersionSpec::Ref { reference }) => match lookup_version(
                        versions,
                        reference@,
                        versions.len(),
                    ) {
                        Some(v) => match spec_version_value(v) {
                            Some(version) => Ok((id, Some(version))),
                            None => Err(msg_reference(reference@)),
                        },
                        None => Err(msg_reference(reference@)),
                    },
                },
            }
        },
    }
}

/// The library normalised from `alias` and `value` matches `spec`.
pub open spec fn library_matches(
    lib: CatalogLibrary,
    alias: Seq<char>,
    spec: ((Seq<char>, Seq<char>), Option<Seq<char>>),
) -> bool {
    &&& lib.alias@ == alias
    &&& lib.module@ == spec.0
    &&& opt_view(lib.requested_version) == spec.1
}

/// The requested version of a rich declaration: `strictly`, else `require`,
/// else `prefer`.
fn rich_value(value: &RichVersion) -> (r: Option<String>)
    ensures
        opt_view(r) == spec_rich_value(*value),
{
    match &value.strictly {
        Some(v) => Some(v.clone()),
        None => match &value.require {
            Some(v) => Some(v.clone()),
            None => match &value.prefer {
                Some(v) => Some(v.clone()),
                None => None,
            },
        },
    }
}

/// The requested version a `[versions]` value gives.
fn version_value(value: &VersionValue) -> (r: Option<String>)
    ensures
        opt_view(r) == spec_version_value(*value),
{
    match value {
        VersionValue::Simple(v) => Some(v.clone()),
        VersionValue::Rich(r) => rich_value(r),
    }
}

/// The first `[versions]` value under `key`.
fn find_version<'a>(versions: &'a Vec<(String, VersionValue)>, key: &String) -> (r: Option<&'a VersionValue>)
    ensures
        match r {
            Some(v) => lookup_version(versions@, key@, versions@.len()) == Some(*v),
            None => lookup_version(versions@, key@, versions@.len()) is None,
        },
{
    let mut i: usize = 0;
    while i < versions.len()
        invariant
            i <= versions@.len(),
            lookup_version(versions@, key@, i as nat) is None,
        decreases versions.len() - i,
    {
        if versions[i].0 == *key {
            proof {
                lemma_lookup_found(versions@, key@, (i + 1) as nat, versions@.len());
            }
            return Some(&versions[i].1);
        }
        i += 1;
    }
    None
}

proof fn lemma_lookup_found(versions: Seq<(String, VersionValue)>, key: Seq<char>, k: nat, m: nat)
    requires
        k <= m <= versions.len(),
        lookup_version(versions, key, k) is Some,
    ensures
        lookup_version(versions, key, m) == lookup_version(versions, key, k),
    decreases m - k,
{
    if m > k {
        lemma_lookup_found(versions, key, k, (m - 1) as nat);
    }
}

/// Whether every piece is filled and there are exactly `n`.
fn pieces_filled(pieces: &Vec<String>, n: usize) -> (r: bool)
    ensures
        r == all_filled(pieces.deep_view(), n as nat),
{
    if pieces.len() != n {
        return false;
    }
    let mut i: usize = 0;
    while i < pieces.len()
        invariant
            i <= pieces@.len(),
            forall|j: int| 0 <= j < i ==> #[trigger] pieces.deep_view()[j].len() > 0,
        decreases pieces.len() - i,
    {
        assert(pieces.deep_view()[i as int] == pieces@[i as int]@);
        if pieces[i].as_str().is_empty() {
            return false;
        }
        i += 1;
    }
    true
}

fn library_error<T>(alias: &String, message: &str) -> (r: Result<T, CatalogError>)
    ensures
        r matches Err(CatalogError::Library { alias: a, message: m }) && a@ == alias@ && m@
            == message@,
{
    Err(CatalogError::Library { alias: alias.clone(), message: message.to_owned() })
}

/// The module of a `group:name` text.
fn parse_module(alias: &String, value: &String) -> (r: Result<ModuleId, CatalogError>)
    ensures
        match spec_parse_module(value@) {
            Some(id) => r matches Ok(m) && m@ == id,
            None => r matches Err(CatalogError::Library { alias: a, message: m }) && a@ == alias@
                && m@ == msg_module(),
        },
{
    let pieces = split_chars(&chars_of(value.as_str()), ':');
    if !pieces_filled(&pieces, 2) {
        proof {
            reveal_strlit("expected module 'group:name'");
        }
        return library_error(alias, "expected module 'group:name'");
    }
    Ok(ModuleId { group: pieces[0].clone(), name: pieces[1].clone() })
}

/// Normalises one `[libraries]` entry.
fn normalize(alias: &String, value: &LibraryValue, versions: &Vec<(String, VersionValue)>) -> (r:
    Result<CatalogLibrary, CatalogError>)
    ensures
        match spec_normalize(*value, versions@) {
            Ok(spec) => r matches Ok(lib) && library_matches(lib, alias@, spec),
            Err(msg) => r matches Err(CatalogError::Library { alias: a, message: m }) && a@
                == alias@ && m@ == msg,
        },
{
    match value {
        LibraryValue::Coordinate(coordinate) => {
            let pieces = split_chars(&chars_of(coordinate.as_str()), ':');
            if !pieces_filled(&pieces, 3) {
                proof {
                    reveal_strlit("expected 'group:name:version'");
                }
                return library_error(alias, "expected 'group:name:version'");
            }
            Ok(
                CatalogLibrary {
                    alias: alias.clone(),
                    module: ModuleId { group: pieces[0].clone(), name: pieces[1].clone() },
                    requested_version: Some(pieces[2].clone()),
                },
            )
        },
        LibraryValue::Table(table) => {
            proof {
                reveal_strlit("expected module or group plus name");
            }
            let module = match (&table.module, &table.group, &table.name) {
                (Some(module), None, None) => parse_module(alias, module)?,
                (None, Some(group), Some(name)) => {
                    if group.as_str().is_empty() || name.as_str().is_empty() {
                        return library_error(alias, "expected module or group plus name");
                    }
                    ModuleId { group: group.clone(), name: name.clone() }
                },
                _ => {
                    return library_error(alias, "expected module or group plus name");
                },
            };
            let version = match &table.version {
                None => None,
                Some(VersionSpec::Simple(value)) => Some(value.clone()),
                Some(VersionSpec::Rich(value)) => rich_value(value),
                Some(VersionSpec::Ref { reference }) => {
                    let found = match find_version(versions, reference) {
                        Some(v) => version_value(v),
                        None => None,
                    };
                    match found {
                        Some(v) => Some(v),
                        None => {
                            proof {
                                reveal_strlit("version reference '");
                                reveal_strlit("' is missing or empty");
                            }
                            let message = concat("version reference '", reference.as_str());
                            let message = concat(message.as_str(), "' is missing or empty");
                            return Err(CatalogError::Library { alias: alias.clone(), message });
                        },
                    }
                },
            };
            Ok(CatalogLibrary { alias: alias.clone(), module, requested_version: version })
        },
    }
}

/// The catalog normalised from the first `k` library entries: each entry's
/// alias with its module and requested version, or the alias and message of
/// the first entry that is refused.
pub open spec fn spec_catalog(raw: RawCatalog, k: nat) -> Result<
    Seq<(Seq<char>, ((Seq<char>, Seq<char>), Option<Seq<char>>))>,
    (Seq<char>, Seq<char>),
>
    decreases k,
{
    if k == 0 || k > raw.libraries@.len() {
        Ok(Seq::empty())
    } else {
        match spec_catalog(raw, (k - 1) as nat) {
            Err(e) => Err(e),
            Ok(done) => {
                let (alias, value) = raw.libraries@[k - 1];
                match spec_normalize(value, raw.versions@) {
                    Ok(lib) => Ok(done.push((alias@, lib))),
                    Err(msg) => Err((alias@, msg)),
                }
            },
        }
    }
}

/// Normalises every library entry of a catalog, in entry (alias) order; the
/// first entry that cannot be normalised makes the whole catalog an error.
pub fn normalize_catalog(raw: &RawCatalog) -> (r: Result<Catalog, CatalogError>)
    ensures
        match spec_catalog(*raw, raw.libraries@.len()) {
            Ok(libs) => r matches Ok(c) && c.libraries@.len() == libs.len() && forall|i: int|
                0 <= i < libs.len() ==> library_matches(
                    #[trigger] c.libraries@[i],
                    libs[i].0,
                    libs[i].1,
                ),
            Err((alias, msg)) => r matches Err(CatalogError::Library { alias: a, message: m })
                && a@ == alias && m@ == msg,
        },
{
    let mut libraries: Vec<CatalogLibrary> = Vec::new();
    let mut i: usize = 0;
    while i < raw.libraries.len()
        invariant
            i <= raw.libraries@.len(),
            spec_catalog(*raw, i as nat) matches Ok(libs) && libraries@.len() == libs.len()
                && forall|j: int|
                0 <= j < libs.len() ==> library_matches(#[trigger] libraries@[j], libs[j].0, libs[j].1),
        decreases raw.libraries.len() - i,
    {
        let (alias, value) = &raw.libraries[i];
        let ghost done = spec_catalog(*raw, i as nat)->Ok_0;
        match normalize(alias, value, &raw.versions) {
            Ok(library) => {
                libraries.push(library);
                assert(spec_catalog(*raw, (i + 1) as nat) matches Ok(libs) && libs == done.push(
                    (alias@, spec_normalize(*value, raw.versions@)->Ok_0),
                ));
            },
            Err(error) => {
                proof {
                    lemma_catalog_error_stays(*raw, (i + 1) as nat, raw.libraries@.len());
                }
                return Err(error);
            },
        }
        i += 1;
    }
    Ok(Catalog { libraries })
}

proof fn lemma_catalog_error_stays(raw: RawCatalog, k: nat, m: nat)
    requires
        k <= m <= raw.libraries@.len(),
        spec_catalog(raw, k) is Err,
    ensures
        spec_catalog(raw, m) == spec_catalog(raw, k),
    decreases m - k,
{
    if m > k {
        lemma_catalog_error_stays(raw, k, (m - 1) as nat);
    }
}

/// A coordinate written as `group:name:version` normalises back to its
/// module and version, when its parts are filled and free of `:`.
pub proof fn lemma_coordinate_round_trip(
    c: ((Seq<char>, Seq<char>), Seq<char>),
    text: String,
    versions: Seq<(String, VersionValue)>,
)
    requires
        text@ == component_text(c),
        c.0.0.len() > 0 && c.0.1.len() > 0 && c.1.len() > 0,
        !c.0.0.contains(':') && !c.0.1.contains(':') && !c.1.contains(':'),
    ensures
        spec_normalize(LibraryValue::Coordinate(text), versions) == Ok::<_, Seq<char>>((c.0, Some(c.1))),
{
    lemma_component_text_splits(c);
    let pieces = split_on(text@, ':');
    assert(all_filled(pieces, 3));
}

/// A module written as `group:name` reads back as that module, when both
/// parts are filled and free of `:`.
pub proof fn lemma_module_round_trip(m: (Seq<char>, Seq<char>))
    requires
        m.0.len() > 0 && m.1.len() > 0,
        !m.0.contains(':') && !m.1.contains(':'),
    ensures
        spec_parse_module(module_text(m)) == Some(m),
{
    lemma_module_text_splits(m);
    assert(all_filled(split_on(module_text(m), ':'), 2));
}


proof fn lemma_catalog_keeps_entries(raw: RawCatalog, k: nat)
    requires
        k <= raw.libraries@.len(),
    ensures
        spec_catalog(raw, k) matches Ok(libs) ==> libs.len() == k && forall|i: int|
            0 <= i < k ==> (#[trigger] libs[i]).0 == raw.libraries@[i].0@,
    decreases k,
{
    if k > 0 {
        lemma_catalog_keeps_entries(raw, (k - 1) as nat);
    }
}

/// The aliases of a catalog's library table come in strictly ascending
/// order, as a TOML table read into an ordered map gives them.
pub open spec fn aliases_ascending(raw: RawCatalog) -> bool {
    forall|i: int, j: int|
        0 <= i < j < raw.libraries@.len() ==> lex_lt(#[trigger] raw.libraries@[i].0@, #[trigger] raw.libraries@[j].0@)
}

/// Normalising keeps one library per table entry, in entry order, so a table
/// with ascending aliases gives libraries in strictly ascending alias order.
pub proof fn lemma_catalog_in_alias_order(raw: RawCatalog)
    requires
        aliases_ascending(raw),
    ensures
        spec_catalog(raw, raw.libraries@.len()) matches Ok(libs) ==> {
            &&& libs.len() == raw.libraries@.len()
            &&& forall|i: int| 0 <= i < libs.len() ==> (#[trigger] libs[i]).0 == raw.libraries@[i].0@
            &&& forall|i: int, j: int| 0 <= i < j < libs.len() ==> lex_lt(#[trigger] libs[i].0, #[trigger] libs[j].0)
        },
{
    lemma_catalog_keeps_entries(raw, raw.libraries@.len());
    if let Ok(libs) = spec_catalog(raw, raw.libraries@.len()) {
        assert forall|i: int, j: int| 0 <= i < j < libs.len() implies lex_lt(#[trigger] libs[i].0, #[trigger] libs[j].0) by {
            assert(libs[i].0 == raw.libraries@[i].0@);
            assert(libs[j].0 == raw.libraries@[j].0@);
        }
    }
}


/// The requested version of a rich declaration is `strictly` when present,
/// else `require`, else `prefer`; a library table that names the same
/// declaration through a `[versions]` reference normalises the same way.
pub proof fn lemma_rich_version_precedence(
    t: LibraryTable,
    r: RichVersion,
    versions: Seq<(String, VersionValue)>,
    reference: String,
)
    requires
        t.version == Some(VersionSpec::Rich(r)),
    ensures
        spec_normalize(LibraryValue::Table(t), versions) matches Ok(lib) ==> lib.1 == (match r.strictly {
            Some(s) => Some(s@),
            None => match r.require {
                Some(s) => Some(s@),
                None => match r.prefer {
                    Some(s) => Some(s@),
                    None => None::<Seq<char>>,
                },
            },
        }),
        lookup_version(versions, reference@, versions.len()) == Some(VersionValue::Rich(r)) && (r.strictly is Some
            || r.require is Some || r.prefer is Some) ==> spec_normalize(LibraryValue::Table(t), versions)
            == spec_normalize(
            LibraryValue::Table((LibraryTable { version: Some(VersionSpec::Ref { reference }), ..t })),
            versions,
        ),
{
}


proof fn lemma_lookup_first(versions: Seq<(String, VersionValue)>, key: Seq<char>, k: nat, i: int)
    requires
        k <= versions.len(),
    ensures
        lookup_version(versions, key, k) is None <==> forall|j: int| 0 <= j < k ==> (#[trigger] versions[j]).0@ != key,
        0 <= i < k && versions[i].0@ == key && (forall|j: int| 0 <= j < i ==> (#[trigger] versions[j]).0@ != key)
            ==> lookup_version(versions, key, k) == Some(versions[i].1),
    decreases k,
{
    if k > 0 {
        lemma_lookup_first(versions, key, (k - 1) as nat, i);
        if lookup_version(versions, key, k) is None {
            assert forall|j: int| 0 <= j < k implies (#[trigger] versions[j]).0@ != key by {
                if j == k - 1 {
                }
            }
        }
    }
}

/// The forms a library table takes.  Its module is `module = "group:name"`
/// alone, or `group` with `name`, both filled; a `module` beside `group` or
/// `name` is refused.  Its requested version is none without `version`, the
/// text of a plain `version`, and for `version.ref` the value of the first
/// `[versions]` entry of that name (a rich one by precedence); a reference
/// that names no entry is refused.
pub proof fn lemma_table_forms(
    t: LibraryTable,
    versions: Seq<(String, VersionValue)>,
    m: (Seq<char>, Seq<char>),
    i: int,
)
    ensures
        t.module is Some && (t.group is Some || t.name is Some) ==> spec_normalize(LibraryValue::Table(t), versions) is Err,
        t.module is None && (t.group is None || t.name is None) ==> spec_normalize(LibraryValue::Table(t), versions) is Err,
        ({
            &&& m.0.len() > 0 && m.1.len() > 0
            &&& ((t.module is Some && t.module->Some_0@ == m.0 + seq![':'] + m.1 && t.group is None && t.name is None
                && !m.0.contains(':') && !m.1.contains(':')) || (t.module is None && t.group is Some
                && t.name is Some && t.group->Some_0@ == m.0 && t.name->Some_0@ == m.1))
        }) ==> {
            &&& t.version is None ==> spec_normalize(LibraryValue::Table(t), versions) == Ok::<_, Seq<char>>((m, None::<Seq<char>>))
            &&& (t.version is Some && t.version->Some_0 is Simple) ==> spec_normalize(LibraryValue::Table(t), versions)
                == Ok::<_, Seq<char>>((m, Some(t.version->Some_0->Simple_0@)))
            &&& (t.version is Some && t.version->Some_0 is Ref) ==> {
                &&& (forall|j: int|
                    0 <= j < versions.len() ==> (#[trigger] versions[j]).0@ != t.version->Some_0->Ref_reference@)
                    ==> spec_normalize(LibraryValue::Table(t), versions) is Err
                &&& (0 <= i < versions.len() && versions[i].0@ == t.version->Some_0->Ref_reference@ && (forall|j: int|
                    0 <= j < i ==> (#[trigger] versions[j]).0@ != t.version->Some_0->Ref_reference@)
                    && versions[i].1 is Simple) ==> spec_normalize(LibraryValue::Table(t), versions) == Ok::<
                    _,
                    Seq<char>,
                >((m, Some(versions[i].1->Simple_0@)))
            }
        },
{
    if let Some(VersionSpec::Ref { reference }) = t.version {
        lemma_lookup_first(versions, reference@, versions.len(), i);
    }
    if let Some(x) = t.module {
        if x@ == m.0 + seq![':'] + m.1 && m.0.len() > 0 && m.1.len() > 0 && !m.0.contains(':') && !m.1.contains(':') {
            lemma_module_round_trip(m);
            assert(crate::model::module_text(m) == m.0 + seq![':'] + m.1);
        }
    }
}

} // verus!
