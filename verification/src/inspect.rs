//! Assembling an inspection in comparison mode: unchanged libraries are
//! hidden, each shown library carries its change, and changes of libraries
//! the configuration does not use are listed apart.

use vstd::prelude::*;
use crate::changes::change_view;
use crate::model::{LibraryChange, LibraryInspection};
use crate::plain::{copy_change, copy_library, same_library};

verus! {

/// The first of the first `k` changes for `alias`.
pub open spec fn change_of(changes: Seq<LibraryChange>, alias: Seq<char>, k: nat) -> Option<LibraryChange>
    decreases k,
{
    if k == 0 || k > changes.len() {
        None
    } else {
        match change_of(changes, alias, (k - 1) as nat) {
            Some(c) => Some(c),
            None => if changes[k - 1].alias@ == alias {
                Some(changes[k - 1])
            } else {
                None
            },
        }
    }
}

/// Some of the first `k` libraries has `alias`.
pub open spec fn has_library(libs: Seq<LibraryInspection>, alias: Seq<char>) -> bool {
    exists|i: int| 0 <= i < libs.len() && #[trigger] libs[i].alias@ == alias
}

/// The indices, among the first `k` libraries, of those with a change.
pub open spec fn changed(libs: Seq<LibraryInspection>, changes: Seq<LibraryChange>, k: nat) -> Seq<int>
    decreases k,
{
    if k == 0 || k > libs.len() {
        Seq::empty()
    } else {
        let init = changed(libs, changes, (k - 1) as nat);
        if change_of(changes, libs[k - 1].alias@, changes.len()) is Some {
            init.push(k - 1)
        } else {
            init
        }
    }
}

/// The indices, among the first `k` changes, of those no library has.
pub open spec fn unused(libs: Seq<LibraryInspection>, changes: Seq<LibraryChange>, k: nat) -> Seq<int>
    decreases k,
{
    if k == 0 || k > changes.len() {
        Seq::empty()
    } else {
        let init = unused(libs, changes, (k - 1) as nat);
        if has_library(libs, changes[k - 1].alias@) {
            init
        } else {
            init.push(k - 1)
        }
    }
}

/// The first change for `alias`.
fn find_change<'a>(changes: &'a Vec<LibraryChange>, alias: &String) -> (r: Option<&'a LibraryChange>)
    ensures
        match r {
            Some(c) => change_of(changes@, alias@, changes@.len()) == Some(*c),
            None => change_of(changes@, alias@, changes@.len()) is None,
        },
{
    let mut i: usize = 0;
    while i < changes.len()
        invariant
            i <= changes@.len(),
            change_of(changes@, alias@, i as nat) is None,
        decreases changes.len() - i,
    {
        if changes[i].alias == *alias {
            proof {
                lemma_change_of_stays(changes@, alias@, (i + 1) as nat, changes@.len());
            }
            return Some(&changes[i]);
        }
        i += 1;
    }
    None
}

proof fn lemma_change_of_stays(changes: Seq<LibraryChange>, alias: Seq<char>, k: nat, m: nat)
    requires
        k <= m <= changes.len(),
        change_of(changes, alias, k) is Some,
    ensures
        change_of(changes, alias, m) == change_of(changes, alias, k),
    decreases m - k,
{
    if m > k {
        lemma_change_of_stays(changes, alias, k, (m - 1) as nat);
    }
}

/// Whether some library has `alias`.
fn find_library(libraries: &Vec<LibraryInspection>, alias: &String) -> (r: bool)
    ensures
        r == has_library(libraries@, alias@),
{
    let mut i: usize = 0;
    while i < libraries.len()
        invariant
            i <= libraries@.len(),
            forall|j: int| 0 <= j < i ==> libraries@[j].alias@ != alias@,
        decreases libraries.len() - i,
    {
        if libraries[i].alias == *alias {
            assert(libraries@[i as int].alias@ == alias@);
            return true;
        }
        i += 1;
    }
    false
}

/// The libraries that changed, each carrying its change, in order; and the
/// changes of libraries not among `libraries`, in order.
pub fn apply_changes(libraries: &Vec<LibraryInspection>, changes: &Vec<LibraryChange>) -> (r: (
    Vec<LibraryInspection>,
    Vec<LibraryChange>,
))
    ensures
        ({
            let kept = changed(libraries@, changes@, libraries@.len());
            &&& r.0@.len() == kept.len()
            &&& forall|j: int|
                0 <= j < kept.len() ==> {
                    let lib = libraries@[kept[j]];
                    let c = change_of(changes@, lib.alias@, changes@.len());
                    &&& same_library(#[trigger] r.0@[j], LibraryInspection { change: c, ..lib })
                }
        }),
        ({
            let apart = unused(libraries@, changes@, changes@.len());
            &&& r.1@.len() == apart.len()
            &&& forall|j: int| 0 <= j < apart.len() ==> change_view(#[trigger] r.1@[j]) == change_view(changes@[apart[j]])
        }),
{
    let mut kept: Vec<LibraryInspection> = Vec::new();
    let mut i: usize = 0;
    while i < libraries.len()
        invariant
            i <= libraries@.len(),
            kept@.len() == changed(libraries@, changes@, i as nat).len(),
            forall|j: int|
                0 <= j < kept@.len() ==> {
                    let lib = libraries@[changed(libraries@, changes@, i as nat)[j]];
                    let c = change_of(changes@, lib.alias@, changes@.len());
                    &&& same_library(#[trigger] kept@[j], LibraryInspection { change: c, ..lib })
                },
        decreases libraries.len() - i,
    {
        if let Some(change) = find_change(changes, &libraries[i].alias) {
            let mut library = copy_library(&libraries[i]);
            library.change = Some(copy_change(change));
            kept.push(library);
        }
        i += 1;
    }
    let mut apart: Vec<LibraryChange> = Vec::new();
    let mut k: usize = 0;
    while k < changes.len()
        invariant
            k <= changes@.len(),
            apart@.len() == unused(libraries@, changes@, k as nat).len(),
            forall|j: int|
                0 <= j < apart@.len() ==> change_view(#[trigger] apart@[j]) == change_view(
                    changes@[unused(libraries@, changes@, k as nat)[j]],
                ),
        decreases changes.len() - k,
    {
        if !find_library(libraries, &changes[k].alias) {
            apart.push(copy_change(&changes[k]));
        }
        k += 1;
    }
    (kept, apart)
}


proof fn lemma_unused_members(libs: Seq<LibraryInspection>, changes: Seq<LibraryChange>, k: nat)
    requires
        k <= changes.len(),
    ensures
        forall|i: int| 0 <= i < k ==> (unused(libs, changes, k).contains(i) <==> !has_library(libs, #[trigger] changes[i].alias@)),
        forall|j: int| 0 <= j < unused(libs, changes, k).len() ==> 0 <= #[trigger] unused(libs, changes, k)[j] < k,
        forall|a: int, b: int|
            0 <= a < b < unused(libs, changes, k).len() ==> #[trigger] unused(libs, changes, k)[a] < #[trigger] unused(libs, changes, k)[b],
    decreases k,
{
    if k > 0 {
        lemma_unused_members(libs, changes, (k - 1) as nat);
        let init = unused(libs, changes, (k - 1) as nat);
        let all = unused(libs, changes, k);
        assert forall|i: int| 0 <= i < k implies (all.contains(i) <==> !has_library(libs, #[trigger] changes[i].alias@)) by {
            if i < k - 1 {
                if all.contains(i) {
                    let j = choose|j: int| 0 <= j < all.len() && all[j] == i;
                    if j < init.len() {
                        assert(init[j] == i);
                    }
                }
                if init.contains(i) {
                    let j = choose|j: int| 0 <= j < init.len() && init[j] == i;
                    assert(all[j] == i);
                }
            } else {
                if !has_library(libs, changes[i].alias@) {
                    assert(all[all.len() - 1] == i);
                } else if all.contains(i) {
                    let j = choose|j: int| 0 <= j < all.len() && all[j] == i;
                    assert(init[j] == i);
                }
            }
        }
    }
}

proof fn lemma_changed_members(libs: Seq<LibraryInspection>, changes: Seq<LibraryChange>, k: nat)
    requires
        k <= libs.len(),
    ensures
        forall|i: int|
            0 <= i < k ==> (changed(libs, changes, k).contains(i) <==> change_of(changes, (#[trigger] libs[i]).alias@, changes.len()) is Some),
        forall|j: int| 0 <= j < changed(libs, changes, k).len() ==> 0 <= #[trigger] changed(libs, changes, k)[j] < k,
        forall|a: int, b: int|
            0 <= a < b < changed(libs, changes, k).len() ==> #[trigger] changed(libs, changes, k)[a] < #[trigger] changed(libs, changes, k)[b],
    decreases k,
{
    if k > 0 {
        lemma_changed_members(libs, changes, (k - 1) as nat);
        let init = changed(libs, changes, (k - 1) as nat);
        let all = changed(libs, changes, k);
        assert forall|i: int| 0 <= i < k implies (all.contains(i) <==> change_of(changes, (#[trigger] libs[i]).alias@, changes.len()) is Some) by {
            if i < k - 1 {
                if all.contains(i) {
                    let j = choose|j: int| 0 <= j < all.len() && all[j] == i;
                    if j < init.len() {
                        assert(init[j] == i);
                    }
                }
                if init.contains(i) {
                    let j = choose|j: int| 0 <= j < init.len() && init[j] == i;
                    assert(all[j] == i);
                }
            } else {
                if change_of(changes, libs[i].alias@, changes.len()) is Some {
                    assert(all[all.len() - 1] == i);
                } else if all.contains(i) {
                    let j = choose|j: int| 0 <= j < all.len() && all[j] == i;
                    assert(init[j] == i);
                }
            }
        }
    }
}

proof fn lemma_change_of_found(changes: Seq<LibraryChange>, alias: Seq<char>, k: nat)
    requires
        k <= changes.len(),
    ensures
        change_of(changes, alias, k) is Some <==> exists|i: int| 0 <= i < k && (#[trigger] changes[i]).alias@ == alias,
        change_of(changes, alias, k) matches Some(c) ==> c.alias@ == alias,
    decreases k,
{
    if k > 0 {
        lemma_change_of_found(changes, alias, (k - 1) as nat);
        if exists|i: int| 0 <= i < k && (#[trigger] changes[i]).alias@ == alias {
            let i = choose|i: int| 0 <= i < k && (#[trigger] changes[i]).alias@ == alias;
            if i < k - 1 {
                assert(change_of(changes, alias, (k - 1) as nat) is Some);
            }
        }
    }
}

/// Comparison mode loses no change.  A library is shown exactly when some
/// change has its alias, and then carries the first such change; every
/// change whose alias no library has, whatever its kind, is listed apart,
/// and only those are; both lists keep the original order.
pub proof fn lemma_every_change_reported(libs: Seq<LibraryInspection>, changes: Seq<LibraryChange>)
    ensures
        forall|k: int|
            0 <= k < changes.len() ==> (unused(libs, changes, changes.len()).contains(k) <==> !exists|i: int|
                0 <= i < libs.len() && (#[trigger] libs[i]).alias@ == (#[trigger] changes[k]).alias@),
        forall|i: int|
            0 <= i < libs.len() ==> (changed(libs, changes, libs.len()).contains(i) <==> exists|k: int|
                0 <= k < changes.len() && (#[trigger] changes[k]).alias@ == (#[trigger] libs[i]).alias@),
        forall|a: int, b: int|
            0 <= a < b < unused(libs, changes, changes.len()).len() ==> #[trigger] unused(libs, changes, changes.len())[a]
                < #[trigger] unused(libs, changes, changes.len())[b],
        forall|a: int, b: int|
            0 <= a < b < changed(libs, changes, libs.len()).len() ==> #[trigger] changed(libs, changes, libs.len())[a]
                < #[trigger] changed(libs, changes, libs.len())[b],
        forall|i: int|
            0 <= i < libs.len() ==> (change_of(changes, (#[trigger] libs[i]).alias@, changes.len()) matches Some(c)
                ==> c.alias@ == libs[i].alias@),
{
    lemma_unused_members(libs, changes, changes.len());
    lemma_changed_members(libs, changes, libs.len());
    assert forall|i: int| 0 <= i < libs.len() implies (changed(libs, changes, libs.len()).contains(i) <==> exists|k: int|
        0 <= k < changes.len() && (#[trigger] changes[k]).alias@ == (#[trigger] libs[i]).alias@) && (change_of(
        changes,
        libs[i].alias@,
        changes.len(),
    ) matches Some(c) ==> c.alias@ == libs[i].alias@) by {
        lemma_change_of_found(changes, libs[i].alias@, changes.len());
    }
    assert forall|k: int| 0 <= k < changes.len() implies (unused(libs, changes, changes.len()).contains(k) <==> !exists|i: int|
        0 <= i < libs.len() && (#[trigger] libs[i]).alias@ == (#[trigger] changes[k]).alias@) by {
        assert(has_library(libs, changes[k].alias@) <==> exists|i: int|
            0 <= i < libs.len() && (#[trigger] libs[i]).alias@ == changes[k].alias@);
    }
}

} // verus!
