//! Which entries of a folder listing go into the archive, and which folders
//! are walked next.

use vstd::prelude::*;

verus! {

/// What a listed path is on disk.
#[derive(Debug, Clone, Copy, PartialEq, Eq, Structural)]
pub enum EntryKind {
    File,
    Folder,
    /// Neither a regular file nor a folder (a dangling link, a socket, ...).
    Other,
}

/// The indices below `n` of the entries of `kinds` that `keep` accepts, in
/// listing order.
pub open spec fn kept_indices(kinds: Seq<EntryKind>, n: nat, keep: spec_fn(EntryKind) -> bool) -> Seq<
    usize,
>
    decreases n,
{
    if n == 0 {
        Seq::empty()
    } else {
        let rest = kept_indices(kinds, (n - 1) as nat, keep);
        if keep(kinds[n - 1]) {
            rest.push((n - 1) as usize)
        } else {
            rest
        }
    }
}

/// The kept indices are exactly the indices below `n` whose entries `keep`
/// accepts, each once, in increasing (listing) order.
pub proof fn lemma_kept_indices(kinds: Seq<EntryKind>, n: nat, keep: spec_fn(EntryKind) -> bool)
    requires
        n <= kinds.len(),
        n <= usize::MAX,
    ensures
        forall|i: int|
            0 <= i < n ==> (kept_indices(kinds, n, keep).contains(i as usize) <==> keep(kinds[i])),
        forall|a: int, b: int|
            0 <= a < b < kept_indices(kinds, n, keep).len() ==> kept_indices(kinds, n, keep)[a]
                < kept_indices(kinds, n, keep)[b],
        forall|a: int|
            0 <= a < kept_indices(kinds, n, keep).len() ==> kept_indices(kinds, n, keep)[a] < n,
    decreases n,
{
    if n > 0 {
        let m = (n - 1) as nat;
        lemma_kept_indices(kinds, m, keep);
        let rest = kept_indices(kinds, m, keep);
        let all = kept_indices(kinds, n, keep);
        assert forall|i: int| 0 <= i < n implies (all.contains(i as usize) <==> keep(kinds[i])) by {
            if i < m {
                if rest.contains(i as usize) {
                    let t = choose|t: int| 0 <= t < rest.len() && rest[t] == i as usize;
                    assert(all[t] == i as usize);
                }
                if all.contains(i as usize) {
                    let t = choose|t: int| 0 <= t < all.len() && all[t] == i as usize;
                    if t < rest.len() {
                        assert(rest[t] == i as usize);
                    }
                }
            } else {
                if keep(kinds[i]) {
                    assert(all[all.len() - 1] == i as usize);
                }
                if all.contains(i as usize) {
                    let t = choose|t: int| 0 <= t < all.len() && all[t] == i as usize;
                    if t < rest.len() {
                        assert(rest[t] < m);
                    }
                }
            }
        }
    }
}

/// Files and folders go into the archive.
pub open spec fn is_archived(k: EntryKind) -> bool {
    k != EntryKind::Other
}

/// Folders are walked in turn once the whole listing is archived.
pub open spec fn is_walked(k: EntryKind) -> bool {
    k == EntryKind::Folder
}

/// What to do with the listing of one folder.
pub struct ListingPlan {
    /// The entries that go into the archive, in listing order.
    pub archived: Vec<usize>,
    /// The folders to walk next, one after the other, in listing order.
    pub walked: Vec<usize>,
}

/// Plans the listing of one folder, whose entries are of the kinds `kinds`:
/// every file and folder is archived in listing order, other entries are
/// left out, and once the listing is done the folders are walked in the
/// same order.
pub fn plan_listing(kinds: &[EntryKind]) -> (plan: ListingPlan)
    ensures
        plan.archived@ == kept_indices(kinds@, kinds@.len(), |k: EntryKind| is_archived(k)),
        plan.walked@ == kept_indices(kinds@, kinds@.len(), |k: EntryKind| is_walked(k)),
        forall|i: int|
            0 <= i < kinds@.len() ==> (plan.archived@.contains(i as usize) <==> kinds@[i]
                != EntryKind::Other),
        forall|i: int|
            0 <= i < kinds@.len() ==> (plan.walked@.contains(i as usize) <==> kinds@[i]
                == EntryKind::Folder),
        forall|a: int, b: int|
            0 <= a < b < plan.archived@.len() ==> plan.archived@[a] < plan.archived@[b],
        forall|a: int, b: int| 0 <= a < b < plan.walked@.len() ==> plan.walked@[a] < plan.walked@[b],
        forall|a: int| 0 <= a < plan.archived@.len() ==> plan.archived@[a] < kinds@.len(),
        forall|a: int| 0 <= a < plan.walked@.len() ==> plan.walked@[a] < kinds@.len(),
{
    let mut archived: Vec<usize> = Vec::new();
    let mut walked: Vec<usize> = Vec::new();
    let mut i: usize = 0;
    while i < kinds.len()
        invariant
            i <= kinds@.len(),
            archived@ == kept_indices(kinds@, i as nat, |k: EntryKind| is_archived(k)),
            walked@ == kept_indices(kinds@, i as nat, |k: EntryKind| is_walked(k)),
            forall|j: int|
                0 <= j < i ==> (archived@.contains(j as usize) <==> kinds@[j] != EntryKind::Other),
            forall|j: int|
                0 <= j < i ==> (walked@.contains(j as usize) <==> kinds@[j] == EntryKind::Folder),
            forall|a: int, b: int| 0 <= a < b < archived@.len() ==> archived@[a] < archived@[b],
            forall|a: int, b: int| 0 <= a < b < walked@.len() ==> walked@[a] < walked@[b],
            forall|a: int| 0 <= a < archived@.len() ==> archived@[a] < i,
            forall|a: int| 0 <= a < walked@.len() ==> walked@[a] < i,
        decreases kinds.len() - i,
    {
        let ghost old_archived = archived@;
        let ghost old_walked = walked@;
        match kinds[i] {
            EntryKind::File => {
                archived.push(i);
            },
            EntryKind::Folder => {
                archived.push(i);
                walked.push(i);
            },
            EntryKind::Other => {},
        }
        proof {
            assert forall|j: int| 0 <= j <= i implies (archived@.contains(j as usize) <==> kinds@[j]
                != EntryKind::Other) by {
                if j < i {
                    if old_archived.contains(j as usize) {
                        let t = choose|t: int| 0 <= t < old_archived.len() && old_archived[t] == j as usize;
                        assert(archived@[t] == j as usize);
                    }
                    if archived@.contains(j as usize) {
                        let t = choose|t: int| 0 <= t < archived@.len() && archived@[t] == j as usize;
                        if t < old_archived.len() {
                            assert(old_archived[t] == j as usize);
                        }
                    }
                } else {
                    if kinds@[j] != EntryKind::Other {
                        assert(archived@[archived@.len() - 1] == j as usize);
                    }
                    if archived@.contains(j as usize) {
                        let t = choose|t: int| 0 <= t < archived@.len() && archived@[t] == j as usize;
                        if t < old_archived.len() {
                            assert(old_archived[t] < i);
                        }
                    }
                }
            }
            assert forall|j: int| 0 <= j <= i implies (walked@.contains(j as usize) <==> kinds@[j]
                == EntryKind::Folder) by {
                if j < i {
                    if old_walked.contains(j as usize) {
                        let t = choose|t: int| 0 <= t < old_walked.len() && old_walked[t] == j as usize;
                        assert(walked@[t] == j as usize);
                    }
                    if walked@.contains(j as usize) {
                        let t = choose|t: int| 0 <= t < walked@.len() && walked@[t] == j as usize;
                        if t < old_walked.len() {
                            assert(old_walked[t] == j as usize);
                        }
                    }
                } else {
                    if kinds@[j] == EntryKind::Folder {
                        assert(walked@[walked@.len() - 1] == j as usize);
                    }
                    if walked@.contains(j as usize) {
                        let t = choose|t: int| 0 <= t < walked@.len() && walked@[t] == j as usize;
                        if t < old_walked.len() {
                            assert(old_walked[t] < i);
                        }
                    }
                }
            }
        }
        i = i + 1;
    }
    ListingPlan { archived, walked }
}

} // verus!
