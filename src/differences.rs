//! Classifying package identities as added, removed or unchanged.

use vstd::prelude::*;
use crate::error::BonjourError;
use crate::key::{KeyView, PackageKey, contains_key, key_lt, key_views, lemma_key_lt_irreflexive};
use crate::manifest::{ManifestData, manifest_keys, versions_are_text};
use crate::model::{Lockfile, LockfileEntry, PackageData, keys_of};

verus! {

/// The outcome of comparing a manifest with a lockfile: the keys to resolve,
/// the keys to drop, and the packages carried over unchanged.
#[derive(Debug)]
pub struct PackageDataDifferences {
    pub added_set: Vec<PackageKey>,
    pub removed_set: Vec<PackageKey>,
    pub new_state: Lockfile,
}

/// A lockfile key that stays: a local package, or one that the manifest
/// still declares.
pub open spec fn is_kept(manifest_keys: Set<KeyView>, k: KeyView) -> bool {
    k is Local || manifest_keys.contains(k)
}

pub open spec fn added_keys(manifest_keys: Set<KeyView>, lock_keys: Set<KeyView>) -> Set<KeyView> {
    manifest_keys.difference(lock_keys)
}

pub open spec fn removed_keys(manifest_keys: Set<KeyView>, lock_keys: Set<KeyView>) -> Set<KeyView> {
    lock_keys.filter(|k: KeyView| !is_kept(manifest_keys, k))
}

pub open spec fn unchanged_keys(manifest_keys: Set<KeyView>, lock_keys: Set<KeyView>) -> Set<KeyView> {
    lock_keys.filter(|k: KeyView| is_kept(manifest_keys, k))
}

/// The packages of `lock` that stay.
pub open spec fn kept_entries(manifest_keys: Set<KeyView>, lock: Seq<(KeyView, PackageData)>) -> Set<
    (KeyView, PackageData),
> {
    lock.to_set().filter(|p: (KeyView, PackageData)| is_kept(manifest_keys, p.0))
}

impl PackageDataDifferences {
    /// Compares the manifest's declarations with the lockfile's packages.
    pub fn calculate_differences(manifest: &ManifestData, lockfile: Lockfile) -> (r: Result<
        PackageDataDifferences,
        BonjourError,
    >)
        requires
            lockfile.wf(),
        ensures
            r is Ok <==> versions_are_text(manifest@),
            r matches Err(e) ==> e matches BonjourError::DependencyVersionMustBeString(n)
                && manifest@.contains_key(n@) && manifest@[n@] is None,
            r matches Ok(d) ==> key_views(d.added_set@).to_set() == added_keys(
                manifest_keys(manifest@),
                lockfile.key_set(),
            ),
            r matches Ok(d) ==> key_views(d.added_set@).no_duplicates(),
            r matches Ok(d) ==> key_views(d.removed_set@).to_set() == removed_keys(
                manifest_keys(manifest@),
                lockfile.key_set(),
            ),
            r matches Ok(d) ==> key_views(d.removed_set@).no_duplicates(),
            r matches Ok(d) ==> d.new_state.wf(),
            r matches Ok(d) ==> d.new_state@.to_set() == kept_entries(
                manifest_keys(manifest@),
                lockfile@,
            ),
            r matches Ok(d) ==> d.new_state.key_set() == unchanged_keys(
                manifest_keys(manifest@),
                lockfile.key_set(),
            ),
    {
        let declared = match manifest.declared_keys() {
            Ok(keys) => keys,
            Err(e) => {
                return Err(e);
            },
        };
        let ghost mk = manifest_keys(manifest@);
        let ghost lv = lockfile@;
        let ghost lk = lockfile.key_set();
        // keys that the manifest declares and the lockfile lacks
        let mut added_set: Vec<PackageKey> = Vec::new();
        let mut i: usize = 0;
        while i < declared.len()
            invariant
                i <= declared@.len(),
                key_views(declared@).to_set() == mk,
                key_views(declared@).no_duplicates(),
                lk == lockfile.key_set(),
                key_views(added_set@).no_duplicates(),
                forall|k: KeyView|
                    key_views(added_set@).contains(k) <==> exists|j: int|
                        0 <= j < i && key_views(declared@)[j] == k && !lk.contains(k),
            decreases declared.len() - i,
        {
            if !lockfile.contains_key(&declared[i]) {
                let ghost before = added_set@;
                let k = declared[i].duplicate();
                proof {
                    assert forall|p: int| 0 <= p < key_views(before).len() implies key_views(
                        before,
                    )[p] != k@ by {
                        if key_views(before)[p] == k@ {
                            assert(key_views(before).contains(k@));
                            let j = choose|j: int|
                                0 <= j < i && key_views(declared@)[j] == k@ && !lk.contains(k@);
                            assert(key_views(declared@)[i as int] == k@);
                        }
                    }
                }
                added_set.push(k);
                proof {
                    assert(key_views(added_set@) =~= key_views(before).push(k@));
                    assert forall|kk: KeyView|
                        key_views(added_set@).contains(kk) <==> exists|j: int|
                            0 <= j < i + 1 && key_views(declared@)[j] == kk && !lk.contains(kk) by {
                        if key_views(added_set@).contains(kk) {
                            let p = choose|p: int|
                                0 <= p < key_views(added_set@).len() && key_views(added_set@)[p] == kk;
                            if p < key_views(before).len() {
                                assert(key_views(before)[p] == kk);
                                assert(key_views(before).contains(kk));
                            } else {
                                assert(key_views(declared@)[i as int] == kk);
                            }
                        }
                        if exists|j: int| 0 <= j < i + 1 && key_views(declared@)[j] == kk && !lk.contains(kk) {
                            let j = choose|j: int|
                                0 <= j < i + 1 && key_views(declared@)[j] == kk && !lk.contains(kk);
                            if j == i {
                                assert(key_views(added_set@)[key_views(before).len() as int] == kk);
                            } else {
                                assert(key_views(before).contains(kk));
                                let p = choose|p: int|
                                    0 <= p < key_views(before).len() && key_views(before)[p] == kk;
                                assert(key_views(added_set@)[p] == kk);
                            }
                        }
                    }
                }
            } else {
                proof {
                    assert forall|kk: KeyView|
                        key_views(added_set@).contains(kk) <==> exists|j: int|
                            0 <= j < i + 1 && key_views(declared@)[j] == kk && !lk.contains(kk) by {
                        if exists|j: int| 0 <= j < i + 1 && key_views(declared@)[j] == kk && !lk.contains(kk) {
                            let j = choose|j: int|
                                0 <= j < i + 1 && key_views(declared@)[j] == kk && !lk.contains(kk);
                            assert(0 <= j < i && key_views(declared@)[j] == kk && !lk.contains(kk));
                        }
                    }
                }
            }
            i = i + 1;
        }
        proof {
            assert(key_views(added_set@).to_set() =~= added_keys(mk, lk)) by {
                assert forall|k: KeyView| #[trigger] added_keys(mk, lk).contains(k) implies key_views(
                    added_set@,
                ).contains(k) by {
                    assert(key_views(declared@).to_set().contains(k));
                    let j = choose|j: int|
                        0 <= j < key_views(declared@).len() && key_views(declared@)[j] == k;
                }
            }
        }
        // the lockfile's packages, split into those kept and those removed
        let n = lockfile.entries.len();
        let mut entries = lockfile.entries;
        let mut removed_set: Vec<PackageKey> = Vec::new();
        let mut new_state = Lockfile::new();
        while entries.len() > 0
            invariant
                n == lv.len(),
                entries@.len() <= n,
                entries@.map_values(|e: LockfileEntry| (e.key@, e.data)) == lv.subrange(0, entries@.len() as int),
                crate::model::sorted_by_key(lv),
                forall|q: int| 0 <= q < lv.len() ==> (#[trigger] lv[q]).1.wf(),
                key_views(declared@).to_set() == mk,
                new_state.wf(),
                forall|x: (KeyView, PackageData)|
                    new_state@.to_set().contains(x) <==> exists|j: int|
                        entries@.len() <= j < n && lv[j] == x && is_kept(mk, x.0),
                forall|k: KeyView|
                    #[trigger] new_state.key_set().contains(k) ==> exists|j: int|
                        entries@.len() <= j < n && lv[j].0 == k,
                key_views(removed_set@).no_duplicates(),
                forall|k: KeyView|
                    key_views(removed_set@).contains(k) <==> exists|j: int|
                        entries@.len() <= j < n && lv[j].0 == k && !is_kept(mk, k),
            decreases entries.len(),
        {
            let ghost m = entries@.len() - 1;
            let ghost before_entries = entries@;
            let e = entries.pop().unwrap();
            proof {
                assert(before_entries.map_values(|e: LockfileEntry| (e.key@, e.data))[m] == lv[m]);
                assert(entries@.map_values(|e: LockfileEntry| (e.key@, e.data)) =~= lv.subrange(0, m));
                assert forall|j: int| m < j < n implies lv[j].0 != e.key@ by {
                    lemma_key_lt_irreflexive(e.key@);
                    assert(key_lt(lv[m].0, lv[j].0));
                }
            }
            let kept = match &e.key {
                PackageKey::LocalPackage { .. } => true,
                PackageKey::WapmRegistryPackage { .. } => contains_key(&declared, &e.key),
            };
            if kept {
                proof {
                    assert(!new_state.key_set().contains(e.key@));
                    assert(lv[m].1.wf());
                }
                let ghost pair = (e.key@, e.data);
                let ok = new_state.insert_entry(e.key, e.data);
                proof {
                    assert forall|x: (KeyView, PackageData)|
                        new_state@.to_set().contains(x) <==> exists|j: int|
                            m <= j < n && lv[j] == x && is_kept(mk, x.0) by {
                        if x == pair {
                            assert(lv[m] == x);
                        }
                        if exists|j: int| m <= j < n && lv[j] == x && is_kept(mk, x.0) {
                            let j = choose|j: int| m <= j < n && lv[j] == x && is_kept(mk, x.0);
                            if j > m {
                                assert(m + 1 <= j < n && lv[j] == x && is_kept(mk, x.0));
                            }
                        }
                    }
                    assert forall|k: KeyView|
                        #[trigger] new_state.key_set().contains(k) implies exists|j: int|
                            m <= j < n && lv[j].0 == k by {
                        if k == pair.0 {
                            assert(lv[m].0 == k);
                        } else {
                            let j = choose|j: int| m + 1 <= j < n && lv[j].0 == k;
                            assert(m <= j < n && lv[j].0 == k);
                        }
                    }
                    assert forall|k: KeyView|
                        key_views(removed_set@).contains(k) <==> exists|j: int|
                            m <= j < n && lv[j].0 == k && !is_kept(mk, k) by {
                        if exists|j: int| m <= j < n && lv[j].0 == k && !is_kept(mk, k) {
                            let j = choose|j: int| m <= j < n && lv[j].0 == k && !is_kept(mk, k);
                            if j == m {
                                assert(key_views(declared@).to_set().contains(e.key@) || e.key@ is Local);
                            } else {
                                assert(m + 1 <= j < n && lv[j].0 == k && !is_kept(mk, k));
                            }
                        }
                    }
                }
            } else {
                let ghost before = removed_set@;
                proof {
                    assert forall|p: int| 0 <= p < key_views(before).len() implies key_views(
                        before,
                    )[p] != e.key@ by {
                        if key_views(before)[p] == e.key@ {
                            assert(key_views(before).contains(e.key@));
                        }
                    }
                }
                let ghost ek = e.key@;
                removed_set.push(e.key);
                proof {
                    assert(key_views(removed_set@) =~= key_views(before).push(ek));
                    assert(!is_kept(mk, ek)) by {
                        if mk.contains(ek) {
                            let q = choose|q: int|
                                0 <= q < key_views(declared@).len() && key_views(declared@)[q] == ek;
                        }
                    }
                    assert forall|k: KeyView|
                        key_views(removed_set@).contains(k) <==> exists|j: int|
                            m <= j < n && lv[j].0 == k && !is_kept(mk, k) by {
                        if key_views(removed_set@).contains(k) {
                            let p = choose|p: int|
                                0 <= p < key_views(removed_set@).len() && key_views(removed_set@)[p] == k;
                            if p < key_views(before).len() {
                                assert(key_views(before)[p] == k);
                                assert(key_views(before).contains(k));
                                let j = choose|j: int| m + 1 <= j < n && lv[j].0 == k && !is_kept(mk, k);
                                assert(m <= j < n && lv[j].0 == k && !is_kept(mk, k));
                            } else {
                                assert(lv[m].0 == k);
                            }
                        }
                        if exists|j: int| m <= j < n && lv[j].0 == k && !is_kept(mk, k) {
                            let j = choose|j: int| m <= j < n && lv[j].0 == k && !is_kept(mk, k);
                            if j == m {
                                assert(key_views(removed_set@)[key_views(before).len() as int] == k);
                            } else {
                                assert(m + 1 <= j < n && lv[j].0 == k && !is_kept(mk, k));
                                assert(key_views(before).contains(k));
                                let p = choose|p: int|
                                    0 <= p < key_views(before).len() && key_views(before)[p] == k;
                                assert(key_views(removed_set@)[p] == k);
                            }
                        }
                    }
                    assert forall|x: (KeyView, PackageData)|
                        new_state@.to_set().contains(x) <==> exists|j: int|
                            m <= j < n && lv[j] == x && is_kept(mk, x.0) by {
                        if exists|j: int| m <= j < n && lv[j] == x && is_kept(mk, x.0) {
                            let j = choose|j: int| m <= j < n && lv[j] == x && is_kept(mk, x.0);
                            assert(j != m);
                            assert(m + 1 <= j < n && lv[j] == x && is_kept(mk, x.0));
                        }
                    }
                    assert forall|k: KeyView|
                        #[trigger] new_state.key_set().contains(k) implies exists|j: int|
                            m <= j < n && lv[j].0 == k by {
                        let j = choose|j: int| m + 1 <= j < n && lv[j].0 == k;
                        assert(m <= j < n && lv[j].0 == k);
                    }
                }
            }
        }
        proof {
            assert(key_views(removed_set@).to_set() =~= removed_keys(mk, lk)) by {
                assert forall|k: KeyView| #[trigger] removed_keys(mk, lk).contains(k) implies key_views(
                    removed_set@,
                ).contains(k) by {
                    let j = choose|j: int| 0 <= j < lv.len() && lv[j].0 == k;
                }
                assert forall|k: KeyView| key_views(removed_set@).contains(k) implies #[trigger] removed_keys(
                    mk,
                    lk,
                ).contains(k) by {
                    let j = choose|j: int| 0 <= j < n && lv[j].0 == k && !is_kept(mk, k);
                    assert(keys_of(lv).contains(k));
                }
            }
            assert(new_state@.to_set() =~= kept_entries(mk, lv)) by {
                assert forall|x: (KeyView, PackageData)| #[trigger] kept_entries(mk, lv).contains(x) implies new_state@.to_set().contains(x) by {
                    let j = choose|j: int| 0 <= j < lv.len() && lv[j] == x;
                }
            }
            assert(new_state.key_set() =~= unchanged_keys(mk, lk)) by {
                assert forall|k: KeyView| #[trigger] unchanged_keys(mk, lk).contains(k) implies new_state.key_set().contains(k) by {
                    let j = choose|j: int| 0 <= j < lv.len() && lv[j].0 == k;
                    assert(new_state@.to_set().contains(lv[j]));
                    let q = choose|q: int| 0 <= q < new_state@.len() && new_state@[q] == lv[j];
                    assert(new_state@[q].0 == k);
                }
                assert forall|k: KeyView| new_state.key_set().contains(k) implies #[trigger] unchanged_keys(mk, lk).contains(k) by {
                    let q = choose|q: int| 0 <= q < new_state@.len() && new_state@[q].0 == k;
                    assert(new_state@.to_set().contains(new_state@[q]));
                    let j = choose|j: int| 0 <= j < n && lv[j] == new_state@[q] && is_kept(mk, new_state@[q].0);
                    assert(keys_of(lv).contains(k));
                }
            }
        }
        Ok(PackageDataDifferences { added_set, removed_set, new_state })
    }
}

/// The added, removed and unchanged keys are pairwise disjoint; unchanged and
/// removed keys together are exactly the lockfile's keys; unchanged and added
/// keys together are exactly the manifest's keys and the lockfile's local
/// packages.
pub proof fn lemma_differences_partition(manifest: Map<Seq<char>, Option<Seq<char>>>, lock_keys: Set<KeyView>)
    ensures
        ({
            let mk = manifest_keys(manifest);
            let added = added_keys(mk, lock_keys);
            let removed = removed_keys(mk, lock_keys);
            let unchanged = unchanged_keys(mk, lock_keys);
            &&& added.disjoint(removed)
            &&& added.disjoint(unchanged)
            &&& removed.disjoint(unchanged)
            &&& unchanged.union(removed) == lock_keys
            &&& unchanged.union(added) == mk.union(lock_keys.filter(|k: KeyView| k is Local))
        }),
{
    let mk = manifest_keys(manifest);
    let added = added_keys(mk, lock_keys);
    let removed = removed_keys(mk, lock_keys);
    let unchanged = unchanged_keys(mk, lock_keys);
    assert(unchanged.union(removed) =~= lock_keys);
    assert(unchanged.union(added) =~= mk.union(lock_keys.filter(|k: KeyView| k is Local))) by {
        assert forall|k: KeyView| mk.contains(k) implies !(k is Local) by {
            match k {
                KeyView::Local(_) => {},
                KeyView::Registry(_, _) => {},
            }
        }
    }
}

/// Comparing the same manifest with the lockfile that an update built yields
/// nothing to add and nothing to remove, as long as every package resolved
/// in that update is one that the manifest declares.
pub proof fn lemma_rediff_after_update(
    manifest: Map<Seq<char>, Option<Seq<char>>>,
    lock_keys: Set<KeyView>,
    resolved: Set<KeyView>,
)
    requires
        added_keys(manifest_keys(manifest), lock_keys).subset_of(resolved),
        resolved.subset_of(manifest_keys(manifest)),
    ensures
        ({
            let mk = manifest_keys(manifest);
            let new_keys = unchanged_keys(mk, lock_keys).union(resolved);
            &&& added_keys(mk, new_keys) == Set::<KeyView>::empty()
            &&& removed_keys(mk, new_keys) == Set::<KeyView>::empty()
        }),
{
    let mk = manifest_keys(manifest);
    let new_keys = unchanged_keys(mk, lock_keys).union(resolved);
    assert(added_keys(mk, new_keys) =~= Set::<KeyView>::empty()) by {
        assert forall|k: KeyView| mk.contains(k) implies new_keys.contains(k) by {
            if !lock_keys.contains(k) {
                assert(added_keys(mk, lock_keys).contains(k));
            }
        }
    }
    assert(removed_keys(mk, new_keys) =~= Set::<KeyView>::empty());
}

} // verus!
