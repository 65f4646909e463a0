//! Resolution of added packages against a registry, one request at a time.
//!
//! The caller asks for the next key to fetch, fetches it, and hands the
//! registry's answer back. Each distinct key is handed out at most once, and
//! keys already present in the lockfile are never handed out.

use vstd::prelude::*;
use crate::error::BonjourError;
use crate::key::{KeyView, PackageKey, contains_key, key_views};
use crate::model::LockfileCommand;

verus! {

/// A module of a package as the registry describes it.
#[derive(Clone, Debug)]
pub struct DependencyModule {
    pub name: String,
    pub entry: String,
    pub abi: String,
}

/// A pinned package as the registry returns it, with the packages it needs.
#[derive(Clone, Debug)]
pub struct Dependency {
    pub name: String,
    pub version: String,
    pub modules: Vec<DependencyModule>,
    pub commands: Vec<LockfileCommand>,
    pub dependencies: Vec<(String, String)>,
}

pub open spec fn dependency_key(d: Dependency) -> KeyView {
    KeyView::Registry(d.name@, d.version@)
}

pub open spec fn pair_key(p: (String, String)) -> KeyView {
    KeyView::Registry(p.0@, p.1@)
}

/// The state of one resolution.
#[derive(Debug)]
pub struct Resolver {
    /// Keys still to look at.
    pub queue: Vec<PackageKey>,
    /// Every key handed out so far, in order.
    pub requested: Vec<PackageKey>,
    /// Keys that are already resolved and are never handed out.
    pub known: Vec<PackageKey>,
    /// The keys that the resolution started from.
    pub roots: Vec<PackageKey>,
    /// The key handed out last, while its answer is awaited.
    pub awaiting: Option<PackageKey>,
    /// The answers received, in order.
    pub records: Vec<Dependency>,
}

impl Resolver {
    pub open spec fn settled(&self, k: KeyView) -> bool {
        key_views(self.requested@).contains(k) || key_views(self.known@).contains(k)
    }

    pub open spec fn covered(&self, k: KeyView) -> bool {
        self.settled(k) || key_views(self.queue@).contains(k)
    }

    pub open spec fn record_keys(&self) -> Seq<KeyView> {
        self.records@.map_values(|d: Dependency| dependency_key(d))
    }

    /// The packages that the received answers need.
    pub open spec fn dependency_keys(&self) -> Set<KeyView> {
        Set::new(
            |k: KeyView|
                exists|r: int, j: int|
                    0 <= r < self.records@.len() && 0 <= j < self.records@[r].dependencies@.len()
                        && #[trigger] pair_key(self.records@[r].dependencies@[j]) == k,
        )
    }

    /// A starting key, or a package that a received answer needs.
    pub open spec fn reached(&self, k: KeyView) -> bool {
        key_views(self.roots@).contains(k) || self.dependency_keys().contains(k)
    }

    pub open spec fn wf(&self) -> bool {
        &&& key_views(self.requested@).no_duplicates()
        &&& forall|k: KeyView|
            #![trigger self.reached(k)]
            key_views(self.queue@).contains(k) || key_views(self.requested@).contains(k)
                ==> self.reached(k)
        &&& forall|k: KeyView|
            key_views(self.requested@).contains(k) ==> !key_views(self.known@).contains(k)
        &&& forall|i: int| 0 <= i < self.roots@.len() ==> self.covered(#[trigger] self.roots@[i]@)
        &&& forall|r: int, j: int|
            0 <= r < self.records@.len() && 0 <= j < self.records@[r].dependencies@.len()
                ==> self.covered(pair_key(#[trigger] self.records@[r].dependencies@[j]))
        &&& match self.awaiting {
            None => self.record_keys() == key_views(self.requested@),
            Some(a) => self.record_keys().push(a@) == key_views(self.requested@),
        }
    }

    /// Nothing is left to fetch.
    pub open spec fn is_done(&self) -> bool {
        self.queue@.len() == 0 && self.awaiting is None
    }

    pub fn done(&self) -> (r: bool)
        ensures
            r == self.is_done(),
    {
        self.queue.len() == 0 && self.awaiting.is_none()
    }

    /// The next key to fetch, or `None` once every key reached is resolved.
    /// A key is never handed out twice, nor one that is already known.
    pub fn next_request(&mut self) -> (r: Option<PackageKey>)
        requires
            old(self).wf(),
            old(self).awaiting is None,
        ensures
            final(self).wf(),
            final(self).records == old(self).records,
            final(self).known == old(self).known,
            final(self).roots == old(self).roots,
            r is None ==> final(self).is_done() && key_views(final(self).requested@) == key_views(
                old(self).requested@,
            ),
            r is None ==> forall|p: int|
                0 <= p < old(self).queue@.len() ==> old(self).settled(#[trigger] old(self).queue@[p]@),
            r is Some ==> {
                let n = final(self).queue@.len();
                &&& n < old(self).queue@.len()
                &&& key_views(final(self).queue@) == key_views(old(self).queue@).subrange(0, n as int)
                &&& old(self).queue@[n as int]@ == r->Some_0@
                &&& forall|p: int|
                    n < p < old(self).queue@.len() ==> old(self).settled(#[trigger] old(self).queue@[p]@)
            },
            r matches Some(k) ==> !old(self).settled(k@) && key_views(final(self).requested@)
                == key_views(old(self).requested@).push(k@) && final(self).awaiting is Some
                && final(self).awaiting->Some_0@ == k@,
    {
        while self.queue.len() > 0
            invariant
                self.wf(),
                self.awaiting is None,
                self.records == old(self).records,
                self.known == old(self).known,
                self.roots == old(self).roots,
                self.requested == old(self).requested,
                self.queue@.len() <= old(self).queue@.len(),
                key_views(self.queue@) == key_views(old(self).queue@).subrange(0, self.queue@.len() as int),
                forall|p: int|
                    self.queue@.len() <= p < old(self).queue@.len() ==> old(self).settled(
                        #[trigger] old(self).queue@[p]@,
                    ),
            decreases self.queue.len(),
        {
            let ghost before = *self;
            let k = self.queue.pop().unwrap();
            proof {
                assert(key_views(before.queue@) =~= key_views(self.queue@).push(k@));
                assert(key_views(before.queue@)[self.queue@.len() as int] == k@);
                assert(key_views(old(self).queue@)[self.queue@.len() as int] == k@);
                assert(key_views(self.queue@) =~= key_views(old(self).queue@).subrange(0, self.queue@.len() as int));
                assert(key_views(before.queue@).contains(k@));
                assert(before.reached(k@));
                assert(self.reached(k@));
                assert forall|x: KeyView| key_views(self.queue@).contains(x) implies key_views(before.queue@).contains(x) by {
                    let p = choose|p: int| 0 <= p < key_views(self.queue@).len() && key_views(self.queue@)[p] == x;
                    assert(key_views(before.queue@)[p] == x);
                }
                assert forall|x: KeyView|
                    key_views(self.queue@).contains(x) || key_views(self.requested@).contains(x)
                        implies self.reached(x) by {
                    if key_views(self.queue@).contains(x) {
                        assert(key_views(before.queue@).contains(x));
                    }
                    assert(before.reached(x));
                }
                assert forall|x: KeyView| before.covered(x) implies self.covered(x) || x == k@ by {
                    if key_views(before.queue@).contains(x) && x != k@ {
                        let p = choose|p: int| 0 <= p < key_views(before.queue@).len() && key_views(before.queue@)[p] == x;
                        assert(key_views(self.queue@)[p] == x);
                    }
                }
            }
            let ghost mid = *self;
            if !contains_key(&self.requested, &k) && !contains_key(&self.known, &k) {
                let ghost old_req = self.requested@;
                self.requested.push(k.duplicate());
                self.awaiting = Some(k.duplicate());
                proof {
                    assert(key_views(self.requested@) =~= key_views(old_req).push(k@));
                    assert forall|x: KeyView| key_views(old_req).contains(x) implies key_views(self.requested@).contains(x) by {
                        let p = choose|p: int| 0 <= p < key_views(old_req).len() && key_views(old_req)[p] == x;
                        assert(key_views(self.requested@)[p] == x);
                    }
                    assert(key_views(self.requested@)[old_req.len() as int] == k@);
                    assert forall|x: KeyView|
                        key_views(self.queue@).contains(x) || key_views(self.requested@).contains(x)
                            implies self.reached(x) by {
                        if x == k@ {
                            assert(mid.reached(k@));
                        } else if key_views(self.requested@).contains(x) {
                            let p = choose|p: int| 0 <= p < key_views(self.requested@).len() && key_views(self.requested@)[p] == x;
                            assert(key_views(old_req)[p] == x);
                            assert(key_views(mid.requested@).contains(x));
                            assert(mid.reached(x));
                        } else {
                            assert(mid.reached(x));
                        }
                    }
                    assert forall|x: KeyView| key_views(self.requested@).contains(x) implies !key_views(self.known@).contains(x) by {
                        let p = choose|p: int| 0 <= p < key_views(self.requested@).len() && key_views(self.requested@)[p] == x;
                        if p < old_req.len() {
                            assert(key_views(old_req)[p] == x);
                        }
                    }
                }
                return Some(k);
            }
            proof {
                assert(old(self).settled(old(self).queue@[self.queue@.len() as int]@));
            }
        }
        None
    }

    /// Takes the registry's answer for the key handed out last, and queues
    /// the packages it needs. An answer for another package is refused and
    /// the state is left as it was.
    pub fn supply(&mut self, dep: Dependency) -> (r: Result<(), BonjourError>)
        requires
            old(self).wf(),
            old(self).awaiting is Some,
        ensures
            r is Ok <==> dependency_key(dep) == old(self).awaiting->Some_0@,
            r is Err ==> *final(self) == *old(self),
            r is Ok ==> key_views(final(self).queue@) == key_views(old(self).queue@) + dep.dependencies@.map_values(
                |p: (String, String)| pair_key(p),
            ),
            r is Ok ==> final(self).wf() && final(self).awaiting is None && final(self).records@
                == old(self).records@.push(dep) && final(self).requested == old(self).requested
                && final(self).known == old(self).known && final(self).roots == old(self).roots,
    {
        let matches_request = match &self.awaiting {
            Some(a) => {
                let key = PackageKey::new_registry_package(dep.name.as_str(), dep.version.as_str());
                matches!(a.cmp(&key), core::cmp::Ordering::Equal)
            },
            None => false,
        };
        if !matches_request {
            return Err(BonjourError::InstallError(dep.name));
        }
        let ghost before = *self;
        let mut j: usize = 0;
        while j < dep.dependencies.len()
            invariant
                j <= dep.dependencies@.len(),
                self.requested == before.requested,
                self.known == before.known,
                self.roots == before.roots,
                self.records == before.records,
                self.awaiting == before.awaiting,
                forall|x: KeyView| before.covered(x) ==> self.covered(x),
                forall|q: int| 0 <= q < j ==> self.covered(pair_key(#[trigger] dep.dependencies@[q])),
                key_views(self.queue@) == key_views(before.queue@) + dep.dependencies@.subrange(0, j as int).map_values(
                    |p: (String, String)| pair_key(p),
                ),
            decreases dep.dependencies.len() - j,
        {
            let ghost old_queue = self.queue@;
            let key = PackageKey::new_registry_package(
                dep.dependencies[j].0.as_str(),
                dep.dependencies[j].1.as_str(),
            );
            self.queue.push(key);
            proof {
                assert(key_views(self.queue@) =~= key_views(old_queue).push(pair_key(dep.dependencies@[j as int])));
                assert(dep.dependencies@.subrange(0, j + 1) =~= dep.dependencies@.subrange(0, j as int).push(dep.dependencies@[j as int]));
                assert(key_views(self.queue@) =~= key_views(before.queue@) + dep.dependencies@.subrange(0, j + 1).map_values(
                    |p: (String, String)| pair_key(p),
                ));
                assert(key_views(self.queue@)[old_queue.len() as int] == pair_key(dep.dependencies@[j as int]));
                assert forall|x: KeyView| key_views(old_queue).contains(x) implies key_views(self.queue@).contains(x) by {
                    let p = choose|p: int| 0 <= p < key_views(old_queue).len() && key_views(old_queue)[p] == x;
                    assert(key_views(self.queue@)[p] == x);
                }
            }
            j = j + 1;
        }
        let ghost mid = *self;
        let ghost d = dep;
        self.records.push(dep);
        self.awaiting = None;
        proof {
            assert(dep.dependencies@.subrange(0, j as int) =~= dep.dependencies@);
            assert forall|k: KeyView| before.reached(k) implies self.reached(k) by {
                if before.dependency_keys().contains(k) {
                    let (r, q) = choose|r: int, q: int|
                        0 <= r < before.records@.len() && 0 <= q < before.records@[r].dependencies@.len()
                            && #[trigger] pair_key(before.records@[r].dependencies@[q]) == k;
                    assert(self.records@[r] == before.records@[r]);
                    assert(pair_key(self.records@[r].dependencies@[q]) == k);
                }
            }
            assert forall|k: KeyView|
                key_views(self.queue@).contains(k) || key_views(self.requested@).contains(k)
                    implies self.reached(k) by {
                if key_views(self.requested@).contains(k) {
                    assert(before.reached(k));
                }
                if key_views(self.queue@).contains(k) {
                    let p = choose|p: int| 0 <= p < key_views(self.queue@).len() && key_views(self.queue@)[p] == k;
                    if p < before.queue@.len() {
                        assert(key_views(before.queue@)[p] == k);
                        assert(key_views(before.queue@).contains(k));
                        assert(before.reached(k));
                    } else {
                        let q = p - before.queue@.len();
                        assert(pair_key(d.dependencies@[q]) == k);
                        let r = mid.records@.len() as int;
                        assert(self.records@[r] == d);
                        assert(pair_key(self.records@[r].dependencies@[q]) == k);
                    }
                }
            }
            assert(self.record_keys() =~= mid.record_keys().push(dependency_key(dep)));
            assert forall|r: int, q: int|
                0 <= r < self.records@.len() && 0 <= q < self.records@[r].dependencies@.len()
                    implies self.covered(pair_key(#[trigger] self.records@[r].dependencies@[q])) by {
                if r < mid.records@.len() {
                    assert(self.records@[r] == mid.records@[r]);
                    assert(before.covered(pair_key(before.records@[r].dependencies@[q])));
                }
            }
            assert forall|i: int| 0 <= i < self.roots@.len() implies self.covered(#[trigger] self.roots@[i]@) by {
                assert(before.covered(before.roots@[i]@));
            }
        }
        Ok(())
    }
}

/// Starts the resolution of the registry keys among `added_set`; the keys in
/// `known` are taken as resolved already.
pub fn install_added_dependencies(added_set: &Vec<PackageKey>, known: Vec<PackageKey>) -> (r: Resolver)
    requires
        forall|k: KeyView| key_views(known@).contains(k) ==> k is Local || !key_views(added_set@).contains(k),
    ensures
        r.wf(),
        r.awaiting is None,
        r.records@.len() == 0,
        r.requested@.len() == 0,
        r.known == known,
        key_views(r.queue@) == key_views(r.roots@),
        forall|k: KeyView|
            key_views(r.roots@).contains(k) <==> key_views(added_set@).contains(k) && k is Registry,
{
    let mut roots: Vec<PackageKey> = Vec::new();
    let mut queue: Vec<PackageKey> = Vec::new();
    let mut i: usize = 0;
    while i < added_set.len()
        invariant
            i <= added_set@.len(),
            key_views(roots@) == key_views(queue@),
            forall|k: KeyView|
                key_views(roots@).contains(k) <==> exists|j: int|
                    0 <= j < i && key_views(added_set@)[j] == k && k is Registry,
        decreases added_set.len() - i,
    {
        match &added_set[i] {
            PackageKey::WapmRegistryPackage { .. } => {
                let ghost old_roots = roots@;
                let k = added_set[i].duplicate();
                roots.push(added_set[i].duplicate());
                queue.push(k);
                proof {
                    assert(key_views(roots@) =~= key_views(old_roots).push(added_set@[i as int]@));
                    assert(key_views(queue@) =~= key_views(roots@));
                    assert forall|kk: KeyView|
                        key_views(roots@).contains(kk) <==> exists|j: int|
                            0 <= j < i + 1 && key_views(added_set@)[j] == kk && kk is Registry by {
                        if key_views(roots@).contains(kk) {
                            let p = choose|p: int| 0 <= p < key_views(roots@).len() && key_views(roots@)[p] == kk;
                            if p < old_roots.len() {
                                assert(key_views(old_roots)[p] == kk);
                                assert(key_views(old_roots).contains(kk));
                                let j = choose|j: int| 0 <= j < i && key_views(added_set@)[j] == kk && kk is Registry;
                                assert(0 <= j < i + 1 && key_views(added_set@)[j] == kk && kk is Registry);
                            } else {
                                assert(key_views(added_set@)[i as int] == kk);
                            }
                        }
                        if exists|j: int| 0 <= j < i + 1 && key_views(added_set@)[j] == kk && kk is Registry {
                            let j = choose|j: int| 0 <= j < i + 1 && key_views(added_set@)[j] == kk && kk is Registry;
                            if j == i {
                                assert(key_views(roots@)[old_roots.len() as int] == kk);
                            } else {
                                assert(key_views(old_roots).contains(kk));
                                let p = choose|p: int| 0 <= p < key_views(old_roots).len() && key_views(old_roots)[p] == kk;
                                assert(key_views(roots@)[p] == kk);
                            }
                        }
                    }
                }
            },
            PackageKey::LocalPackage { .. } => {
                proof {
                    assert forall|kk: KeyView|
                        key_views(roots@).contains(kk) <==> exists|j: int|
                            0 <= j < i + 1 && key_views(added_set@)[j] == kk && kk is Registry by {
                        if exists|j: int| 0 <= j < i + 1 && key_views(added_set@)[j] == kk && kk is Registry {
                            let j = choose|j: int| 0 <= j < i + 1 && key_views(added_set@)[j] == kk && kk is Registry;
                            assert(j != i);
                            assert(0 <= j < i && key_views(added_set@)[j] == kk && kk is Registry);
                        }
                    }
                }
            },
        }
        i = i + 1;
    }
    let r = Resolver {
        queue,
        requested: Vec::new(),
        known,
        roots,
        awaiting: None,
        records: Vec::new(),
    };
    proof {
        assert(r.record_keys() =~= key_views(r.requested@));
        assert(key_views(r.requested@) =~= Seq::<KeyView>::empty());
        assert forall|k: KeyView|
            key_views(r.queue@).contains(k) || key_views(r.requested@).contains(k) implies r.reached(k) by {
            if key_views(r.queue@).contains(k) {
                assert(key_views(r.roots@).contains(k));
            }
        }
        assert forall|i: int| 0 <= i < r.roots@.len() implies r.covered(#[trigger] r.roots@[i]@) by {
            assert(key_views(r.roots@)[i] == r.roots@[i]@);
            assert(key_views(r.queue@)[i] == r.roots@[i]@);
        }
        assert forall|k: KeyView|
            key_views(r.roots@).contains(k) <==> key_views(added_set@).contains(k) && k is Registry by {
            if key_views(added_set@).contains(k) && k is Registry {
                let j = choose|j: int| 0 <= j < key_views(added_set@).len() && key_views(added_set@)[j] == k;
            }
        }
    }
    r
}

/// Once nothing is left to fetch, every starting key and every package that a
/// received answer needs was handed out exactly once or was known already,
/// and the answers received are for exactly those keys that were not known.
pub proof fn lemma_resolution_closed(res: Resolver)
    requires
        res.wf(),
        res.is_done(),
    ensures
        res.record_keys().to_set() == key_views(res.roots@).to_set().union(res.dependency_keys()).difference(
            key_views(res.known@).to_set(),
        ),
        key_views(res.requested@).no_duplicates(),
        key_views(res.requested@) == res.record_keys(),
        forall|i: int| 0 <= i < res.roots@.len() ==> res.settled(#[trigger] res.roots@[i]@),
        forall|r: int, j: int|
            0 <= r < res.records@.len() && 0 <= j < res.records@[r].dependencies@.len()
                ==> res.settled(pair_key(#[trigger] res.records@[r].dependencies@[j])),
{
    assert forall|i: int| 0 <= i < res.roots@.len() implies res.settled(#[trigger] res.roots@[i]@) by {
        assert(res.covered(res.roots@[i]@));
    }
    assert forall|r: int, j: int|
        0 <= r < res.records@.len() && 0 <= j < res.records@[r].dependencies@.len()
            implies res.settled(pair_key(#[trigger] res.records@[r].dependencies@[j])) by {
        assert(res.covered(pair_key(res.records@[r].dependencies@[j])));
    }
    let target = key_views(res.roots@).to_set().union(res.dependency_keys()).difference(
        key_views(res.known@).to_set(),
    );
    assert forall|k: KeyView| res.record_keys().to_set().contains(k) implies target.contains(k) by {
        assert(key_views(res.requested@).contains(k));
        assert(res.reached(k));
        assert(!key_views(res.known@).contains(k));
    }
    assert forall|k: KeyView| target.contains(k) implies res.record_keys().to_set().contains(k) by {
        if key_views(res.roots@).contains(k) {
            let i = choose|i: int| 0 <= i < key_views(res.roots@).len() && key_views(res.roots@)[i] == k;
            assert(res.covered(res.roots@[i]@));
        } else {
            let (r, j) = choose|r: int, j: int|
                0 <= r < res.records@.len() && 0 <= j < res.records@[r].dependencies@.len()
                    && #[trigger] pair_key(res.records@[r].dependencies@[j]) == k;
            assert(res.covered(pair_key(res.records@[r].dependencies@[j])));
        }
        assert(key_views(res.requested@).contains(k));
    }
    assert(res.record_keys().to_set() =~= target);
}

} // verus!
