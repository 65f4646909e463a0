//! The lockfile model: package entries kept in strictly ascending key order.

use vstd::prelude::*;
use core::cmp::Ordering;
use crate::key::{KeyView, PackageKey, key_lt, lemma_key_lt_asymmetric, lemma_key_lt_irreflexive,
    lemma_key_lt_transitive};

verus! {

/// An installable build artifact of a package.
#[derive(Clone, Debug)]
pub struct LockfileModule {
    pub name: String,
    pub entry: String,
    pub location: String,
    pub abi: String,
}

/// A named executable of a package, backed by one of its modules.
#[derive(Clone, Debug)]
pub struct LockfileCommand {
    pub name: String,
    pub module: String,
}

/// What is recorded of a package.
#[derive(Clone, Debug)]
pub enum PackageData {
    LockfilePackage { modules: Vec<LockfileModule>, commands: Vec<LockfileCommand> },
    ManifestDependencyPackage,
}

/// The command names one of the modules.
pub open spec fn has_module(modules: Seq<LockfileModule>, command: LockfileCommand) -> bool {
    exists|m: int| 0 <= m < modules.len() && modules[m].name@ == command.module@
}

/// Every command names a module of the same package.
pub open spec fn commands_backed(modules: Seq<LockfileModule>, commands: Seq<LockfileCommand>) -> bool {
    forall|c: int| 0 <= c < commands.len() ==> #[trigger] has_module(modules, commands[c])
}

impl PackageData {
    pub open spec fn wf(&self) -> bool {
        match self {
            PackageData::LockfilePackage { modules, commands } => commands_backed(modules@, commands@),
            PackageData::ManifestDependencyPackage => true,
        }
    }
}

impl PackageData {
    /// A lockfile package with these modules and commands. Fails, naming the
    /// command, where a command names none of the modules.
    pub fn checked_package(modules: Vec<LockfileModule>, commands: Vec<LockfileCommand>) -> (r: Result<
        PackageData,
        crate::error::BonjourError,
    >)
        ensures
            r is Ok <==> commands_backed(modules@, commands@),
            r matches Ok(d) ==> d.wf() && d == (PackageData::LockfilePackage { modules, commands }),
            r matches Err(e) ==> e is LockfileTomlParseError,
    {
        let mut c: usize = 0;
        while c < commands.len()
            invariant
                c <= commands@.len(),
                forall|q: int| 0 <= q < c ==> #[trigger] has_module(modules@, commands@[q]),
            decreases commands.len() - c,
        {
            let mut m: usize = 0;
            let mut found = false;
            while m < modules.len() && !found
                invariant
                    m <= modules@.len(),
                    c < commands@.len(),
                    forall|q: int| 0 <= q < c ==> #[trigger] has_module(modules@, commands@[q]),
                    found ==> has_module(modules@, commands@[c as int]),
                    !found ==> forall|p: int|
                        0 <= p < m ==> (#[trigger] modules@[p]).name@ != commands@[c as int].module@,
                decreases modules.len() - m,
            {
                if matches!(crate::key::compare_text(&modules[m].name, &commands[c].module), Ordering::Equal) {
                    found = true;
                }
                m = m + 1;
            }
            if !found {
                assert(!has_module(modules@, commands@[c as int]));
                return Err(crate::error::BonjourError::LockfileTomlParseError(commands[c].name.clone()));
            }
            c = c + 1;
        }
        Ok(PackageData::LockfilePackage { modules, commands })
    }
}

/// One package of a lockfile.
#[derive(Clone, Debug)]
pub struct LockfileEntry {
    pub key: PackageKey,
    pub data: PackageData,
}

/// The resolved package set, in ascending key order.
#[derive(Clone, Debug)]
pub struct Lockfile {
    pub entries: Vec<LockfileEntry>,
}

/// The keys of `s` ascend strictly.
pub open spec fn sorted_by_key(s: Seq<(KeyView, PackageData)>) -> bool {
    forall|i: int, j: int| 0 <= i < j < s.len() ==> key_lt(#[trigger] s[i].0, #[trigger] s[j].0)
}

/// The keys that occur in `s`.
pub open spec fn keys_of(s: Seq<(KeyView, PackageData)>) -> Set<KeyView> {
    Set::new(|k: KeyView| exists|i: int| 0 <= i < s.len() && #[trigger] s[i].0 == k)
}

impl View for Lockfile {
    type V = Seq<(KeyView, PackageData)>;

    open spec fn view(&self) -> Seq<(KeyView, PackageData)> {
        self.entries@.map_values(|e: LockfileEntry| (e.key@, e.data))
    }
}

impl Lockfile {
    pub open spec fn wf(&self) -> bool {
        &&& sorted_by_key(self@)
        &&& forall|i: int| 0 <= i < self@.len() ==> (#[trigger] self@[i]).1.wf()
    }

    pub open spec fn key_set(&self) -> Set<KeyView> {
        keys_of(self@)
    }

    /// A lockfile with no packages.
    pub fn new() -> (r: Lockfile)
        ensures
            r.wf(),
            r@ == Seq::<(KeyView, PackageData)>::empty(),
    {
        let r = Lockfile { entries: Vec::new() };
        assert(r@ =~= Seq::<(KeyView, PackageData)>::empty());
        r
    }

    pub fn len(&self) -> (r: usize)
        ensures
            r == self@.len(),
    {
        self.entries.len()
    }

    /// The keys of the packages, in order.
    pub fn keys(&self) -> (r: Vec<PackageKey>)
        ensures
            crate::key::key_views(r@) == self@.map_values(|p: (KeyView, PackageData)| p.0),
    {
        let mut r: Vec<PackageKey> = Vec::new();
        let mut i: usize = 0;
        while i < self.entries.len()
            invariant
                i <= self@.len(),
                crate::key::key_views(r@) == self@.subrange(0, i as int).map_values(
                    |p: (KeyView, PackageData)| p.0,
                ),
            decreases self.entries.len() - i,
        {
            let ghost old_r = r@;
            r.push(self.entries[i].key.duplicate());
            proof {
                assert(crate::key::key_views(r@) =~= crate::key::key_views(old_r).push(self@[i as int].0));
                assert(self@.subrange(0, i + 1) =~= self@.subrange(0, i as int).push(self@[i as int]));
                assert(crate::key::key_views(r@) =~= self@.subrange(0, i + 1).map_values(
                    |p: (KeyView, PackageData)| p.0,
                ));
            }
            i = i + 1;
        }
        assert(self@.subrange(0, i as int) =~= self@);
        r
    }

    /// Whether a package with this key is present.
    pub fn contains_key(&self, key: &PackageKey) -> (r: bool)
        ensures
            r == self.key_set().contains(key@),
    {
        let mut i: usize = 0;
        while i < self.entries.len()
            invariant
                i <= self@.len(),
                forall|j: int| 0 <= j < i ==> self@[j].0 != key@,
            decreases self.entries.len() - i,
        {
            if matches!(self.entries[i].key.cmp(key), Ordering::Equal) {
                assert(self@[i as int].0 == key@);
                return true;
            }
            i = i + 1;
        }
        false
    }

    /// Inserts a package at its place in key order. A key that is already
    /// present is refused and the lockfile is left as it was.
    pub fn insert_entry(&mut self, key: PackageKey, data: PackageData) -> (r: bool)
        requires
            old(self).wf(),
            data.wf(),
        ensures
            final(self).wf(),
            r == !old(self).key_set().contains(key@),
            r ==> final(self)@.to_set() == old(self)@.to_set().insert((key@, data)),
            r ==> final(self).key_set() == old(self).key_set().insert(key@),
            r ==> final(self)@.len() == old(self)@.len() + 1,
            !r ==> final(self)@ == old(self)@,
    {
        let mut i: usize = 0;
        while i < self.entries.len()
            invariant
                self@ == old(self)@,
                self.wf(),
                i <= self@.len(),
                forall|j: int| 0 <= j < i ==> key_lt(self@[j].0, key@),
            ensures
                self@ == old(self)@,
                i <= self@.len(),
                forall|j: int| 0 <= j < i ==> key_lt(self@[j].0, key@),
                i < self@.len() ==> key_lt(key@, self@[i as int].0),
            decreases self.entries.len() - i,
        {
            let c = self.entries[i].key.cmp(&key);
            if matches!(c, Ordering::Equal) {
                assert(self@[i as int].0 == key@);
                assert(self.key_set().contains(key@));
                return false;
            }
            if matches!(c, Ordering::Greater) {
                break;
            }
            i = i + 1;
        }
        proof {
            assert forall|j: int| i <= j < self@.len() implies key_lt(key@, self@[j].0) by {
                if j > i {
                    lemma_key_lt_transitive(key@, self@[i as int].0, self@[j].0);
                }
            }
            assert(!self.key_set().contains(key@)) by {
                if self.key_set().contains(key@) {
                    let j = choose|j: int| 0 <= j < self@.len() && self@[j].0 == key@;
                    lemma_key_lt_irreflexive(key@);
                }
            }
        }
        let ghost pair = (key@, data);
        self.entries.insert(i, LockfileEntry { key, data });
        proof {
            assert(self@ =~= old(self)@.insert(i as int, pair));
            assert forall|a: int, b: int| 0 <= a < b < self@.len() implies key_lt(
                #[trigger] self@[a].0,
                #[trigger] self@[b].0,
            ) by {
                if a < i && b > i {
                    if b - 1 >= i {
                        lemma_key_lt_transitive(self@[a].0, key@, self@[b].0);
                    }
                }
            }
            assert(self@.to_set() =~= old(self)@.to_set().insert(pair)) by {
                assert forall|x| self@.to_set().contains(x) implies old(self)@.to_set().insert(
                    pair,
                ).contains(x) by {
                    let j = choose|j: int| 0 <= j < self@.len() && self@[j] == x;
                    if j > i {
                        assert(old(self)@[j - 1] == x);
                    }
                }
                assert forall|x| old(self)@.to_set().insert(pair).contains(x) implies self@.to_set().contains(
                    x,
                ) by {
                    if x == pair {
                        assert(self@[i as int] == x);
                    } else {
                        let j = choose|j: int| 0 <= j < old(self)@.len() && old(self)@[j] == x;
                        if j >= i {
                            assert(self@[j + 1] == x);
                        } else {
                            assert(self@[j] == x);
                        }
                    }
                }
            }
            assert(self.key_set() =~= old(self).key_set().insert(key@)) by {
                assert forall|k| self.key_set().contains(k) implies old(self).key_set().insert(
                    k,
                ).contains(k) && (k == key@ || old(self).key_set().contains(k)) by {
                    let j = choose|j: int| 0 <= j < self@.len() && self@[j].0 == k;
                    if j > i {
                        assert(old(self)@[j - 1].0 == k);
                    } else if j < i {
                        assert(old(self)@[j].0 == k);
                    }
                }
                assert forall|k| old(self).key_set().insert(key@).contains(k) implies self.key_set().contains(
                    k,
                ) by {
                    if k == key@ {
                        assert(self@[i as int].0 == k);
                    } else {
                        let j = choose|j: int| 0 <= j < old(self)@.len() && old(self)@[j].0 == k;
                        if j >= i {
                            assert(self@[j + 1].0 == k);
                        } else {
                            assert(self@[j].0 == k);
                        }
                    }
                }
            }
        }
        true
    }
}

proof fn lemma_sorted_unique(a: Seq<(KeyView, PackageData)>, b: Seq<(KeyView, PackageData)>)
    requires
        sorted_by_key(a),
        sorted_by_key(b),
        a.to_set() == b.to_set(),
    ensures
        a == b,
    decreases a.len(),
{
    if a.len() == 0 {
        if b.len() > 0 {
            assert(b.to_set().contains(b[0]));
        }
        assert(a =~= b);
    } else {
        assert(a.to_set().contains(a[0]));
        let j = choose|j: int| 0 <= j < b.len() && b[j] == a[0];
        assert(b.to_set().contains(b[0]));
        let i = choose|i: int| 0 <= i < a.len() && a[i] == b[0];
        if j > 0 {
            lemma_key_lt_irreflexive(a[0].0);
            if i > 0 {
                lemma_key_lt_asymmetric(a[0].0, a[i].0);
            }
        }
        assert(a[0] == b[0]);
        let ta = a.drop_first();
        let tb = b.drop_first();
        assert(sorted_by_key(ta));
        assert(sorted_by_key(tb));
        assert(ta.to_set() =~= tb.to_set()) by {
            assert forall|x| ta.to_set().contains(x) implies tb.to_set().contains(x) by {
                let p = choose|p: int| 0 <= p < ta.len() && ta[p] == x;
                assert(a[p + 1] == x);
                assert(b.to_set().contains(x));
                let q = choose|q: int| 0 <= q < b.len() && b[q] == x;
                if q == 0 {
                    lemma_key_lt_irreflexive(a[0].0);
                }
                assert(tb[q - 1] == x);
            }
            assert forall|x| tb.to_set().contains(x) implies ta.to_set().contains(x) by {
                let p = choose|p: int| 0 <= p < tb.len() && tb[p] == x;
                assert(b[p + 1] == x);
                assert(a.to_set().contains(x));
                let q = choose|q: int| 0 <= q < a.len() && a[q] == x;
                if q == 0 {
                    lemma_key_lt_irreflexive(b[0].0);
                }
                assert(ta[q - 1] == x);
            }
        }
        lemma_sorted_unique(ta, tb);
        assert(ta.len() == tb.len());
        assert(a.len() == b.len());
        assert(a =~= b) by {
            assert forall|k: int| 0 <= k < a.len() implies a[k] == b[k] by {
                if k > 0 {
                    assert(a[k] == ta[k - 1]);
                    assert(b[k] == tb[k - 1]);
                }
            }
        }
    }
}

/// Two well-formed lockfiles that hold the same packages list them in the
/// same order, whatever order the packages were inserted in.
pub proof fn lemma_lockfile_order_determined(x: Lockfile, y: Lockfile)
    requires
        x.wf(),
        y.wf(),
        x@.to_set() == y@.to_set(),
    ensures
        x@ == y@,
{
    lemma_sorted_unique(x@, y@);
}

} // verus!
