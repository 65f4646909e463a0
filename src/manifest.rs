//! The declared dependencies of a project.

use vstd::prelude::*;
use core::cmp::Ordering;
use crate::error::BonjourError;
use crate::key::{KeyView, PackageKey, compare_text, key_views};

verus! {

/// Declared dependencies, by name, each with its version if that was given as
/// text (`None` where it was given as something else). Where a name is
/// declared more than once, the last declaration counts.
#[derive(Clone, Debug)]
pub struct ManifestData {
    pub dependencies: Vec<(String, Option<String>)>,
}

pub open spec fn version_view(v: Option<String>) -> Option<Seq<char>> {
    match v {
        Some(s) => Some(s@),
        None => None,
    }
}

/// (name, version) pairs as declarations with text versions.
pub open spec fn as_declarations(pairs: Seq<(String, String)>) -> Seq<(String, Option<String>)> {
    pairs.map_values(|p: (String, String)| (p.0, Some(p.1)))
}

/// The declarations of `s` as a map from name to version; later ones win.
pub open spec fn declared_map(s: Seq<(String, Option<String>)>) -> Map<Seq<char>, Option<Seq<char>>>
    decreases s.len(),
{
    if s.len() == 0 {
        Map::empty()
    } else {
        declared_map(s.drop_last()).insert(s.last().0@, version_view(s.last().1))
    }
}

/// The declaration at `j` is the last one of its name.
pub open spec fn is_last_of_name(s: Seq<(String, Option<String>)>, j: int) -> bool {
    forall|k: int| j < k < s.len() ==> (#[trigger] s[k]).0@ != s[j].0@
}

/// The registry keys that a declaration map implies.
pub open spec fn manifest_keys(m: Map<Seq<char>, Option<Seq<char>>>) -> Set<KeyView> {
    Set::new(
        |k: KeyView|
            match k {
                KeyView::Registry(n, v) => m.contains_key(n) && m[n] == Some(v),
                KeyView::Local(_) => false,
            },
    )
}

/// The key that the declaration at `j` names, if its version is text.
pub open spec fn declared_key(s: Seq<(String, Option<String>)>, j: int) -> Option<KeyView> {
    match s[j].1 {
        Some(v) => Some(KeyView::Registry(s[j].0@, v@)),
        None => None,
    }
}

/// Every declared version is text.
pub open spec fn versions_are_text(m: Map<Seq<char>, Option<Seq<char>>>) -> bool {
    forall|n: Seq<char>| #[trigger] m.contains_key(n) ==> m[n] is Some
}

proof fn lemma_declared_map_last(s: Seq<(String, Option<String>)>, n: Seq<char>)
    ensures
        declared_map(s).contains_key(n) <==> exists|j: int|
            0 <= j < s.len() && s[j].0@ == n && is_last_of_name(s, j),
        forall|j: int|
            0 <= j < s.len() && s[j].0@ == n && is_last_of_name(s, j) ==> declared_map(s)[n]
                == version_view(s[j].1),
    decreases s.len(),
{
    if s.len() > 0 {
        let t = s.drop_last();
        lemma_declared_map_last(t, n);
        let l = s.len() - 1;
        if s[l].0@ == n {
            assert(is_last_of_name(s, l));
            assert forall|j: int|
                0 <= j < s.len() && s[j].0@ == n && is_last_of_name(s, j) implies j == l by {
                if j < l {
                    assert(s[l].0@ != s[j].0@);
                }
            }
        } else {
            assert forall|j: int| 0 <= j < t.len() && t[j].0@ == n implies is_last_of_name(s, j)
                == is_last_of_name(t, j) by {
                assert(s[j] == t[j]);
                if is_last_of_name(t, j) && s[j].0@ == n {
                    assert forall|k: int| j < k < s.len() implies (#[trigger] s[k]).0@ != s[j].0@ by {
                        if k < l {
                            assert(t[k] == s[k]);
                        }
                    }
                }
                if is_last_of_name(s, j) {
                    assert forall|k: int| j < k < t.len() implies (#[trigger] t[k]).0@ != t[j].0@ by {
                        assert(t[k] == s[k]);
                    }
                }
            }
            if declared_map(s).contains_key(n) {
                let j = choose|j: int| 0 <= j < t.len() && t[j].0@ == n && is_last_of_name(t, j);
                assert(s[j] == t[j]);
                assert(is_last_of_name(s, j));
            }
            assert forall|j: int|
                0 <= j < s.len() && s[j].0@ == n && is_last_of_name(s, j) implies declared_map(s)[n]
                    == version_view(s[j].1) by {
                assert(s[j] == t[j]);
                assert(is_last_of_name(t, j));
            }
            if exists|j: int| 0 <= j < s.len() && s[j].0@ == n && is_last_of_name(s, j) {
                let j = choose|j: int| 0 <= j < s.len() && s[j].0@ == n && is_last_of_name(s, j);
                assert(s[j] == t[j]);
                assert(is_last_of_name(t, j));
            }
        }
    }
}

/// Whether the declaration at `i` is the last one of its name.
fn last_of_name(deps: &Vec<(String, Option<String>)>, i: usize) -> (r: bool)
    requires
        i < deps@.len(),
    ensures
        r == is_last_of_name(deps@, i as int),
{
    let mut k: usize = i;
    while k < deps.len()
        invariant
            i <= k <= deps@.len(),
            forall|q: int| i < q < k ==> (#[trigger] deps@[q]).0@ != deps@[i as int].0@,
        decreases deps.len() - k,
    {
        if k != i && matches!(compare_text(&deps[k].0, &deps[i].0), Ordering::Equal) {
            return false;
        }
        k = k + 1;
    }
    true
}

impl View for ManifestData {
    type V = Map<Seq<char>, Option<Seq<char>>>;

    open spec fn view(&self) -> Map<Seq<char>, Option<Seq<char>>> {
        declared_map(self.dependencies@)
    }
}

impl ManifestData {
    /// Adds the given (name, version) pairs as declarations; they win over
    /// earlier declarations of the same name, and a later pair over an
    /// earlier one.
    pub fn add_additional_packages(&mut self, added_packages: &Vec<(String, String)>)
        ensures
            final(self).dependencies@ == old(self).dependencies@ + as_declarations(added_packages@),
    {
        let ghost n0 = self.dependencies@;
        let mut i: usize = 0;
        while i < added_packages.len()
            invariant
                i <= added_packages@.len(),
                n0 == old(self).dependencies@,
                self.dependencies@ == n0 + as_declarations(added_packages@.subrange(0, i as int)),
            decreases added_packages.len() - i,
        {
            let name = added_packages[i].0.clone();
            let version = added_packages[i].1.clone();
            self.dependencies.push((name, Some(version)));
            proof {
                assert(added_packages@.subrange(0, i + 1) =~= added_packages@.subrange(0, i as int).push(
                    added_packages@[i as int],
                ));
                assert(self.dependencies@ =~= n0 + as_declarations(added_packages@.subrange(0, i + 1)));
            }
            i = i + 1;
        }
        assert(added_packages@.subrange(0, i as int) =~= added_packages@);
    }

    /// The registry keys that the manifest declares, each once; fails on the
    /// first name (in declaration order) whose version is not text.
    pub fn declared_keys(&self) -> (r: Result<Vec<PackageKey>, BonjourError>)
        ensures
            r is Ok <==> versions_are_text(self@),
            r matches Ok(keys) ==> key_views(keys@).to_set() == manifest_keys(self@) && key_views(
                keys@,
            ).no_duplicates(),
            r matches Err(e) ==> e matches BonjourError::DependencyVersionMustBeString(n) && self@.contains_key(n@)
                && self@[n@] is None,
    {
        let deps = &self.dependencies;
        let mut keys: Vec<PackageKey> = Vec::new();
        let mut i: usize = 0;
        while i < deps.len()
            invariant
                deps@ == self.dependencies@,
                i <= deps@.len(),
                key_views(keys@).no_duplicates(),
                forall|j: int|
                    0 <= j < i && is_last_of_name(deps@, j) ==> deps@[j].1 is Some,
                forall|k: KeyView|
                    key_views(keys@).contains(k) <==> exists|j: int|
                        0 <= j < i && is_last_of_name(deps@, j) && declared_key(deps@, j) == Some(k),
            decreases deps.len() - i,
        {
            if last_of_name(deps, i) {
                match &deps[i].1 {
                    None => {
                        proof {
                            let n = deps@[i as int].0@;
                            lemma_declared_map_last(deps@, n);
                            assert(0 <= i < deps@.len() && deps@[i as int].0@ == n
                                && is_last_of_name(deps@, i as int));
                            assert(self@.contains_key(n));
                            assert(self@[n] is None);
                        }
                        return Err(BonjourError::DependencyVersionMustBeString(deps[i].0.clone()));
                    },
                    Some(v) => {
                        let key = PackageKey::WapmRegistryPackage {
                            name: deps[i].0.clone(),
                            version: v.clone(),
                        };
                        let ghost old_keys = keys@;
                        proof {
                            assert(forall|k: KeyView|
                                key_views(old_keys).contains(k) <==> exists|j: int|
                                    0 <= j < i && is_last_of_name(deps@, j) && declared_key(deps@, j) == Some(k));
                            assert forall|p: int| 0 <= p < key_views(keys@).len() implies key_views(keys@)[p] != key@ by {
                                if key_views(keys@)[p] == key@ {
                                    assert(key_views(keys@).contains(key@));
                                    let j = choose|j: int|
                                        0 <= j < i && is_last_of_name(deps@, j) && declared_key(deps@, j) == Some(key@);
                                    assert(deps@[i as int].0@ != deps@[j].0@);
                                }
                            }
                        }
                        keys.push(key);
                        proof {
                            assert(key_views(keys@) =~= key_views(old_keys).push(key@));
                            assert forall|k: KeyView|
                                key_views(keys@).contains(k) <==> exists|j: int|
                                    0 <= j < i + 1 && is_last_of_name(deps@, j) && declared_key(deps@, j) == Some(k) by {
                                if k == key@ {
                                    assert(is_last_of_name(deps@, i as int));
                                    assert(declared_key(deps@, i as int) == Some(k));
                                }
                                if key_views(keys@).contains(k) && k != key@ {
                                    let p = choose|p: int| 0 <= p < key_views(keys@).len() && key_views(keys@)[p] == k;
                                    assert(key_views(old_keys)[p] == k);
                                    assert(key_views(old_keys).contains(k));
                                    let j = choose|j: int|
                                        0 <= j < i && is_last_of_name(deps@, j) && declared_key(deps@, j) == Some(k);
                                    assert(0 <= j < i + 1 && is_last_of_name(deps@, j) && declared_key(deps@, j) == Some(k));
                                }
                                if exists|j: int|
                                    0 <= j < i + 1 && is_last_of_name(deps@, j) && declared_key(deps@, j) == Some(k) {
                                    let j = choose|j: int|
                                        0 <= j < i + 1 && is_last_of_name(deps@, j) && declared_key(deps@, j) == Some(k);
                                    if j == i {
                                        assert(key_views(keys@)[old_keys.len() as int] == k);
                                    } else {
                                        assert(key_views(old_keys).contains(k));
                                        let p = choose|p: int| 0 <= p < key_views(old_keys).len() && key_views(old_keys)[p] == k;
                                        assert(key_views(keys@)[p] == k);
                                    }
                                }
                            }
                        }
                    },
                }
            }
            i = i + 1;
        }
        proof {
            assert forall|n: Seq<char>| #[trigger] self@.contains_key(n) implies self@[n] is Some by {
                lemma_declared_map_last(deps@, n);
            }
            assert forall|k: KeyView| key_views(keys@).contains(k) <==> manifest_keys(self@).contains(k) by {
                match k {
                    KeyView::Registry(n, v) => {
                        lemma_declared_map_last(deps@, n);
                    },
                    KeyView::Local(_) => {},
                }
            }
            assert(key_views(keys@).to_set() =~= manifest_keys(self@));
        }
        Ok(keys)
    }
}

} // verus!
