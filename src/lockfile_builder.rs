//! Building the new lockfile from the carried-over packages and the
//! registry's answers, and the update operation that leads there.

use vstd::prelude::*;
use core::cmp::Ordering;
use crate::differences::{
    PackageDataDifferences, added_keys, kept_entries, removed_keys, unchanged_keys,
};
use crate::error::BonjourError;
use crate::key::{KeyView, PackageKey, compare_text, key_views};
use crate::manifest::{ManifestData, as_declarations, declared_map, manifest_keys, versions_are_text};
use crate::model::{Lockfile, LockfileCommand, LockfileModule, PackageData, has_module};
use crate::resolver::{Dependency, Resolver, dependency_key, install_added_dependencies};

verus! {

proof fn lemma_push_to_set(s: Seq<KeyView>, x: KeyView)
    ensures
        s.push(x).to_set() == s.to_set().insert(x),
{
    assert forall|y: KeyView| s.push(x).to_set().contains(y) implies s.to_set().insert(x).contains(y) by {
        let p = choose|p: int| 0 <= p < s.push(x).len() && s.push(x)[p] == y;
        if p < s.len() {
            assert(s[p] == y);
        }
    }
    assert forall|y: KeyView| s.to_set().insert(x).contains(y) implies s.push(x).to_set().contains(y) by {
        if y == x {
            assert(s.push(x)[s.len() as int] == y);
        } else {
            let p = choose|p: int| 0 <= p < s.len() && s[p] == y;
            assert(s.push(x)[p] == y);
        }
    }
    assert(s.push(x).to_set() =~= s.to_set().insert(x));
}

/// The command at `c` names a module of the answer.
pub open spec fn command_backed(d: Dependency, c: int) -> bool {
    exists|m: int| 0 <= m < d.modules@.len() && d.modules@[m].name@ == d.commands@[c].module@
}

/// Every command of the answer names one of its modules.
pub open spec fn dependency_backed(d: Dependency) -> bool {
    forall|c: int| 0 <= c < d.commands@.len() ==> #[trigger] command_backed(d, c)
}

/// Where the modules of a package version are found.
pub open spec fn package_location(name: Seq<char>, version: Seq<char>) -> Seq<char> {
    name + seq!['@'] + version
}

/// `data` is what the lockfile records of the answer `d`.
pub open spec fn describes(d: Dependency, data: PackageData) -> bool {
    match data {
        PackageData::LockfilePackage { modules, commands } => {
            &&& modules@.len() == d.modules@.len()
            &&& forall|i: int|
                0 <= i < modules@.len() ==> {
                    &&& (#[trigger] modules@[i]).name@ == d.modules@[i].name@
                    &&& modules@[i].entry@ == d.modules@[i].entry@
                    &&& modules@[i].abi@ == d.modules@[i].abi@
                    &&& modules@[i].location@ == package_location(d.name@, d.version@)
                }
            &&& commands@.len() == d.commands@.len()
            &&& forall|i: int|
                0 <= i < commands@.len() ==> (#[trigger] commands@[i]).name@ == d.commands@[i].name@
                    && commands@[i].module@ == d.commands@[i].module@
        },
        PackageData::ManifestDependencyPackage => false,
    }
}

/// The modules and commands that the lockfile records of a registry answer.
/// Fails, naming the command, where a command names no module of the package.
pub fn lockfile_package(dep: &Dependency) -> (r: Result<PackageData, BonjourError>)
    ensures
        r is Ok <==> dependency_backed(*dep),
        r matches Ok(data) ==> describes(*dep, data) && data.wf(),
{
    let mut c: usize = 0;
    while c < dep.commands.len()
        invariant
            c <= dep.commands@.len(),
            forall|q: int| 0 <= q < c ==> #[trigger] command_backed(*dep, q),
        decreases dep.commands.len() - c,
    {
        let mut m: usize = 0;
        let mut found = false;
        while m < dep.modules.len() && !found
            invariant
                m <= dep.modules@.len(),
                c < dep.commands@.len(),
                forall|q: int| 0 <= q < c ==> #[trigger] command_backed(*dep, q),
                found ==> command_backed(*dep, c as int),
                !found ==> forall|p: int|
                    0 <= p < m ==> (#[trigger] dep.modules@[p]).name@ != dep.commands@[c as int].module@,
            decreases dep.modules.len() - m,
        {
            if matches!(compare_text(&dep.modules[m].name, &dep.commands[c].module), Ordering::Equal) {
                found = true;
            }
            m = m + 1;
        }
        if !found {
            assert(!command_backed(*dep, c as int));
            return Err(BonjourError::InstallError(dep.commands[c].name.clone()));
        }
        c = c + 1;
    }
    let mut location = dep.name.clone();
    location.append("@");
    location.append(dep.version.as_str());
    proof {
        reveal_strlit("@");
        assert(location@ =~= package_location(dep.name@, dep.version@));
    }
    let mut modules: Vec<LockfileModule> = Vec::new();
    let mut i: usize = 0;
    while i < dep.modules.len()
        invariant
            i <= dep.modules@.len(),
            location@ == package_location(dep.name@, dep.version@),
            dependency_backed(*dep),
            modules@.len() == i,
            forall|q: int|
                0 <= q < i ==> {
                    &&& (#[trigger] modules@[q]).name@ == dep.modules@[q].name@
                    &&& modules@[q].entry@ == dep.modules@[q].entry@
                    &&& modules@[q].abi@ == dep.modules@[q].abi@
                    &&& modules@[q].location@ == package_location(dep.name@, dep.version@)
                },
        decreases dep.modules.len() - i,
    {
        modules.push(
            LockfileModule {
                name: dep.modules[i].name.clone(),
                entry: dep.modules[i].entry.clone(),
                location: location.clone(),
                abi: dep.modules[i].abi.clone(),
            },
        );
        i = i + 1;
    }
    let mut commands: Vec<LockfileCommand> = Vec::new();
    let mut j: usize = 0;
    while j < dep.commands.len()
        invariant
            j <= dep.commands@.len(),
            dependency_backed(*dep),
            modules@.len() == dep.modules@.len(),
            forall|q: int|
                0 <= q < modules@.len() ==> {
                    &&& (#[trigger] modules@[q]).name@ == dep.modules@[q].name@
                    &&& modules@[q].entry@ == dep.modules@[q].entry@
                    &&& modules@[q].abi@ == dep.modules@[q].abi@
                    &&& modules@[q].location@ == package_location(dep.name@, dep.version@)
                },
            commands@.len() == j,
            forall|q: int|
                0 <= q < j ==> (#[trigger] commands@[q]).name@ == dep.commands@[q].name@
                    && commands@[q].module@ == dep.commands@[q].module@,
        decreases dep.commands.len() - j,
    {
        commands.push(
            LockfileCommand { name: dep.commands[j].name.clone(), module: dep.commands[j].module.clone() },
        );
        j = j + 1;
    }
    let data = PackageData::LockfilePackage { modules, commands };
    proof {
        assert forall|q: int| 0 <= q < commands@.len() implies #[trigger] has_module(modules@, commands@[q]) by {
            assert(command_backed(*dep, q));
            let p = choose|p: int|
                0 <= p < dep.modules@.len() && dep.modules@[p].name@ == dep.commands@[q].module@;
            assert(modules@[p].name@ == commands@[q].module@);
        }
    }
    assert(describes(*dep, data));
    assert(data.wf());
    Ok(data)
}

/// The new lockfile can be built: nothing is left to fetch, every answer's
/// commands name its modules, and no two packages share a key.
pub open spec fn can_build(base: Lockfile, res: Resolver) -> bool {
    &&& res.is_done()
    &&& forall|i: int| 0 <= i < res.records@.len() ==> dependency_backed(#[trigger] res.records@[i])
    &&& res.record_keys().no_duplicates()
    &&& forall|i: int| 0 <= i < res.records@.len() ==> !base.key_set().contains(#[trigger] res.record_keys()[i])
}

/// Merges the carried-over packages with the registry's answers into the new
/// lockfile. Fails without building anything where `can_build` does not hold.
pub fn regenerate_lockfile(differences: PackageDataDifferences, resolver: Resolver) -> (r: Result<
    Lockfile,
    BonjourError,
>)
    requires
        differences.new_state.wf(),
    ensures
        r is Ok <==> can_build(differences.new_state, resolver),
        r matches Ok(l) ==> l.wf(),
        r matches Ok(l) ==> l.key_set() == differences.new_state.key_set().union(
            resolver.record_keys().to_set(),
        ),
        r matches Ok(l) ==> differences.new_state@.to_set().subset_of(l@.to_set()),
        r matches Ok(l) ==> forall|x: (KeyView, PackageData)| #[trigger]
            l@.to_set().contains(x) ==> differences.new_state@.to_set().contains(x) || exists|i: int|
                0 <= i < resolver.records@.len() && x.0 == dependency_key(resolver.records@[i])
                    && describes(resolver.records@[i], x.1),
        r matches Ok(l) ==> forall|i: int|
            #![trigger resolver.records@[i]]
            0 <= i < resolver.records@.len() ==> exists|data: PackageData|
                #[trigger] l@.to_set().contains((dependency_key(resolver.records@[i]), data)) && describes(
                    resolver.records@[i],
                    data,
                ),
{
    if !resolver.done() {
        return Err(BonjourError::InstallError("resolution is not finished".to_string()));
    }
    let base = differences.new_state;
    let ghost b = base;
    let records = resolver.records;
    let ghost rk = resolver.record_keys();
    let mut l = base;
    let ghost mut built: Seq<PackageData> = Seq::empty();
    let mut i: usize = 0;
    while i < records.len()
        invariant
            records == resolver.records,
            rk == resolver.record_keys(),
            i <= records@.len(),
            b == differences.new_state,
            b.wf(),
            l.wf(),
            built.len() == i,
            l.key_set() == b.key_set().union(rk.subrange(0, i as int).to_set()),
            b@.to_set().subset_of(l@.to_set()),
            forall|x: (KeyView, PackageData)| #[trigger]
                l@.to_set().contains(x) ==> b@.to_set().contains(x) || exists|q: int|
                    0 <= q < i && x.0 == dependency_key(records@[q]) && describes(records@[q], x.1),
            forall|q: int|
                0 <= q < i ==> l@.to_set().contains((dependency_key(records@[q]), #[trigger] built[q]))
                    && describes(records@[q], built[q]),
            forall|q: int| 0 <= q < i ==> dependency_backed(#[trigger] records@[q]),
            rk.subrange(0, i as int).no_duplicates(),
            forall|q: int| 0 <= q < i ==> !b.key_set().contains(#[trigger] rk[q]),
        decreases records.len() - i,
    {
        let dep = &records[i];
        let data = match lockfile_package(dep) {
            Ok(data) => data,
            Err(e) => {
                assert(!dependency_backed(resolver.records@[i as int]));
                return Err(e);
            },
        };
        let key = PackageKey::new_registry_package(dep.name.as_str(), dep.version.as_str());
        assert(rk[i as int] == key@);
        let ghost before = l;
        let ghost d = data;
        if !l.insert_entry(key, data) {
            proof {
                assert(l.key_set().contains(rk[i as int]));
                if b.key_set().contains(rk[i as int]) {
                    assert(b.key_set().contains(resolver.record_keys()[i as int]));
                    assert(!can_build(differences.new_state, resolver));
                } else {
                    assert(rk.subrange(0, i as int).to_set().contains(rk[i as int]));
                    let q = choose|q: int| 0 <= q < i && rk.subrange(0, i as int)[q] == rk[i as int];
                    assert(rk[q] == rk[i as int]);
                    assert(!rk.no_duplicates());
                    assert(!can_build(differences.new_state, resolver));
                }
            }
            return Err(BonjourError::InstallError(dep.name.clone()));
        }
        proof {
            assert(rk.subrange(0, i + 1) =~= rk.subrange(0, i as int).push(rk[i as int]));
            lemma_push_to_set(rk.subrange(0, i as int), rk[i as int]);
            assert(l.key_set() =~= b.key_set().union(rk.subrange(0, i + 1).to_set()));
            assert(!b.key_set().contains(rk[i as int]));
            assert forall|p: int, q: int|
                #![trigger rk.subrange(0, i + 1)[p], rk.subrange(0, i + 1)[q]]
                0 <= p < i + 1 && 0 <= q < i + 1 && p != q implies rk.subrange(0, i + 1)[p] != rk.subrange(
                    0,
                    i + 1,
                )[q] by {
                if p == i {
                    assert(rk.subrange(0, i as int)[q] == rk[q]);
                    assert(rk.subrange(0, i as int).contains(rk[q]));
                    assert(rk.subrange(0, i as int).to_set().contains(rk[q]));
                    assert(!before.key_set().contains(rk[i as int]));
                } else if q == i {
                    assert(rk.subrange(0, i as int)[p] == rk[p]);
                    assert(rk.subrange(0, i as int).contains(rk[p]));
                    assert(rk.subrange(0, i as int).to_set().contains(rk[p]));
                    assert(!before.key_set().contains(rk[i as int]));
                } else {
                    assert(rk.subrange(0, i as int)[p] == rk[p]);
                    assert(rk.subrange(0, i as int)[q] == rk[q]);
                }
            }
            built = built.push(d);
            assert forall|x: (KeyView, PackageData)| #[trigger]
                l@.to_set().contains(x) implies b@.to_set().contains(x) || exists|q: int|
                    0 <= q < i + 1 && x.0 == dependency_key(records@[q]) && describes(records@[q], x.1) by {
                if x == (rk[i as int], d) {
                    assert(x.0 == dependency_key(records@[i as int]));
                } else {
                    assert(before@.to_set().contains(x));
                }
            }
            assert forall|q: int| 0 <= q < i + 1 implies l@.to_set().contains((dependency_key(records@[q]), #[trigger] built[q]))
                && describes(records@[q], built[q]) by {
                if q < i {
                    assert(before@.to_set().contains((dependency_key(records@[q]), built[q])));
                }
            }
        }
        i = i + 1;
    }
    proof {
        assert(rk.subrange(0, i as int) =~= rk);
        assert forall|q: int| #![trigger records@[q]] 0 <= q < records@.len() implies exists|data: PackageData|
            #[trigger] l@.to_set().contains((dependency_key(records@[q]), data)) && describes(records@[q], data) by {
            assert(l@.to_set().contains((dependency_key(records@[q]), built[q])));
        }
    }
    Ok(l)
}

/// Adds the given packages to the manifest, compares it with the lockfile,
/// and starts the resolution of the added registry packages. The packages
/// that the lockfile keeps count as resolved.
pub fn update(added_packages: &Vec<(String, String)>, manifest: ManifestData, lockfile: Lockfile) -> (r: Result<
    (PackageDataDifferences, Resolver),
    BonjourError,
>)
    requires
        lockfile.wf(),
    ensures
        ({
            let m = declared_map(manifest.dependencies@ + as_declarations(added_packages@));
            let mk = manifest_keys(m);
            &&& r is Ok <==> versions_are_text(m)
            &&& r matches Err(e) ==> e matches BonjourError::DependencyVersionMustBeString(n)
                && m.contains_key(n@) && m[n@] is None
            &&& r matches Ok(p) ==> {
                let d = p.0;
                let res = p.1;
                &&& key_views(d.added_set@).to_set() == added_keys(mk, lockfile.key_set())
                &&& key_views(d.added_set@).no_duplicates()
                &&& key_views(d.removed_set@).to_set() == removed_keys(mk, lockfile.key_set())
                &&& key_views(d.removed_set@).no_duplicates()
                &&& d.new_state.wf()
                &&& d.new_state@.to_set() == kept_entries(mk, lockfile@)
                &&& d.new_state.key_set() == unchanged_keys(mk, lockfile.key_set())
                &&& res.wf()
                &&& res.awaiting is None
                &&& res.records@.len() == 0
                &&& res.requested@.len() == 0
                &&& key_views(res.known@).to_set() == d.new_state.key_set()
                &&& forall|k: KeyView|
                    key_views(res.roots@).contains(k) <==> key_views(d.added_set@).contains(k)
            }
        }),
{
    let mut manifest_data = manifest;
    manifest_data.add_additional_packages(added_packages);
    let differences = match PackageDataDifferences::calculate_differences(&manifest_data, lockfile) {
        Ok(d) => d,
        Err(e) => {
            return Err(e);
        },
    };
    let ghost mk = manifest_keys(manifest_data@);
    let known = differences.new_state.keys();
    proof {
        let lk = lockfile.key_set();
        assert forall|k: KeyView| key_views(known@).contains(k) implies k is Local || !key_views(
            differences.added_set@,
        ).contains(k) by {
            let p = choose|p: int| 0 <= p < key_views(known@).len() && key_views(known@)[p] == k;
            assert(differences.new_state@[p].0 == k);
            assert(differences.new_state.key_set().contains(k));
            assert(unchanged_keys(mk, lk).contains(k));
            if key_views(differences.added_set@).contains(k) {
                assert(key_views(differences.added_set@).to_set().contains(k));
                assert(added_keys(mk, lk).contains(k));
            }
        }
        assert(key_views(known@).to_set() =~= differences.new_state.key_set()) by {
            assert forall|k: KeyView| differences.new_state.key_set().contains(k) implies key_views(known@).contains(k) by {
                let p = choose|p: int| 0 <= p < differences.new_state@.len() && differences.new_state@[p].0 == k;
                assert(key_views(known@)[p] == k);
            }
        }
    }
    let resolver = install_added_dependencies(&differences.added_set, known);
    proof {
        assert forall|k: KeyView|
            key_views(resolver.roots@).contains(k) <==> key_views(differences.added_set@).contains(k) by {
            if key_views(differences.added_set@).contains(k) {
                assert(key_views(differences.added_set@).to_set().contains(k));
                assert(mk.contains(k));
                assert(k is Registry);
            }
        }
    }
    Ok((differences, resolver))
}

} // verus!
