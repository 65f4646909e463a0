use std::cmp::Ordering;
use std::collections::HashMap;

use bonjour::differences::PackageDataDifferences;
use bonjour::error::BonjourError;
use bonjour::key::{compare_directories, compare_text, PackageKey};
use bonjour::lockfile_builder::{lockfile_package, regenerate_lockfile, update};
use bonjour::manifest::ManifestData;
use bonjour::model::{Lockfile, LockfileCommand, LockfileModule, PackageData};
use bonjour::resolver::{install_added_dependencies, Dependency, DependencyModule, Resolver};

fn s(x: &str) -> String {
    x.to_string()
}

fn manifest(deps: &[(&str, Option<&str>)]) -> ManifestData {
    ManifestData {
        dependencies: deps.iter().map(|(n, v)| (s(n), v.map(s))).collect(),
    }
}

fn registry_pair(k: &PackageKey) -> (String, String) {
    match k {
        PackageKey::WapmRegistryPackage { name, version } => (name.clone(), version.clone()),
        PackageKey::LocalPackage { directory } => panic!("local key {}", directory),
    }
}

fn sorted_pairs(keys: &[PackageKey]) -> Vec<(String, String)> {
    let mut v: Vec<(String, String)> = keys.iter().map(registry_pair).collect();
    v.sort();
    v
}

fn package(name: &str, version: &str, deps: &[(&str, &str)]) -> Dependency {
    Dependency {
        name: s(name),
        version: s(version),
        modules: vec![DependencyModule { name: s(name), entry: format!("{}.wasm", name), abi: s("wasi") }],
        commands: vec![LockfileCommand { name: s(name), module: s(name) }],
        dependencies: deps.iter().map(|(n, v)| (s(n), s(v))).collect(),
    }
}

fn data_for(module: &str) -> PackageData {
    PackageData::LockfilePackage {
        modules: vec![LockfileModule {
            name: s(module),
            entry: format!("{}.wasm", module),
            location: s(module),
            abi: s("none"),
        }],
        commands: vec![],
    }
}

fn lockfile_of(pairs: &[(&str, &str)]) -> Lockfile {
    let mut l = Lockfile::new();
    for (n, v) in pairs {
        assert!(l.insert_entry(PackageKey::new_registry_package(n, v), data_for(n)));
    }
    l
}

fn entry_pairs(l: &Lockfile) -> Vec<(String, String)> {
    l.entries.iter().map(|e| registry_pair(&e.key)).collect()
}

/// Drives the resolver against an in-memory registry and counts the fetches.
fn resolve(res: &mut Resolver, registry: &HashMap<(String, String), Dependency>) -> HashMap<(String, String), usize> {
    let mut fetches: HashMap<(String, String), usize> = HashMap::new();
    while let Some(k) = res.next_request() {
        let pair = registry_pair(&k);
        *fetches.entry(pair.clone()).or_insert(0) += 1;
        let dep = registry.get(&pair).expect("package in registry").clone();
        res.supply(dep).expect("answer for the requested package");
    }
    fetches
}

fn registry(packages: Vec<Dependency>) -> HashMap<(String, String), Dependency> {
    packages.into_iter().map(|d| ((d.name.clone(), d.version.clone()), d)).collect()
}

#[test]
fn empty_lockfile_gains_declared_package() {
    let (d, mut res) = update(&vec![], manifest(&[("foo", Some("1.0.0"))]), Lockfile::new()).unwrap();
    assert_eq!(sorted_pairs(&d.added_set), vec![(s("foo"), s("1.0.0"))]);
    assert!(d.removed_set.is_empty());
    assert_eq!(d.new_state.entries.len(), 0);
    let fetches = resolve(&mut res, &registry(vec![package("foo", "1.0.0", &[])]));
    assert_eq!(fetches.len(), 1);
    let l = regenerate_lockfile(d, res).unwrap();
    assert_eq!(entry_pairs(&l), vec![(s("foo"), s("1.0.0"))]);
    match &l.entries[0].data {
        PackageData::LockfilePackage { modules, commands } => {
            assert_eq!(modules.len(), 1);
            assert_eq!(modules[0].name, "foo");
            assert_eq!(modules[0].entry, "foo.wasm");
            assert_eq!(modules[0].abi, "wasi");
            assert_eq!(modules[0].location, "foo@1.0.0");
            assert_eq!(commands.len(), 1);
            assert_eq!(commands[0].name, "foo");
            assert_eq!(commands[0].module, "foo");
        }
        PackageData::ManifestDependencyPackage => panic!("expected a lockfile package"),
    }
}

#[test]
fn undeclared_package_is_removed() {
    let old = lockfile_of(&[("bar", "1.0.0"), ("baz", "2.0.0")]);
    let (d, mut res) = update(&vec![], manifest(&[("bar", Some("1.0.0"))]), old).unwrap();
    assert!(d.added_set.is_empty());
    assert_eq!(sorted_pairs(&d.removed_set), vec![(s("baz"), s("2.0.0"))]);
    let fetches = resolve(&mut res, &registry(vec![]));
    assert!(fetches.is_empty());
    let l = regenerate_lockfile(d, res).unwrap();
    assert_eq!(entry_pairs(&l), vec![(s("bar"), s("1.0.0"))]);
}

#[test]
fn transitive_dependency_is_resolved() {
    let (d, mut res) = update(&vec![], manifest(&[("foo", Some("1.0.0"))]), Lockfile::new()).unwrap();
    assert_eq!(sorted_pairs(&d.added_set), vec![(s("foo"), s("1.0.0"))]);
    let reg = registry(vec![package("foo", "1.0.0", &[("dep", "0.5.0")]), package("dep", "0.5.0", &[])]);
    let fetches = resolve(&mut res, &reg);
    assert_eq!(fetches.get(&(s("dep"), s("0.5.0"))), Some(&1));
    assert_eq!(res.records.len(), 2);
    let l = regenerate_lockfile(d, res).unwrap();
    assert_eq!(entry_pairs(&l), vec![(s("dep"), s("0.5.0")), (s("foo"), s("1.0.0"))]);
}

#[test]
fn shared_dependency_is_fetched_once() {
    let m = manifest(&[("foo", Some("1.0.0")), ("qux", Some("2.0.0")), ("dep", Some("0.5.0"))]);
    let (d, mut res) = update(&vec![], m, Lockfile::new()).unwrap();
    let reg = registry(vec![
        package("foo", "1.0.0", &[("dep", "0.5.0")]),
        package("qux", "2.0.0", &[("dep", "0.5.0"), ("foo", "1.0.0")]),
        package("dep", "0.5.0", &[]),
    ]);
    let fetches = resolve(&mut res, &reg);
    assert_eq!(fetches.len(), 3);
    assert!(fetches.values().all(|n| *n == 1));
    assert_eq!(res.requested.len(), 3);
    let l = regenerate_lockfile(d, res).unwrap();
    assert_eq!(l.entries.len(), 3);
}

#[test]
fn dependency_already_locked_is_not_fetched() {
    let old = lockfile_of(&[("dep", "0.5.0")]);
    let m = manifest(&[("dep", Some("0.5.0")), ("foo", Some("1.0.0"))]);
    let (d, mut res) = update(&vec![], m, old).unwrap();
    let reg = registry(vec![package("foo", "1.0.0", &[("dep", "0.5.0")])]);
    let fetches = resolve(&mut res, &reg);
    assert_eq!(fetches.len(), 1);
    assert_eq!(fetches.get(&(s("foo"), s("1.0.0"))), Some(&1));
    let l = regenerate_lockfile(d, res).unwrap();
    assert_eq!(entry_pairs(&l), vec![(s("dep"), s("0.5.0")), (s("foo"), s("1.0.0"))]);
}

#[test]
fn non_text_version_is_refused() {
    let r = update(&vec![], manifest(&[("ok", Some("1.0.0")), ("foo", None)]), Lockfile::new());
    match r {
        Err(BonjourError::DependencyVersionMustBeString(name)) => assert_eq!(name, "foo"),
        other => panic!("unexpected {:?}", other.map(|_| ())),
    }
}

#[test]
fn later_declaration_wins() {
    let m = manifest(&[("foo", None)]);
    let added = vec![(s("foo"), s("1.2.0"))];
    let (d, _res) = update(&added, m, Lockfile::new()).unwrap();
    assert_eq!(sorted_pairs(&d.added_set), vec![(s("foo"), s("1.2.0"))]);
}

#[test]
fn additional_packages_are_appended() {
    let mut m = manifest(&[("a", Some("1"))]);
    m.add_additional_packages(&vec![(s("b"), s("2")), (s("a"), s("3"))]);
    assert_eq!(m.dependencies.len(), 3);
    assert_eq!(m.dependencies[2], (s("a"), Some(s("3"))));
    let keys = m.declared_keys().unwrap();
    assert_eq!(sorted_pairs(&keys), vec![(s("a"), s("3")), (s("b"), s("2"))]);
}

#[test]
fn differences_are_disjoint() {
    let mut old = lockfile_of(&[("a", "1"), ("b", "1"), ("c", "1")]);
    assert!(old.insert_entry(PackageKey::LocalPackage { directory: s("/src/local") }, data_for("local")));
    let m = manifest(&[("a", Some("1")), ("b", Some("2")), ("d", Some("1"))]);
    let d = PackageDataDifferences::calculate_differences(&m, old).unwrap();
    let added = sorted_pairs(&d.added_set);
    let removed = sorted_pairs(&d.removed_set);
    assert_eq!(added, vec![(s("b"), s("2")), (s("d"), s("1"))]);
    assert_eq!(removed, vec![(s("b"), s("1")), (s("c"), s("1"))]);
    assert_eq!(d.new_state.entries.len(), 2);
    assert!(matches!(d.new_state.entries[0].key, PackageKey::LocalPackage { .. }));
    assert_eq!(registry_pair(&d.new_state.entries[1].key), (s("a"), s("1")));
    for a in &added {
        assert!(!removed.contains(a));
    }
}

#[test]
fn second_diff_after_update_is_empty() {
    let m = manifest(&[("foo", Some("1.0.0")), ("bar", Some("2.0.0"))]);
    let old = lockfile_of(&[("bar", "2.0.0"), ("gone", "1.0.0")]);
    let (d, mut res) = update(&vec![], m.clone(), old).unwrap();
    resolve(&mut res, &registry(vec![package("foo", "1.0.0", &[])]));
    let l = regenerate_lockfile(d, res).unwrap();
    let again = PackageDataDifferences::calculate_differences(&m, l).unwrap();
    assert!(again.added_set.is_empty());
    assert!(again.removed_set.is_empty());
    assert_eq!(again.new_state.entries.len(), 2);
}

#[test]
fn insertion_order_does_not_matter() {
    let x = lockfile_of(&[("b", "1"), ("a", "2"), ("a", "10"), ("c", "0")]);
    let y = lockfile_of(&[("c", "0"), ("a", "10"), ("b", "1"), ("a", "2")]);
    assert_eq!(entry_pairs(&x), entry_pairs(&y));
    assert_eq!(
        entry_pairs(&x),
        vec![(s("a"), s("10")), (s("a"), s("2")), (s("b"), s("1")), (s("c"), s("0"))]
    );
}

#[test]
fn duplicate_insert_is_refused() {
    let mut l = lockfile_of(&[("a", "1")]);
    assert!(!l.insert_entry(PackageKey::new_registry_package("a", "1"), data_for("other")));
    assert_eq!(l.entries.len(), 1);
    assert!(l.contains_key(&PackageKey::new_registry_package("a", "1")));
    assert!(!l.contains_key(&PackageKey::new_registry_package("a", "2")));
}

#[test]
fn key_order() {
    let local = PackageKey::LocalPackage { directory: s("/z") };
    let a1 = PackageKey::new_registry_package("a", "1");
    let a2 = PackageKey::new_registry_package("a", "2");
    let b0 = PackageKey::new_registry_package("b", "0");
    assert_eq!(local.cmp(&a1), Ordering::Less);
    assert_eq!(a1.cmp(&local), Ordering::Greater);
    assert_eq!(a1.cmp(&a2), Ordering::Less);
    assert_eq!(a2.cmp(&b0), Ordering::Less);
    assert_eq!(b0.cmp(&a2), Ordering::Greater);
    assert_eq!(a1.cmp(&a1.duplicate()), Ordering::Equal);
    let l2 = PackageKey::LocalPackage { directory: s("/a") };
    assert_eq!(l2.cmp(&local), Ordering::Less);
}

#[test]
fn text_comparison() {
    assert_eq!(compare_text(&s("abc"), &s("abd")), Ordering::Less);
    assert_eq!(compare_text(&s("ab"), &s("abc")), Ordering::Less);
    assert_eq!(compare_text(&s("b"), &s("abc")), Ordering::Greater);
    assert_eq!(compare_text(&s(""), &s("")), Ordering::Equal);
    assert_eq!(compare_text(&s("é"), &s("e")), Ordering::Greater);
}

#[test]
fn answer_for_another_package_is_refused() {
    let added = vec![PackageKey::new_registry_package("foo", "1.0.0")];
    let mut res = install_added_dependencies(&added, vec![]);
    let k = res.next_request().unwrap();
    assert_eq!(registry_pair(&k), (s("foo"), s("1.0.0")));
    match res.supply(package("foo", "1.0.1", &[])) {
        Err(BonjourError::InstallError(name)) => assert_eq!(name, "foo"),
        other => panic!("unexpected {:?}", other),
    }
    assert!(res.records.is_empty());
    assert!(!res.done());
}

#[test]
fn local_added_keys_are_not_fetched() {
    let added = vec![
        PackageKey::LocalPackage { directory: s("/here") },
        PackageKey::new_registry_package("foo", "1.0.0"),
    ];
    let mut res = install_added_dependencies(&added, vec![]);
    assert_eq!(res.roots.len(), 1);
    let fetches = resolve(&mut res, &registry(vec![package("foo", "1.0.0", &[])]));
    assert_eq!(fetches.len(), 1);
    assert!(res.done());
}

#[test]
fn command_without_module_is_refused() {
    let mut dep = package("foo", "1.0.0", &[]);
    dep.commands.push(LockfileCommand { name: s("run"), module: s("missing") });
    match lockfile_package(&dep) {
        Err(BonjourError::InstallError(name)) => assert_eq!(name, "run"),
        other => panic!("unexpected {:?}", other),
    }
}

#[test]
fn unfinished_resolution_is_refused() {
    let (d, res) = update(&vec![], manifest(&[("foo", Some("1.0.0"))]), Lockfile::new()).unwrap();
    assert!(matches!(regenerate_lockfile(d, res), Err(BonjourError::InstallError(_))));
}

#[test]
fn error_messages() {
    assert_eq!(
        BonjourError::DependencyVersionMustBeString(s("foo")).message(),
        "Dependency version must be a string. Package name: foo."
    );
    assert_eq!(
        BonjourError::ManifestTomlParseError(s("bad key")).message(),
        "Could not parse manifest because bad key."
    );
    assert_eq!(
        BonjourError::LockfileTomlParseError(s("bad table")).message(),
        "Could not parse lockfile because bad table."
    );
    assert_eq!(BonjourError::InstallError(s("offline")).message(), "Could not install added packages. offline.");
    assert_eq!(BonjourError::LockfileSaveError(s("disk full")).message(), "Could not save lockfile. disk full.");
}

#[test]
fn local_packages_are_always_kept() {
    let mut old = Lockfile::new();
    assert!(old.insert_entry(PackageKey::LocalPackage { directory: s("/work/pkg") }, data_for("pkg")));
    let (d, res) = update(&vec![], manifest(&[]), old).unwrap();
    assert!(d.added_set.is_empty());
    assert!(d.removed_set.is_empty());
    assert!(res.done());
    let l = regenerate_lockfile(d, res).unwrap();
    assert_eq!(l.entries.len(), 1);
    assert!(matches!(&l.entries[0].key, PackageKey::LocalPackage { directory } if directory == "/work/pkg"));
}

fn local(d: &str) -> PackageKey {
    PackageKey::LocalPackage { directory: s(d) }
}

#[test]
fn local_keys_follow_path_order() {
    assert_eq!(local("a/b").cmp(&local("a-b")), Ordering::Less);
    assert_eq!(local("a-b").cmp(&local("a/b")), Ordering::Greater);
    assert_eq!(local("a").cmp(&local("a/")), Ordering::Equal);
    assert_eq!(local("a/./b").cmp(&local("a/b")), Ordering::Equal);
    assert_eq!(local("/x").cmp(&local("x")), Ordering::Less);
    assert_eq!(local("../x").cmp(&local("x")), Ordering::Less);
    assert_eq!(compare_directories(&s("a/b/c"), &s("a/b")), Ordering::Greater);
    assert_eq!(compare_directories(&s("a//b"), &s("a/b")), Ordering::Equal);
}

#[test]
fn same_path_is_one_local_package() {
    let mut l = Lockfile::new();
    assert!(l.insert_entry(local("work/pkg"), data_for("pkg")));
    assert!(!l.insert_entry(local("work/pkg/"), data_for("pkg")));
    assert!(l.insert_entry(local("work-pkg"), data_for("pkg")));
    assert!(matches!(&l.entries[0].key, PackageKey::LocalPackage { directory } if directory == "work/pkg"));
}

#[test]
fn queue_starts_with_the_added_registry_keys() {
    let added = vec![
        PackageKey::new_registry_package("foo", "1.0.0"),
        local("/here"),
        PackageKey::new_registry_package("bar", "2.0.0"),
    ];
    let res = install_added_dependencies(&added, vec![]);
    assert_eq!(sorted_pairs(&res.queue), vec![(s("bar"), s("2.0.0")), (s("foo"), s("1.0.0"))]);
    assert_eq!(sorted_pairs(&res.roots), sorted_pairs(&res.queue));
}

#[test]
fn answer_queues_its_dependencies() {
    let added = vec![PackageKey::new_registry_package("foo", "1.0.0")];
    let mut res = install_added_dependencies(&added, vec![]);
    let _ = res.next_request().unwrap();
    assert!(res.queue.is_empty());
    res.supply(package("foo", "1.0.0", &[("a", "1"), ("b", "2")])).unwrap();
    assert_eq!(sorted_pairs(&res.queue), vec![(s("a"), s("1")), (s("b"), s("2"))]);
}

#[test]
fn nothing_added_means_nothing_fetched() {
    let mut res = install_added_dependencies(&vec![], vec![]);
    assert!(res.next_request().is_none());
    let old = lockfile_of(&[("bar", "1.0.0"), ("baz", "2.0.0")]);
    let (_d, mut res) = update(&vec![], manifest(&[("bar", Some("1.0.0"))]), old).unwrap();
    assert!(res.next_request().is_none());
}

#[test]
fn package_commands_must_name_modules() {
    let modules = vec![LockfileModule { name: s("m"), entry: s("m.wasm"), location: s("x"), abi: s("none") }];
    let ok = PackageData::checked_package(modules.clone(), vec![LockfileCommand { name: s("run"), module: s("m") }]);
    assert!(matches!(ok, Ok(PackageData::LockfilePackage { .. })));
    match PackageData::checked_package(modules, vec![LockfileCommand { name: s("go"), module: s("n") }]) {
        Err(BonjourError::LockfileTomlParseError(name)) => assert_eq!(name, "go"),
        other => panic!("unexpected {:?}", other),
    }
}
