//! Identity keys of packages and their total order.

use vstd::prelude::*;
use core::cmp::Ordering;
use std::path::Component;

verus! {

/// A package identity: a local directory, or a registry package pinned to a
/// version.
#[derive(Clone, Debug)]
pub enum PackageKey {
    LocalPackage { directory: String },
    WapmRegistryPackage { name: String, version: String },
}

/// One component of a directory path.
#[derive(Clone, Debug)]
pub enum DirComponent {
    Prefix(String),
    RootDir,
    CurDir,
    ParentDir,
    Normal(String),
}

/// The mathematical value of a path component.
pub enum ComponentView {
    Prefix(Seq<char>),
    RootDir,
    CurDir,
    ParentDir,
    Normal(Seq<char>),
}

impl View for DirComponent {
    type V = ComponentView;

    open spec fn view(&self) -> ComponentView {
        match self {
            DirComponent::Prefix(p) => ComponentView::Prefix(p@),
            DirComponent::RootDir => ComponentView::RootDir,
            DirComponent::CurDir => ComponentView::CurDir,
            DirComponent::ParentDir => ComponentView::ParentDir,
            DirComponent::Normal(n) => ComponentView::Normal(n@),
        }
    }
}

pub open spec fn component_views(s: Seq<DirComponent>) -> Seq<ComponentView> {
    s.map_values(|c: DirComponent| c@)
}

/// The components of a directory path, as `std::path::Path` splits it.
pub uninterp spec fn path_components(directory: Seq<char>) -> Seq<ComponentView>;

/// Relies on `std::path::Path::components`: the components of the path, in
/// order, with each variant carried over and its text kept.
#[verifier::external_body]
fn components_of(directory: &String) -> (r: Vec<DirComponent>)
    ensures
        component_views(r@) == path_components(directory@),
{
    std::path::Path::new(directory.as_str()).components().map(|c| match c {
        Component::Prefix(p) => DirComponent::Prefix(p.as_os_str().to_string_lossy().into_owned()),
        Component::RootDir => DirComponent::RootDir,
        Component::CurDir => DirComponent::CurDir,
        Component::ParentDir => DirComponent::ParentDir,
        Component::Normal(n) => DirComponent::Normal(n.to_string_lossy().into_owned()),
    }).collect()
}

/// The mathematical value of a key: a local directory by its path
/// components, a registry package by name and version.
pub enum KeyView {
    Local(Seq<ComponentView>),
    Registry(Seq<char>, Seq<char>),
}

impl View for PackageKey {
    type V = KeyView;

    open spec fn view(&self) -> KeyView {
        match self {
            PackageKey::LocalPackage { directory } => KeyView::Local(path_components(directory@)),
            PackageKey::WapmRegistryPackage { name, version } => KeyView::Registry(name@, version@),
        }
    }
}

/// `a` is strictly below `b` in the lexicographic order of characters.
pub open spec fn text_lt(a: Seq<char>, b: Seq<char>) -> bool {
    exists|i: int|
        #![trigger a.subrange(0, i), b.subrange(0, i)]
        0 <= i <= a.len() && i <= b.len() && a.subrange(0, i) == b.subrange(0, i) && ((i == a.len()
            && i < b.len()) || (i < a.len() && i < b.len() && a[i] < b[i]))
}

/// The rank of a component's kind in the path order.
pub open spec fn component_rank(c: ComponentView) -> int {
    match c {
        ComponentView::Prefix(_) => 0,
        ComponentView::RootDir => 1,
        ComponentView::CurDir => 2,
        ComponentView::ParentDir => 3,
        ComponentView::Normal(_) => 4,
    }
}

/// The order of path components: by kind, then by text.
pub open spec fn component_lt(a: ComponentView, b: ComponentView) -> bool {
    match (a, b) {
        (ComponentView::Prefix(x), ComponentView::Prefix(y)) => text_lt(x, y),
        (ComponentView::Normal(x), ComponentView::Normal(y)) => text_lt(x, y),
        _ => component_rank(a) < component_rank(b),
    }
}

/// `a` is strictly below `b` in the lexicographic order of components.
pub open spec fn components_lt(a: Seq<ComponentView>, b: Seq<ComponentView>) -> bool {
    exists|i: int|
        #![trigger a.subrange(0, i), b.subrange(0, i)]
        0 <= i <= a.len() && i <= b.len() && a.subrange(0, i) == b.subrange(0, i) && ((i == a.len()
            && i < b.len()) || (i < a.len() && i < b.len() && component_lt(a[i], b[i])))
}

/// The order of keys: every local key comes before every registry key; local
/// keys go by path components, registry keys by name and then by version.
pub open spec fn key_lt(a: KeyView, b: KeyView) -> bool {
    match (a, b) {
        (KeyView::Local(x), KeyView::Local(y)) => components_lt(x, y),
        (KeyView::Local(_), KeyView::Registry(_, _)) => true,
        (KeyView::Registry(_, _), KeyView::Local(_)) => false,
        (KeyView::Registry(n1, v1), KeyView::Registry(n2, v2)) => text_lt(n1, n2) || (n1 == n2
            && text_lt(v1, v2)),
    }
}

/// No text is below itself.
pub proof fn lemma_text_lt_irreflexive(a: Seq<char>)
    ensures
        !text_lt(a, a),
{
}

/// The text order is transitive.
pub proof fn lemma_text_lt_transitive(a: Seq<char>, b: Seq<char>, c: Seq<char>)
    requires
        text_lt(a, b),
        text_lt(b, c),
    ensures
        text_lt(a, c),
{
    let i = choose|i: int|
        #![trigger a.subrange(0, i), b.subrange(0, i)]
        0 <= i <= a.len() && i <= b.len() && a.subrange(0, i) == b.subrange(0, i) && ((i == a.len()
            && i < b.len()) || (i < a.len() && i < b.len() && a[i] < b[i]));
    let j = choose|j: int|
        #![trigger b.subrange(0, j), c.subrange(0, j)]
        0 <= j <= b.len() && j <= c.len() && b.subrange(0, j) == c.subrange(0, j) && ((j == b.len()
            && j < c.len()) || (j < b.len() && j < c.len() && b[j] < c[j]));
    let k = if i < j { i } else { j };
    assert(a.subrange(0, k) == a.subrange(0, i).subrange(0, k));
    assert(b.subrange(0, k) == b.subrange(0, i).subrange(0, k));
    assert(b.subrange(0, k) == b.subrange(0, j).subrange(0, k));
    assert(c.subrange(0, k) == c.subrange(0, j).subrange(0, k));
    if i < j {
        assert(b[i] == b.subrange(0, j)[i]);
        assert(c[i] == c.subrange(0, j)[i]);
    } else if j < i {
        assert(a[j] == a.subrange(0, i)[j]);
        assert(b[j] == b.subrange(0, i)[j]);
    }
    assert(a.subrange(0, k) == c.subrange(0, k));
}

proof fn lemma_text_total_from(a: Seq<char>, b: Seq<char>, i: int)
    requires
        0 <= i <= a.len(),
        i <= b.len(),
        a.subrange(0, i) == b.subrange(0, i),
    ensures
        a == b || text_lt(a, b) || text_lt(b, a),
    decreases a.len() - i,
{
    if i == a.len() && i == b.len() {
        assert(a == a.subrange(0, i));
        assert(b == b.subrange(0, i));
    } else if i == a.len() || i == b.len() || a[i] != b[i] {
        assert(text_lt(a, b) || text_lt(b, a));
    } else {
        assert(a.subrange(0, i + 1) == a.subrange(0, i).push(a[i]));
        assert(b.subrange(0, i + 1) == b.subrange(0, i).push(b[i]));
        lemma_text_total_from(a, b, i + 1);
    }
}

proof fn lemma_text_lt_asymmetric(a: Seq<char>, b: Seq<char>)
    requires
        text_lt(a, b),
    ensures
        !text_lt(b, a),
{
    if text_lt(b, a) {
        lemma_text_lt_transitive(a, b, a);
        lemma_text_lt_irreflexive(a);
    }
}

/// Of two different texts, one is below the other.
pub proof fn lemma_text_lt_total(a: Seq<char>, b: Seq<char>)
    ensures
        a == b || text_lt(a, b) || text_lt(b, a),
{
    assert(a.subrange(0, 0) == b.subrange(0, 0));
    lemma_text_total_from(a, b, 0);
}

proof fn lemma_component_lt_transitive(a: ComponentView, b: ComponentView, c: ComponentView)
    requires
        component_lt(a, b),
        component_lt(b, c),
    ensures
        component_lt(a, c),
{
    match (a, b, c) {
        (ComponentView::Prefix(x), ComponentView::Prefix(y), ComponentView::Prefix(z)) => {
            lemma_text_lt_transitive(x, y, z);
        },
        (ComponentView::Normal(x), ComponentView::Normal(y), ComponentView::Normal(z)) => {
            lemma_text_lt_transitive(x, y, z);
        },
        _ => {},
    }
}

proof fn lemma_component_lt_total(a: ComponentView, b: ComponentView)
    ensures
        a == b || component_lt(a, b) || component_lt(b, a),
        !component_lt(a, a),
{
    match (a, b) {
        (ComponentView::Prefix(x), ComponentView::Prefix(y)) => {
            lemma_text_lt_total(x, y);
            lemma_text_lt_irreflexive(x);
        },
        (ComponentView::Normal(x), ComponentView::Normal(y)) => {
            lemma_text_lt_total(x, y);
            lemma_text_lt_irreflexive(x);
        },
        (ComponentView::Prefix(x), _) => lemma_text_lt_irreflexive(x),
        (ComponentView::Normal(x), _) => lemma_text_lt_irreflexive(x),
        _ => {},
    }
}

/// No component sequence is below itself.
pub proof fn lemma_components_lt_irreflexive(a: Seq<ComponentView>)
    ensures
        !components_lt(a, a),
{
    if components_lt(a, a) {
        let i = choose|i: int|
            #![trigger a.subrange(0, i), a.subrange(0, i)]
            0 <= i <= a.len() && i <= a.len() && a.subrange(0, i) == a.subrange(0, i) && ((i
                == a.len() && i < a.len()) || (i < a.len() && i < a.len() && component_lt(a[i], a[i])));
        lemma_component_lt_total(a[i], a[i]);
    }
}

/// The component order is transitive.
pub proof fn lemma_components_lt_transitive(
    a: Seq<ComponentView>,
    b: Seq<ComponentView>,
    c: Seq<ComponentView>,
)
    requires
        components_lt(a, b),
        components_lt(b, c),
    ensures
        components_lt(a, c),
{
    let i = choose|i: int|
        #![trigger a.subrange(0, i), b.subrange(0, i)]
        0 <= i <= a.len() && i <= b.len() && a.subrange(0, i) == b.subrange(0, i) && ((i == a.len()
            && i < b.len()) || (i < a.len() && i < b.len() && component_lt(a[i], b[i])));
    let j = choose|j: int|
        #![trigger b.subrange(0, j), c.subrange(0, j)]
        0 <= j <= b.len() && j <= c.len() && b.subrange(0, j) == c.subrange(0, j) && ((j == b.len()
            && j < c.len()) || (j < b.len() && j < c.len() && component_lt(b[j], c[j])));
    let k = if i < j { i } else { j };
    assert(a.subrange(0, k) == a.subrange(0, i).subrange(0, k));
    assert(b.subrange(0, k) == b.subrange(0, i).subrange(0, k));
    assert(b.subrange(0, k) == b.subrange(0, j).subrange(0, k));
    assert(c.subrange(0, k) == c.subrange(0, j).subrange(0, k));
    if i < j {
        assert(b[i] == b.subrange(0, j)[i]);
        assert(c[i] == c.subrange(0, j)[i]);
    } else if j < i {
        assert(a[j] == a.subrange(0, i)[j]);
        assert(b[j] == b.subrange(0, i)[j]);
    } else if i < a.len() && j < b.len() {
        lemma_component_lt_transitive(a[i], b[i], c[i]);
    }
    assert(a.subrange(0, k) == c.subrange(0, k));
}

proof fn lemma_components_total_from(a: Seq<ComponentView>, b: Seq<ComponentView>, i: int)
    requires
        0 <= i <= a.len(),
        i <= b.len(),
        a.subrange(0, i) == b.subrange(0, i),
    ensures
        a == b || components_lt(a, b) || components_lt(b, a),
    decreases a.len() - i,
{
    if i == a.len() && i == b.len() {
        assert(a == a.subrange(0, i));
        assert(b == b.subrange(0, i));
    } else if i == a.len() || i == b.len() {
        assert(components_lt(a, b) || components_lt(b, a));
    } else if a[i] != b[i] {
        lemma_component_lt_total(a[i], b[i]);
        assert(components_lt(a, b) || components_lt(b, a));
    } else {
        assert(a.subrange(0, i + 1) == a.subrange(0, i).push(a[i]));
        assert(b.subrange(0, i + 1) == b.subrange(0, i).push(b[i]));
        lemma_components_total_from(a, b, i + 1);
    }
}

/// Of two different component sequences, one is below the other.
pub proof fn lemma_components_lt_total(a: Seq<ComponentView>, b: Seq<ComponentView>)
    ensures
        a == b || components_lt(a, b) || components_lt(b, a),
{
    assert(a.subrange(0, 0) == b.subrange(0, 0));
    lemma_components_total_from(a, b, 0);
}

/// No key is below itself.
pub proof fn lemma_key_lt_irreflexive(a: KeyView)
    ensures
        !key_lt(a, a),
{
    match a {
        KeyView::Local(x) => lemma_components_lt_irreflexive(x),
        KeyView::Registry(n, v) => {
            lemma_text_lt_irreflexive(n);
            lemma_text_lt_irreflexive(v);
        },
    }
}

/// The key order is transitive.
pub proof fn lemma_key_lt_transitive(a: KeyView, b: KeyView, c: KeyView)
    requires
        key_lt(a, b),
        key_lt(b, c),
    ensures
        key_lt(a, c),
{
    match (a, b, c) {
        (KeyView::Local(x), KeyView::Local(y), KeyView::Local(z)) => {
            lemma_components_lt_transitive(x, y, z);
        },
        (KeyView::Registry(n1, v1), KeyView::Registry(n2, v2), KeyView::Registry(n3, v3)) => {
            if text_lt(n1, n2) && text_lt(n2, n3) {
                lemma_text_lt_transitive(n1, n2, n3);
            } else if text_lt(v1, v2) && text_lt(v2, v3) {
                lemma_text_lt_transitive(v1, v2, v3);
            }
        },
        _ => {},
    }
}

/// Of two different keys, one is below the other: with irreflexivity and
/// transitivity, the key order is a strict total order.
pub proof fn lemma_key_lt_total(a: KeyView, b: KeyView)
    ensures
        a == b || key_lt(a, b) || key_lt(b, a),
{
    match (a, b) {
        (KeyView::Local(x), KeyView::Local(y)) => lemma_components_lt_total(x, y),
        (KeyView::Registry(n1, v1), KeyView::Registry(n2, v2)) => {
            lemma_text_lt_total(n1, n2);
            lemma_text_lt_total(v1, v2);
        },
        _ => {},
    }
}

/// Of two keys, at most one is below the other.
pub proof fn lemma_key_lt_asymmetric(a: KeyView, b: KeyView)
    requires
        key_lt(a, b),
    ensures
        !key_lt(b, a),
{
    if key_lt(b, a) {
        lemma_key_lt_transitive(a, b, a);
        lemma_key_lt_irreflexive(a);
    }
}

/// Compares two texts character by character.
pub fn compare_text(a: &String, b: &String) -> (r: Ordering)
    ensures
        (r == Ordering::Less) == text_lt(a@, b@),
        (r == Ordering::Equal) == (a@ == b@),
        (r == Ordering::Greater) == text_lt(b@, a@),
{
    let la = a.as_str().unicode_len();
    let lb = b.as_str().unicode_len();
    let mut i: usize = 0;
    while i < la && i < lb
        invariant
            la == a@.len(),
            lb == b@.len(),
            i <= la,
            i <= lb,
            a@.subrange(0, i as int) == b@.subrange(0, i as int),
        decreases la - i,
    {
        let ca = a.as_str().get_char(i);
        let cb = b.as_str().get_char(i);
        if ca < cb {
            proof {
                assert(text_lt(a@, b@));
                lemma_text_lt_asymmetric(a@, b@);
                lemma_text_lt_irreflexive(a@);
            }
            return Ordering::Less;
        }
        if cb < ca {
            proof {
                assert(text_lt(b@, a@));
                lemma_text_lt_asymmetric(b@, a@);
                lemma_text_lt_irreflexive(a@);
            }
            return Ordering::Greater;
        }
        proof {
            assert(a@.subrange(0, i + 1) == a@.subrange(0, i as int).push(ca));
            assert(b@.subrange(0, i + 1) == b@.subrange(0, i as int).push(cb));
        }
        i = i + 1;
    }
    proof {
        lemma_text_lt_irreflexive(a@);
        lemma_text_lt_irreflexive(b@);
    }
    if la < lb {
        proof {
            assert(text_lt(a@, b@));
            lemma_text_lt_asymmetric(a@, b@);
        }
        Ordering::Less
    } else if lb < la {
        proof {
            assert(text_lt(b@, a@));
            lemma_text_lt_asymmetric(b@, a@);
        }
        Ordering::Greater
    } else {
        proof {
            assert(a@ == a@.subrange(0, i as int));
            assert(b@ == b@.subrange(0, i as int));
        }
        Ordering::Equal
    }
}

fn compare_component(a: &DirComponent, b: &DirComponent) -> (r: Ordering)
    ensures
        (r == Ordering::Less) == component_lt(a@, b@),
        (r == Ordering::Equal) == (a@ == b@),
        (r == Ordering::Greater) == component_lt(b@, a@),
{
    proof {
        lemma_component_lt_total(a@, b@);
        lemma_component_lt_total(b@, a@);
    }
    match (a, b) {
        (DirComponent::Prefix(x), DirComponent::Prefix(y)) => compare_text(x, y),
        (DirComponent::Normal(x), DirComponent::Normal(y)) => compare_text(x, y),
        _ => {
            let ra = component_rank_of(a);
            let rb = component_rank_of(b);
            if ra < rb {
                Ordering::Less
            } else if rb < ra {
                Ordering::Greater
            } else {
                Ordering::Equal
            }
        },
    }
}

fn component_rank_of(c: &DirComponent) -> (r: u8)
    ensures
        r as int == component_rank(c@),
{
    match c {
        DirComponent::Prefix(_) => 0,
        DirComponent::RootDir => 1,
        DirComponent::CurDir => 2,
        DirComponent::ParentDir => 3,
        DirComponent::Normal(_) => 4,
    }
}

/// Compares two directories by their path components.
pub fn compare_directories(a: &String, b: &String) -> (r: Ordering)
    ensures
        (r == Ordering::Less) == components_lt(path_components(a@), path_components(b@)),
        (r == Ordering::Equal) == (path_components(a@) == path_components(b@)),
        (r == Ordering::Greater) == components_lt(path_components(b@), path_components(a@)),
{
    let ca = components_of(a);
    let cb = components_of(b);
    let ghost x = component_views(ca@);
    let ghost y = component_views(cb@);
    let la = ca.len();
    let lb = cb.len();
    let mut i: usize = 0;
    while i < la && i < lb
        invariant
            la == x.len(),
            lb == y.len(),
            x == component_views(ca@),
            y == component_views(cb@),
            x == path_components(a@),
            y == path_components(b@),
            i <= la,
            i <= lb,
            x.subrange(0, i as int) == y.subrange(0, i as int),
        decreases la - i,
    {
        let c = compare_component(&ca[i], &cb[i]);
        assert(x[i as int] == ca@[i as int]@);
        assert(y[i as int] == cb@[i as int]@);
        match c {
            Ordering::Less => {
                proof {
                    assert(components_lt(x, y));
                    lemma_components_lt_irreflexive(x);
                    if components_lt(y, x) {
                        lemma_components_lt_transitive(x, y, x);
                    }
                }
                return Ordering::Less;
            },
            Ordering::Greater => {
                proof {
                    assert(components_lt(y, x));
                    lemma_components_lt_irreflexive(x);
                    if components_lt(x, y) {
                        lemma_components_lt_transitive(x, y, x);
                    }
                }
                return Ordering::Greater;
            },
            Ordering::Equal => {},
        }
        proof {
            assert(x.subrange(0, i + 1) == x.subrange(0, i as int).push(x[i as int]));
            assert(y.subrange(0, i + 1) == y.subrange(0, i as int).push(y[i as int]));
        }
        i = i + 1;
    }
    proof {
        lemma_components_lt_irreflexive(x);
        lemma_components_lt_irreflexive(y);
    }
    if la < lb {
        proof {
            assert(components_lt(x, y));
            if components_lt(y, x) {
                lemma_components_lt_transitive(x, y, x);
            }
        }
        Ordering::Less
    } else if lb < la {
        proof {
            assert(components_lt(y, x));
            if components_lt(x, y) {
                lemma_components_lt_transitive(x, y, x);
            }
        }
        Ordering::Greater
    } else {
        proof {
            assert(x == x.subrange(0, i as int));
            assert(y == y.subrange(0, i as int));
        }
        Ordering::Equal
    }
}

impl PackageKey {
    pub fn new_registry_package(name: &str, version: &str) -> (r: PackageKey)
        ensures
            r@ == KeyView::Registry(name@, version@),
    {
        PackageKey::WapmRegistryPackage { name: name.to_string(), version: version.to_string() }
    }

    /// Compares two keys in the key order.
    pub fn cmp(&self, other: &PackageKey) -> (r: Ordering)
        ensures
            (r == Ordering::Less) == key_lt(self@, other@),
            (r == Ordering::Equal) == (self@ == other@),
            (r == Ordering::Greater) == key_lt(other@, self@),
    {
        match (self, other) {
            (
                PackageKey::WapmRegistryPackage { name, version },
                PackageKey::WapmRegistryPackage { name: other_name, version: other_version },
            ) => {
                let name_cmp = compare_text(name, other_name);
                match name_cmp {
                    Ordering::Equal => compare_text(version, other_version),
                    _ => name_cmp,
                }
            },
            (
                PackageKey::LocalPackage { directory },
                PackageKey::LocalPackage { directory: other_directory },
            ) => compare_directories(directory, other_directory),
            (PackageKey::LocalPackage { .. }, _) => Ordering::Less,
            (PackageKey::WapmRegistryPackage { .. }, _) => Ordering::Greater,
        }
    }

    /// A copy of the key with the same value.
    pub fn duplicate(&self) -> (r: PackageKey)
        ensures
            r@ == self@,
    {
        match self {
            PackageKey::LocalPackage { directory } => PackageKey::LocalPackage {
                directory: directory.clone(),
            },
            PackageKey::WapmRegistryPackage { name, version } => PackageKey::WapmRegistryPackage {
                name: name.clone(),
                version: version.clone(),
            },
        }
    }
}

} // verus!

verus! {

/// The values of a sequence of keys.
pub open spec fn key_views(s: Seq<PackageKey>) -> Seq<KeyView> {
    s.map_values(|k: PackageKey| k@)
}

/// Whether a key with the value of `key` is in `keys`.
pub fn contains_key(keys: &Vec<PackageKey>, key: &PackageKey) -> (r: bool)
    ensures
        r == key_views(keys@).contains(key@),
{
    let mut i: usize = 0;
    while i < keys.len()
        invariant
            i <= keys@.len(),
            forall|j: int| 0 <= j < i ==> keys@[j]@ != key@,
        decreases keys.len() - i,
    {
        if matches!(keys[i].cmp(key), Ordering::Equal) {
            assert(key_views(keys@)[i as int] == key@);
            return true;
        }
        i = i + 1;
    }
    false
}

} // verus!
