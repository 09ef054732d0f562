use vstd::prelude::*;

verus! {

/// The JSON value type that dependency maps hold; its contents are never read here.
#[verifier::external_type_specification]
#[verifier::external_body]
pub struct ExJsonValue(serde_json::Value);

/// The JSON object type that dependency maps are made of.
#[verifier::external_type_specification]
#[verifier::external_body]
#[verifier::reject_recursive_types(K)]
#[verifier::reject_recursive_types(V)]
pub struct ExJsonMap<K, V>(serde_json::Map<K, V>);

/// A map from package name to version requirement, as a manifest or lockfile lists it.
pub type Packages = serde_json::Map<String, serde_json::Value>;

/// The entries of a dependency map: each package name with its value.
pub uninterp spec fn package_entries(m: Packages) -> Map<Seq<char>, serde_json::Value>;

/// The package names that a dependency map holds (its keys).
pub open spec fn package_names(m: Packages) -> Set<Seq<char>> {
    package_entries(m).dom()
}

/// `serde_json::Map::contains_key`: true exactly when `name` is one of the keys.
#[verifier::external_body]
pub(crate) fn packages_contain(packages: &Packages, name: &str) -> (r: bool)
    ensures
        r == package_entries(*packages).dom().contains(name@),
{
    packages.contains_key(name)
}

/// `Extend::extend` of `serde_json::Map`, which inserts each entry of
/// `source` in turn: the entries afterwards are those of both maps, the
/// value of `source` winning for a name that both hold.
#[verifier::external_body]
pub(crate) fn packages_extend(target: &mut Packages, source: Packages)
    ensures
        package_entries(*final(target)) == package_entries(*old(target)).union_prefer_right(
            package_entries(source),
        ),
{
    target.extend(source)
}

} // verus!
