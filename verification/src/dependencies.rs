use vstd::prelude::*;

use crate::packages::{package_names, packages_contain, Packages};
use crate::text::{insert_unique_sorted, strictly_sorted_strs, strs_view};

verus! {

/// What to look for in a dependency map: pairs of a package to look for and
/// the import to add when it is there, and the imports always added.
pub struct Dependencies {
    pub packages: Packages,
    pub valid_deps: Vec<(String, String)>,
    pub default_deps: Vec<String>,
}

/// The imports of the pairs whose package the map lists.
pub open spec fn matched_deps(valid: Seq<(String, String)>, names: Set<Seq<char>>) -> Set<
    Seq<char>,
> {
    Set::new(
        |v: Seq<char>|
            exists|k: int|
                0 <= k < valid.len() && names.contains((#[trigger] valid[k]).0@) && valid[k].1@
                    == v,
    )
}

// The imports are gathered into a strictly sorted vector: the ascending
// order without repeats that a `BTreeSet<String>` gives. vstd's `BTreeSet`
// specification covers only keys that obey its `Ord` model, which `String`
// does not have there.

/// The imports a project needs: the default ones and those of each known
/// package it lists, each once, in ascending order.
pub fn handle_dependencies(dependencies: Dependencies) -> (r: Vec<String>)
    ensures
        strictly_sorted_strs(strs_view(r@)),
        strs_view(r@).to_set() == strs_view(dependencies.default_deps@).to_set().union(
            matched_deps(dependencies.valid_deps@, package_names(dependencies.packages)),
        ),
{
    let Dependencies { packages, valid_deps, default_deps } = dependencies;
    let ghost names = package_names(packages);
    let mut present: Vec<String> = Vec::new();
    let n = default_deps.len();
    for i in 0..n
        invariant
            n == default_deps@.len(),
            strictly_sorted_strs(strs_view(present@)),
            strs_view(present@).to_set() == strs_view(default_deps@).take(i as int).to_set(),
    {
        let dep = default_deps[i].clone();
        insert_unique_sorted(&mut present, dep);
        proof {
            assert(strs_view(default_deps@).take(i + 1) =~= strs_view(default_deps@).take(
                i as int,
            ).push(default_deps@[i as int]@));
            strs_view(default_deps@).take(i as int).lemma_push_to_set_commute(default_deps@[i as int]@);
        }
    }
    proof {
        assert(strs_view(default_deps@).take(n as int) =~= strs_view(default_deps@));
    }
    let m = valid_deps.len();
    for i in 0..m
        invariant
            m == valid_deps@.len(),
            names == package_names(packages),
            strictly_sorted_strs(strs_view(present@)),
            strs_view(present@).to_set() == strs_view(default_deps@).to_set().union(
                matched_deps(valid_deps@.take(i as int), names),
            ),
    {
        let found = packages_contain(&packages, valid_deps[i].0.as_str());
        let ghost before = strs_view(present@).to_set();
        if found {
            let dep = valid_deps[i].1.clone();
            insert_unique_sorted(&mut present, dep);
        }
        proof {
            let a = matched_deps(valid_deps@.take(i as int), names);
            let b = matched_deps(valid_deps@.take(i + 1), names);
            let pair = valid_deps@[i as int];
            assert forall|v: Seq<char>| b.contains(v) <==> (a.contains(v) || (found && pair.1@
                == v)) by {
                if b.contains(v) {
                    let k = choose|k: int|
                        0 <= k < i + 1 && names.contains((#[trigger] valid_deps@.take(i + 1)[k]).0@)
                            && valid_deps@.take(i + 1)[k].1@ == v;
                    if k < i {
                        assert(valid_deps@.take(i as int)[k] == valid_deps@.take(i + 1)[k]);
                    }
                }
                if a.contains(v) {
                    let k = choose|k: int|
                        0 <= k < i && names.contains((#[trigger] valid_deps@.take(i as int)[k]).0@)
                            && valid_deps@.take(i as int)[k].1@ == v;
                    assert(valid_deps@.take(i as int)[k] == valid_deps@.take(i + 1)[k]);
                }
                if found && pair.1@ == v {
                    assert(valid_deps@.take(i + 1)[i as int] == pair);
                }
            }
            assert(strs_view(present@).to_set() =~= strs_view(default_deps@).to_set().union(b));
        }
    }
    proof {
        assert(valid_deps@.take(m as int) =~= valid_deps@);
    }
    present
}

} // verus!
