//! Laws of the workspace configuration: what every project gets from the
//! shared array and the override groups.
use vstd::prelude::*;

use super::{
    configs_for, next_roots_spec, oxfmt_text_of, strip_trailing_slashes, workspace_glob_spec,
    generated_for, imported_configs_spec, imports_name, ordered_generated, ordered_oxlint,
    projects_generated, GeneratedConfig, agreed_run, all_agree_at, bounded_items, branch_agrees_at, branch_of, common_configs_spec,
    file_globs, forward_slashes, group_of, groups_spec, has_at, lemma_branch_bounded,
    lemma_branch_of_members, lemma_shared_run_bound, override_groups_spec, project_configs,
    project_items, shared_run, takes, GroupView, OxlintConfig, PendingItem, WorkspaceProject,
};
use crate::packages::{package_names, Packages};
use crate::text::{concat_all, sort_strs, trim_spec};

verus! {

/// The configurations that the groups whose files include `file` give it,
/// one group after another.
pub open spec fn configs_for_file(groups: Seq<GroupView>, file: Seq<char>) -> Seq<OxlintConfig>
    decreases groups.len(),
{
    if groups.len() == 0 {
        seq![]
    } else {
        configs_for_file(groups.drop_last(), file) + (if groups.last().1.contains(file) {
            groups.last().0
        } else {
            seq![]
        })
    }
}

/// No two projects are written with the same path.
pub open spec fn distinct_project_paths(projects: Seq<WorkspaceProject>) -> bool {
    forall|a: int, b: int|
        0 <= a < projects.len() && 0 <= b < projects.len() && forward_slashes(
            (#[trigger] projects[a]).path@,
        ) == forward_slashes((#[trigger] projects[b]).path@) ==> a == b
}

/// Items with the same path are the same item.
pub open spec fn distinct_item_paths(items: Seq<PendingItem>) -> bool {
    forall|a: int, b: int|
        0 <= a < items.len() && 0 <= b < items.len() && (#[trigger] items[a]).1 == (
        #[trigger] items[b]).1 ==> items[a] == items[b]
}

proof fn lemma_configs_for_file_concat(a: Seq<GroupView>, b: Seq<GroupView>, f: Seq<char>)
    ensures
        configs_for_file(a + b, f) == configs_for_file(a, f) + configs_for_file(b, f),
    decreases b.len(),
{
    if b.len() == 0 {
        assert(a + b =~= a);
        assert(configs_for_file(a, f) + configs_for_file(b, f) =~= configs_for_file(a, f));
    } else {
        lemma_configs_for_file_concat(a, b.drop_last(), f);
        assert((a + b).drop_last() =~= a + b.drop_last());
        assert((a + b).last() == b.last());
        let tail = if b.last().1.contains(f) {
            b.last().0
        } else {
            seq![]
        };
        assert(configs_for_file(a, f) + configs_for_file(b.drop_last(), f) + tail
            =~= configs_for_file(a, f) + (configs_for_file(b.drop_last(), f) + tail));
    }
}

proof fn lemma_configs_for_file_single(g: GroupView, f: Seq<char>)
    ensures
        configs_for_file(seq![g], f) == if g.1.contains(f) {
            g.0
        } else {
            seq![]
        },
{
    assert(seq![g].drop_last() =~= Seq::<GroupView>::empty());
    assert(seq![g].last() == g);
    let e = configs_for_file(seq![g].drop_last(), f);
    assert(e == Seq::<OxlintConfig>::empty());
    assert(configs_for_file(seq![g], f) =~= if g.1.contains(f) {
        g.0
    } else {
        seq![]
    });
}

proof fn lemma_branch_of_complete(items: Seq<PendingItem>, depth: nat, c: OxlintConfig, it: PendingItem)
    requires
        items.contains(it),
        takes(it, depth, c),
    ensures
        branch_of(items, depth, c).contains(it),
    decreases items.len(),
{
    if items.last() == it {
        assert(branch_of(items, depth, c).last() == it);
    } else {
        let k = choose|k: int| 0 <= k < items.len() && items[k] == it;
        assert(items.drop_last()[k] == it);
        lemma_branch_of_complete(items.drop_last(), depth, c, it);
        let rest = branch_of(items.drop_last(), depth, c);
        let j = choose|j: int| 0 <= j < rest.len() && rest[j] == it;
        if takes(items.last(), depth, c) {
            assert(rest.push(items.last())[j] == it);
        }
    }
}

proof fn lemma_file_globs_contains(b: Seq<PendingItem>, f: Seq<char>)
    ensures
        sort_strs(file_globs(b)).contains(f) <==> exists|k: int|
            0 <= k < b.len() && (#[trigger] b[k]).1 + "/**/*"@ == f,
{
    broadcast use vstd::seq_lib::group_to_multiset_ensures;

    crate::text::lemma_sort_strs(file_globs(b));
    let g = file_globs(b);
    if g.contains(f) {
        let k = choose|k: int| 0 <= k < g.len() && g[k] == f;
        assert(b[k].1 + "/**/*"@ == f);
    }
    if exists|k: int| 0 <= k < b.len() && (#[trigger] b[k]).1 + "/**/*"@ == f {
        let k = choose|k: int| 0 <= k < b.len() && (#[trigger] b[k]).1 + "/**/*"@ == f;
        assert(g[k] == f);
    }
    assert(sort_strs(g).contains(f) <==> sort_strs(g).to_multiset().count(f) > 0);
    assert(g.contains(f) <==> g.to_multiset().count(f) > 0);
}

proof fn lemma_glob_injective(a: Seq<char>, b: Seq<char>)
    requires
        a + "/**/*"@ == b + "/**/*"@,
    ensures
        a == b,
{
    let g = "/**/*"@;
    let x = a + g;
    assert(x.len() == a.len() + g.len());
    assert((b + g).len() == b.len() + g.len());
    assert(a.len() == b.len());
    assert(a =~= x.subrange(0, a.len() as int));
    assert(b =~= (b + g).subrange(0, b.len() as int));
}

proof fn lemma_branch_sub(items: Seq<PendingItem>, depth: nat, c: OxlintConfig)
    requires
        distinct_item_paths(items),
    ensures
        distinct_item_paths(branch_of(items, depth, c)),
        forall|x: PendingItem| #[trigger] branch_of(items, depth, c).contains(x) ==> items.contains(x),
{
    lemma_branch_of_members(items, depth, c);
    let b = branch_of(items, depth, c);
    assert forall|x: PendingItem| #[trigger] b.contains(x) implies items.contains(x) by {
        let k = choose|k: int| 0 <= k < b.len() && b[k] == x;
    }
    assert forall|a: int, e: int|
        0 <= a < b.len() && 0 <= e < b.len() && (#[trigger] b[a]).1 == (#[trigger] b[e]).1 implies b[a]
        == b[e] by {
        let ia = choose|i: int| 0 <= i < items.len() && items[i] == b[a];
        let ie = choose|i: int| 0 <= i < items.len() && items[i] == b[e];
    }
}

/// A file that is no item's glob gets nothing from the groups of the items.
proof fn lemma_groups_absent(items: Seq<PendingItem>, depth: nat, bound: nat, f: Seq<char>)
    requires
        forall|k: int| 0 <= k < items.len() ==> (#[trigger] items[k]).1 + "/**/*"@ != f,
    ensures
        configs_for_file(groups_spec(items, depth, bound), f) == Seq::<OxlintConfig>::empty(),
    decreases (if depth < bound {
        bound - depth
    } else {
        0
    }),
{
    if depth < bound {
        let r = branch_of(items, depth, OxlintConfig::React);
        let n = branch_of(items, depth, OxlintConfig::Next);
        lemma_branch_of_members(items, depth, OxlintConfig::React);
        lemma_branch_of_members(items, depth, OxlintConfig::Next);
        assert forall|k: int| 0 <= k < r.len() implies (#[trigger] r[k]).1 + "/**/*"@ != f by {
            let m = choose|m: int| 0 <= m < items.len() && items[m] == r[k];
        }
        assert forall|k: int| 0 <= k < n.len() implies (#[trigger] n[k]).1 + "/**/*"@ != f by {
            let m = choose|m: int| 0 <= m < items.len() && items[m] == n[k];
        }
        lemma_absent_branch(items, depth, bound, f, OxlintConfig::React);
        lemma_absent_branch(items, depth, bound, f, OxlintConfig::Next);
        let gr = if r.len() > 0 {
            seq![group_of(r, depth)] + groups_spec(r, depth + 1 + agreed_run(r, depth + 1), bound)
        } else {
            seq![]
        };
        let gn = if n.len() > 0 {
            seq![group_of(n, depth)] + groups_spec(n, depth + 1 + agreed_run(n, depth + 1), bound)
        } else {
            seq![]
        };
        lemma_configs_for_file_concat(gr, gn, f);
        assert(Seq::<OxlintConfig>::empty() + Seq::<OxlintConfig>::empty() =~= Seq::<
            OxlintConfig,
        >::empty());
    } else {
    }
}

proof fn lemma_absent_branch(
    items: Seq<PendingItem>,
    depth: nat,
    bound: nat,
    f: Seq<char>,
    c: OxlintConfig,
)
    requires
        depth < bound,
        forall|k: int|
            0 <= k < branch_of(items, depth, c).len() ==> (#[trigger] branch_of(
                items,
                depth,
                c,
            )[k]).1 + "/**/*"@ != f,
    ensures
        ({
            let b = branch_of(items, depth, c);
            configs_for_file(
                if b.len() > 0 {
                    seq![group_of(b, depth)] + groups_spec(
                        b,
                        depth + 1 + agreed_run(b, depth + 1),
                        bound,
                    )
                } else {
                    seq![]
                },
                f,
            ) == Seq::<OxlintConfig>::empty()
        }),
    decreases bound - depth, 0int,
{
    let b = branch_of(items, depth, c);
    if b.len() > 0 {
        lemma_file_globs_contains(b, f);
        lemma_configs_for_file_single(group_of(b, depth), f);
        lemma_groups_absent(b, depth + 1 + agreed_run(b, depth + 1), bound, f);
        lemma_configs_for_file_concat(
            seq![group_of(b, depth)],
            groups_spec(b, depth + 1 + agreed_run(b, depth + 1), bound),
            f,
        );
        assert(Seq::<OxlintConfig>::empty() + Seq::<OxlintConfig>::empty() =~= Seq::<
            OxlintConfig,
        >::empty());
    } else {
        assert(configs_for_file(seq![], f) == Seq::<OxlintConfig>::empty());
    }
}

proof fn lemma_agreed_run(b: Seq<PendingItem>, pos: nat)
    requires
        b.len() > 0,
        pos <= b[0].0.len(),
    ensures
        pos + agreed_run(b, pos) <= b[0].0.len(),
        forall|j: int| pos <= j < pos + agreed_run(b, pos) ==> branch_agrees_at(b, j),
        pos + agreed_run(b, pos) < b[0].0.len() ==> !branch_agrees_at(
            b,
            (pos + agreed_run(b, pos)) as int,
        ),
    decreases b[0].0.len() - pos,
{
    if pos < b[0].0.len() && branch_agrees_at(b, pos as int) {
        lemma_agreed_run(b, pos + 1);
    }
}

/// Each item gets, from the groups of the items, exactly its configurations
/// past `depth`, in order.
proof fn lemma_groups_cover(items: Seq<PendingItem>, depth: nat, bound: nat, it: PendingItem)
    requires
        bounded_items(items, bound),
        distinct_item_paths(items),
        items.contains(it),
        depth <= it.0.len(),
    ensures
        configs_for_file(groups_spec(items, depth, bound), it.1 + "/**/*"@) == it.0.skip(
            depth as int,
        ),
    decreases (if depth < bound {
        bound - depth
    } else {
        0
    }),
{
    let f = it.1 + "/**/*"@;
    let k0 = choose|k: int| 0 <= k < items.len() && items[k] == it;
    assert(it.0.len() <= bound);
    if depth < bound {
        let r = branch_of(items, depth, OxlintConfig::React);
        let n = branch_of(items, depth, OxlintConfig::Next);
        let gr = if r.len() > 0 {
            seq![group_of(r, depth)] + groups_spec(r, depth + 1 + agreed_run(r, depth + 1), bound)
        } else {
            seq![]
        };
        let gn = if n.len() > 0 {
            seq![group_of(n, depth)] + groups_spec(n, depth + 1 + agreed_run(n, depth + 1), bound)
        } else {
            seq![]
        };
        lemma_configs_for_file_concat(gr, gn, f);
        if depth == it.0.len() {
            lemma_branch_of_members(items, depth, OxlintConfig::React);
            lemma_branch_of_members(items, depth, OxlintConfig::Next);
            assert forall|k: int| 0 <= k < r.len() implies (#[trigger] r[k]).1 + "/**/*"@ != f by {
                if r[k].1 + "/**/*"@ == f {
                    lemma_glob_injective(r[k].1, it.1);
                    let m = choose|m: int| 0 <= m < items.len() && items[m] == r[k];
                    assert(items[m].1 == items[k0].1);
                }
            }
            assert forall|k: int| 0 <= k < n.len() implies (#[trigger] n[k]).1 + "/**/*"@ != f by {
                if n[k].1 + "/**/*"@ == f {
                    lemma_glob_injective(n[k].1, it.1);
                    let m = choose|m: int| 0 <= m < items.len() && items[m] == n[k];
                    assert(items[m].1 == items[k0].1);
                }
            }
            lemma_absent_branch(items, depth, bound, f, OxlintConfig::React);
            lemma_absent_branch(items, depth, bound, f, OxlintConfig::Next);
            assert(it.0.skip(depth as int) =~= Seq::<OxlintConfig>::empty());
            assert(Seq::<OxlintConfig>::empty() + Seq::<OxlintConfig>::empty() =~= Seq::<
                OxlintConfig,
            >::empty());
        } else {
            let c = it.0[depth as int];
            let other = if c == OxlintConfig::React {
                OxlintConfig::Next
            } else {
                OxlintConfig::React
            };
            let b = branch_of(items, depth, c);
            let o = branch_of(items, depth, other);
            lemma_branch_of_complete(items, depth, c, it);
            lemma_branch_sub(items, depth, c);
            lemma_branch_sub(items, depth, other);
            lemma_branch_of_members(items, depth, other);
            lemma_branch_bounded(items, depth, c, bound);
            // The other branch never lists this item's file.
            assert forall|k: int| 0 <= k < o.len() implies (#[trigger] o[k]).1 + "/**/*"@ != f by {
                if o[k].1 + "/**/*"@ == f {
                    lemma_glob_injective(o[k].1, it.1);
                    assert(items.contains(o[k]));
                    let m = choose|m: int| 0 <= m < items.len() && items[m] == o[k];
                    assert(items[m].1 == items[k0].1);
                    assert(takes(o[k], depth, other));
                }
            }
            if o.len() > 0 {
                lemma_file_globs_contains(o, f);
                lemma_configs_for_file_single(group_of(o, depth), f);
                lemma_groups_absent(o, depth + 1 + agreed_run(o, depth + 1), bound, f);
                lemma_configs_for_file_concat(
                    seq![group_of(o, depth)],
                    groups_spec(o, depth + 1 + agreed_run(o, depth + 1), bound),
                    f,
                );
            }
            // This item's branch gives it the group's run, then the rest.
            let j = choose|j: int| 0 <= j < b.len() && b[j] == it;
            lemma_branch_of_members(items, depth, c);
            assert(takes(b[0], depth, c));
            lemma_agreed_run(b, depth + 1);
            let d2 = depth + 1 + agreed_run(b, depth + 1);
            assert forall|p: int| depth <= p < d2 implies p < it.0.len() && it.0[p] == b[0].0[p] by {
                if p > depth {
                    assert(branch_agrees_at(b, p));
                    assert(has_at(b[j].0, p, b[0].0[p]));
                }
            }
            let last = d2 - 1;
            assert(it.0[last] == b[0].0[last]);
            assert(b[0].0.subrange(depth as int, d2 as int) =~= it.0.subrange(
                depth as int,
                d2 as int,
            ));
            lemma_file_globs_contains(b, f);
            assert(b[j].1 + "/**/*"@ == f);
            lemma_configs_for_file_single(group_of(b, depth), f);
            lemma_groups_cover(b, d2, bound, it);
            lemma_configs_for_file_concat(seq![group_of(b, depth)], groups_spec(b, d2, bound), f);
            assert(it.0.subrange(depth as int, d2 as int) + it.0.skip(d2 as int) =~= it.0.skip(
                depth as int,
            ));
            assert(Seq::<OxlintConfig>::empty() + Seq::<OxlintConfig>::empty() =~= Seq::<
                OxlintConfig,
            >::empty());
            if c == OxlintConfig::React {
                assert(it.0.skip(depth as int) + Seq::<OxlintConfig>::empty() =~= it.0.skip(
                    depth as int,
                ));
            } else {
                assert(Seq::<OxlintConfig>::empty() + it.0.skip(depth as int) =~= it.0.skip(
                    depth as int,
                ));
            }
        }
    } else {
        assert(it.0.skip(depth as int) =~= Seq::<OxlintConfig>::empty());
    }
}

/// Law: every project of a workspace gets exactly the configurations it
/// calls for: the shared ones, which are a prefix of its own list, followed
/// by those of the override groups that list its files, in order.
pub proof fn law_each_project_gets_its_configs(
    packages: Packages,
    projects: Seq<WorkspaceProject>,
    i: int,
)
    requires
        0 <= i < projects.len(),
        distinct_project_paths(projects),
    ensures
        ({
            let common = common_configs_spec(package_names(packages), projects);
            common + configs_for_file(
                override_groups_spec(common.len(), projects),
                forward_slashes(projects[i].path@) + "/**/*"@,
            ) == project_configs(projects[i])
        }),
{
    let lists = projects.map_values(|p: WorkspaceProject| project_configs(p));
    let k = shared_run(lists, lists[0], 0);
    lemma_shared_run_bound(lists, lists[0], 0);
    let common = common_configs_spec(package_names(packages), projects);
    let own = project_configs(projects[i]);
    assert(lists[i] == own);
    assert forall|j: int| 0 <= j < k implies j < own.len() && own[j] == lists[0][j] by {
        assert(all_agree_at(lists, lists[0], j));
        assert(has_at(lists[i], j, lists[0][j]));
    }
    if k > 0 {
        let last = k - 1;
        assert(own[last] == lists[0][last]);
    }
    assert(common =~= own.take(k as int));
    let items = project_items(projects);
    assert forall|a: int| 0 <= a < items.len() implies (#[trigger] items[a]).0.len() <= 2 by {
        assert(items[a].0 == project_configs(projects[a]));
    }
    assert forall|a: int, b: int|
        0 <= a < items.len() && 0 <= b < items.len() && (#[trigger] items[a]).1 == (
        #[trigger] items[b]).1 implies items[a] == items[b] by {
        assert(items[a].1 == forward_slashes(projects[a].path@));
        assert(items[b].1 == forward_slashes(projects[b].path@));
    }
    assert(items[i] == (own, forward_slashes(projects[i].path@)));
    lemma_groups_cover(items, k, 2, items[i]);
    assert(own.take(k as int) + own.skip(k as int) =~= own);
}

/// The groups for the items that call for `c` at `depth`: their own group,
/// then the groups they need past it.
pub open spec fn branch_groups(
    items: Seq<PendingItem>,
    depth: nat,
    bound: nat,
    c: OxlintConfig,
) -> Seq<GroupView> {
    let b = branch_of(items, depth, c);
    if b.len() > 0 {
        seq![group_of(b, depth)] + groups_spec(b, depth + 1 + agreed_run(b, depth + 1), bound)
    } else {
        seq![]
    }
}

proof fn lemma_groups_spec_unfold(items: Seq<PendingItem>, depth: nat, bound: nat)
    requires
        depth < bound,
    ensures
        groups_spec(items, depth, bound) == branch_groups(
            items,
            depth,
            bound,
            OxlintConfig::React,
        ) + branch_groups(items, depth, bound, OxlintConfig::Next),
{
}

/// Every file of the group is the glob of one of the items that call for
/// `c` at `depth`.
pub open spec fn files_within(g: GroupView, items: Seq<PendingItem>, depth: nat, c: OxlintConfig) -> bool {
    forall|x: Seq<char>|
        #![trigger g.1.contains(x)]
        g.1.contains(x) ==> exists|k: int|
            0 <= k < items.len() && takes(#[trigger] items[k], depth, c) && items[k].1 + "/**/*"@
                == x
}

proof fn lemma_groups_within(items: Seq<PendingItem>, depth: nat, bound: nat)
    ensures
        forall|j: int|
            0 <= j < groups_spec(items, depth, bound).len() ==> (#[trigger] groups_spec(
                items,
                depth,
                bound,
            )[j]).1.len() > 0 && crate::text::sorted_strs(groups_spec(items, depth, bound)[j].1) && (
            files_within(groups_spec(items, depth, bound)[j], items, depth, OxlintConfig::React)
                || files_within(
                groups_spec(items, depth, bound)[j],
                items,
                depth,
                OxlintConfig::Next,
            )),
    decreases (if depth < bound {
        bound - depth
    } else {
        0
    }), 1int,
{
    if depth < bound {
        lemma_groups_spec_unfold(items, depth, bound);
        lemma_branch_within(items, depth, bound, OxlintConfig::React);
        lemma_branch_within(items, depth, bound, OxlintConfig::Next);
        let gr = branch_groups(items, depth, bound, OxlintConfig::React);
        let gn = branch_groups(items, depth, bound, OxlintConfig::Next);
        let gs = groups_spec(items, depth, bound);
        assert forall|j: int| 0 <= j < gs.len() implies (#[trigger] gs[j]).1.len() > 0
            && crate::text::sorted_strs(gs[j].1) && (files_within(
            gs[j],
            items,
            depth,
            OxlintConfig::React,
        ) || files_within(
            gs[j],
            items,
            depth,
            OxlintConfig::Next,
        )) by {
            if j < gr.len() {
                assert(gs[j] == gr[j]);
            } else {
                assert(gs[j] == gn[j - gr.len()]);
            }
        }
    }
}

proof fn lemma_branch_within(items: Seq<PendingItem>, depth: nat, bound: nat, c: OxlintConfig)
    requires
        depth < bound,
    ensures
        forall|j: int|
            0 <= j < branch_groups(items, depth, bound, c).len() ==> (#[trigger] branch_groups(
                items,
                depth,
                bound,
                c,
            )[j]).1.len() > 0 && crate::text::sorted_strs(branch_groups(items, depth, bound, c)[j].1)
                && files_within(branch_groups(items, depth, bound, c)[j], items, depth, c),
    decreases bound - depth, 0int,
{
    let b = branch_of(items, depth, c);
    if b.len() > 0 {
        let d2 = depth + 1 + agreed_run(b, depth + 1);
        lemma_groups_within(b, d2, bound);
        lemma_branch_of_members(items, depth, c);
        let gs = branch_groups(items, depth, bound, c);
        let sub = groups_spec(b, d2, bound);
        crate::text::lemma_sort_strs(file_globs(b));
        assert forall|j: int| 0 <= j < gs.len() implies (#[trigger] gs[j]).1.len() > 0
            && crate::text::sorted_strs(gs[j].1) && files_within(gs[j], items, depth, c) by {
            let g = gs[j];
            if j == 0 {
                assert(g == group_of(b, depth));
                assert(g.1.len() == b.len()) by {
                    broadcast use vstd::seq_lib::group_to_multiset_ensures;

                    assert(g.1.to_multiset().len() == file_globs(b).to_multiset().len());
                }
                assert forall|x: Seq<char>| #[trigger] g.1.contains(x) implies exists|k: int|
                    0 <= k < items.len() && takes(#[trigger] items[k], depth, c) && items[k].1
                        + "/**/*"@ == x by {
                    lemma_file_globs_contains(b, x);
                    let k = choose|k: int| 0 <= k < b.len() && (#[trigger] b[k]).1 + "/**/*"@ == x;
                    let m = choose|m: int| 0 <= m < items.len() && items[m] == b[k];
                    assert(takes(items[m], depth, c));
                }
            } else {
                assert(g == sub[j - 1]);
                assert forall|x: Seq<char>| #[trigger] g.1.contains(x) implies exists|k: int|
                    0 <= k < items.len() && takes(#[trigger] items[k], depth, c) && items[k].1
                        + "/**/*"@ == x by {
                    if files_within(g, b, d2, OxlintConfig::React) {
                        let k = choose|k: int|
                            0 <= k < b.len() && takes(#[trigger] b[k], d2, OxlintConfig::React)
                                && b[k].1 + "/**/*"@ == x;
                        let m = choose|m: int| 0 <= m < items.len() && items[m] == b[k];
                        assert(takes(items[m], depth, c));
                    } else {
                        let k = choose|k: int|
                            0 <= k < b.len() && takes(#[trigger] b[k], d2, OxlintConfig::Next)
                                && b[k].1 + "/**/*"@ == x;
                        let m = choose|m: int| 0 <= m < items.len() && items[m] == b[k];
                        assert(takes(items[m], depth, c));
                    }
                }
            }
        }
    }
}

/// Two groups drawn from items that call for different configurations at
/// the same position list different files.
proof fn lemma_within_differ(
    g1: GroupView,
    g2: GroupView,
    items: Seq<PendingItem>,
    depth: nat,
    c1: OxlintConfig,
    c2: OxlintConfig,
)
    requires
        distinct_item_paths(items),
        c1 != c2,
        g1.1.len() > 0,
        files_within(g1, items, depth, c1),
        files_within(g2, items, depth, c2),
    ensures
        g1.1.to_set() != g2.1.to_set(),
{
    let x = g1.1[0];
    assert(g1.1.contains(x));
    let k1 = choose|k: int|
        0 <= k < items.len() && takes(#[trigger] items[k], depth, c1) && items[k].1 + "/**/*"@
            == x;
    if g2.1.contains(x) {
        let k2 = choose|k: int|
            0 <= k < items.len() && takes(#[trigger] items[k], depth, c2) && items[k].1 + "/**/*"@
                == x;
        lemma_glob_injective(items[k1].1, items[k2].1);
        assert(items[k1] == items[k2]);
    }
    assert(g1.1.to_set().contains(x));
    assert(!g2.1.to_set().contains(x));
}

/// The groups of the items list pairwise different sets of files.
proof fn lemma_groups_distinct(items: Seq<PendingItem>, depth: nat, bound: nat)
    requires
        distinct_item_paths(items),
    ensures
        forall|a: int, b: int|
            0 <= a < b < groups_spec(items, depth, bound).len() ==> (#[trigger] groups_spec(
                items,
                depth,
                bound,
            )[a]).1.to_set() != (#[trigger] groups_spec(items, depth, bound)[b]).1.to_set(),
    decreases (if depth < bound {
        bound - depth
    } else {
        0
    }), 1int,
{
    if depth < bound {
        lemma_groups_spec_unfold(items, depth, bound);
        lemma_branch_within(items, depth, bound, OxlintConfig::React);
        lemma_branch_within(items, depth, bound, OxlintConfig::Next);
        lemma_branch_distinct(items, depth, bound, OxlintConfig::React);
        lemma_branch_distinct(items, depth, bound, OxlintConfig::Next);
        let gr = branch_groups(items, depth, bound, OxlintConfig::React);
        let gn = branch_groups(items, depth, bound, OxlintConfig::Next);
        let gs = groups_spec(items, depth, bound);
        assert forall|a: int, b: int| 0 <= a < b < gs.len() implies (#[trigger] gs[a]).1.to_set()
            != (#[trigger] gs[b]).1.to_set() by {
            if b < gr.len() {
                assert(gs[a] == gr[a] && gs[b] == gr[b]);
            } else if a >= gr.len() {
                assert(gs[a] == gn[a - gr.len()] && gs[b] == gn[b - gr.len()]);
            } else {
                assert(gs[a] == gr[a] && gs[b] == gn[b - gr.len()]);
                lemma_within_differ(
                    gr[a],
                    gn[b - gr.len()],
                    items,
                    depth,
                    OxlintConfig::React,
                    OxlintConfig::Next,
                );
            }
        }
    }
}

proof fn lemma_branch_distinct(items: Seq<PendingItem>, depth: nat, bound: nat, c: OxlintConfig)
    requires
        distinct_item_paths(items),
        depth < bound,
    ensures
        forall|a: int, b: int|
            0 <= a < b < branch_groups(items, depth, bound, c).len() ==> (#[trigger] branch_groups(
                items,
                depth,
                bound,
                c,
            )[a]).1.to_set() != (#[trigger] branch_groups(items, depth, bound, c)[b]).1.to_set(),
    decreases bound - depth, 0int,
{
    let b = branch_of(items, depth, c);
    if b.len() > 0 {
        let d2 = depth + 1 + agreed_run(b, depth + 1);
        lemma_branch_sub(items, depth, c);
        lemma_groups_distinct(b, d2, bound);
        lemma_groups_within(b, d2, bound);
        lemma_branch_of_members(items, depth, c);
        lemma_agreed_run(b, depth + 1);
        let gs = branch_groups(items, depth, bound, c);
        let sub = groups_spec(b, d2, bound);
        let g0 = group_of(b, depth);
        assert forall|i: int, j: int| 0 <= i < j < gs.len() implies (#[trigger] gs[i]).1.to_set()
            != (#[trigger] gs[j]).1.to_set() by {
            if i == 0 {
                let g = sub[j - 1];
                assert(gs[i] == g0 && gs[j] == g);
                let c2 = if files_within(g, b, d2, OxlintConfig::React) {
                    OxlintConfig::React
                } else {
                    OxlintConfig::Next
                };
                assert(files_within(g, b, d2, c2));
                // Some project of the branch does not call for `c2` at `d2`.
                let k: int = if d2 >= b[0].0.len() || b[0].0[d2 as int] != c2 {
                    0
                } else {
                    choose|k: int| 0 <= k < b.len() && !has_at(#[trigger] b[k].0, d2 as int, b[0].0[d2 as int])
                };
                assert(0 <= k < b.len() && !takes(b[k], d2, c2));
                let x = b[k].1 + "/**/*"@;
                lemma_file_globs_contains(b, x);
                assert(g0.1.contains(x));
                if g.1.contains(x) {
                    let k2 = choose|k2: int|
                        0 <= k2 < b.len() && takes(#[trigger] b[k2], d2, c2) && b[k2].1 + "/**/*"@
                            == x;
                    lemma_glob_injective(b[k].1, b[k2].1);
                    assert(b[k] == b[k2]);
                }
                assert(g0.1.to_set().contains(x));
                assert(!g.1.to_set().contains(x));
            } else {
                assert(gs[i] == sub[i - 1] && gs[j] == sub[j - 1]);
            }
        }
    }
}

/// Law: no two override groups list the same set of files; configurations
/// that the same projects call for share one group.
pub proof fn law_override_groups_have_distinct_files(
    packages: Packages,
    projects: Seq<WorkspaceProject>,
)
    requires
        distinct_project_paths(projects),
    ensures
        ({
            let groups = override_groups_spec(
                common_configs_spec(package_names(packages), projects).len(),
                projects,
            );
            forall|a: int, b: int|
                0 <= a < b < groups.len() ==> (#[trigger] groups[a]).1.to_set() != (
                #[trigger] groups[b]).1.to_set()
        }),
{
    let items = project_items(projects);
    assert forall|a: int, b: int|
        0 <= a < items.len() && 0 <= b < items.len() && (#[trigger] items[a]).1 == (
        #[trigger] items[b]).1 implies items[a] == items[b] by {
        assert(items[a].1 == forward_slashes(projects[a].path@));
        assert(items[b].1 == forward_slashes(projects[b].path@));
    }
    lemma_groups_distinct(
        items,
        common_configs_spec(package_names(packages), projects).len(),
        2,
    );
}

/// Law: the shared configurations are the longest prefix common to every
/// project's list.
pub proof fn law_shared_configs_are_the_longest_common_prefix(
    packages: Packages,
    projects: Seq<WorkspaceProject>,
)
    requires
        projects.len() > 0,
    ensures
        ({
            let common = common_configs_spec(package_names(packages), projects);
            let first = project_configs(projects[0]);
            &&& forall|i: int|
                0 <= i < projects.len() ==> common.len() <= project_configs(
                    #[trigger] projects[i],
                ).len() && project_configs(projects[i]).take(common.len() as int) == common
            &&& common.len() < first.len() ==> exists|i: int|
                0 <= i < projects.len() && !has_at(
                    project_configs(#[trigger] projects[i]),
                    common.len() as int,
                    first[common.len() as int],
                )
        }),
{
    let lists = projects.map_values(|p: WorkspaceProject| project_configs(p));
    let k = shared_run(lists, lists[0], 0);
    lemma_shared_run_bound(lists, lists[0], 0);
    let common = common_configs_spec(package_names(packages), projects);
    assert forall|i: int| 0 <= i < projects.len() implies common.len() <= project_configs(
        #[trigger] projects[i],
    ).len() && project_configs(projects[i]).take(common.len() as int) == common by {
        let own = project_configs(projects[i]);
        assert(lists[i] == own);
        assert forall|j: int| 0 <= j < k implies j < own.len() && own[j] == lists[0][j] by {
            assert(all_agree_at(lists, lists[0], j));
            assert(has_at(lists[i], j, lists[0][j]));
        }
        if k > 0 {
            let last = k - 1;
            assert(own[last] == lists[0][last]);
        }
        assert(own.take(k as int) =~= common);
    }
    if k < lists[0].len() {
        assert(!all_agree_at(lists, lists[0], k as int));
        let i = choose|i: int| 0 <= i < lists.len() && !has_at(#[trigger] lists[i], k as int, lists[0][k as int]);
        assert(lists[i] == project_configs(projects[i]));
    }
}

/// Law: the files of every override group are in ascending order.
pub proof fn law_override_files_sorted(packages: Packages, projects: Seq<WorkspaceProject>)
    ensures
        ({
            let groups = override_groups_spec(
                common_configs_spec(package_names(packages), projects).len(),
                projects,
            );
            forall|a: int| 0 <= a < groups.len() ==> crate::text::sorted_strs(#[trigger] groups[a].1)
        }),
{
    lemma_groups_within(
        project_items(projects),
        common_configs_spec(package_names(packages), projects).len(),
        2,
    );
}

/// The names of the generated-file configurations that are imported besides
/// the imported configurations: those not exported under an imported name.
pub open spec fn extra_import_names(gs: Seq<GeneratedConfig>, imported: Seq<OxlintConfig>) -> Seq<
    Seq<char>,
>
    decreases gs.len(),
{
    if gs.len() == 0 {
        seq![]
    } else {
        extra_import_names(gs.drop_last(), imported) + (if imports_name(
            imported,
            gs.last().spec_oxlint_import(),
        ) {
            seq![]
        } else {
            seq![gs.last().spec_oxlint_import()]
        })
    }
}

/// Law: the oxlint configuration imports no configuration name twice; a
/// generated-file configuration whose name a framework configuration
/// already brings in is not imported again.
pub proof fn law_no_config_imported_twice(packages: Packages, projects: Seq<WorkspaceProject>)
    ensures
        ({
            let common = common_configs_spec(package_names(packages), projects);
            let imported = imported_configs_spec(common, projects);
            let generated = ordered_generated(
                generated_for(package_names(packages)).union(projects_generated(projects)),
            );
            (imported.map_values(|c: OxlintConfig| c.spec_import()) + extra_import_names(
                generated,
                imported,
            )).no_duplicates()
        }),
{
    reveal_strlit("oxlintConfigReact");
    reveal_strlit("oxlintConfigNext");
    reveal_strlit("oxlintConfigTanstackStart");
    let common = common_configs_spec(package_names(packages), projects);
    let imported = imported_configs_spec(common, projects);
    let generated = ordered_generated(
        generated_for(package_names(packages)).union(projects_generated(projects)),
    );
    let names = imported.map_values(|c: OxlintConfig| c.spec_import());
    let extra = extra_import_names(generated, imported);
    let r = "oxlintConfigReact"@;
    let n = "oxlintConfigNext"@;
    let t = "oxlintConfigTanstackStart"@;
    assert(r != n && r != t && n != t) by {
        assert(r[12] != n[12]);
        assert(r.len() != t.len());
        assert(n.len() != t.len());
    }
    // The imported names are some of React's and Next's, in that order.
    assert(imports_name(imported, n) == imported.contains(OxlintConfig::Next)) by {
        if imports_name(imported, n) {
            let k = choose|k: int| 0 <= k < imported.len() && (#[trigger] imported[k]).spec_import() == n;
            assert(imported[k] == OxlintConfig::Next);
        }
        if imported.contains(OxlintConfig::Next) {
            let k = choose|k: int| 0 <= k < imported.len() && imported[k] == OxlintConfig::Next;
            assert(imported[k].spec_import() == n);
        }
    }
    assert(!imports_name(imported, t)) by {
        if imports_name(imported, t) {
            let k = choose|k: int| 0 <= k < imported.len() && (#[trigger] imported[k]).spec_import() == t;
        }
    }
    let s = common.to_set().union(super::projects_oxlint(projects));
    let g = generated_for(package_names(packages)).union(projects_generated(projects));
    let has_r = s.contains(OxlintConfig::React);
    let has_n = s.contains(OxlintConfig::Next);
    let gen_n = g.contains(GeneratedConfig::Next);
    let gen_t = g.contains(GeneratedConfig::TanstackStart);
    assert(imported.contains(OxlintConfig::Next) == has_n) by {
        if has_n {
            assert(imported[imported.len() - 1] == OxlintConfig::Next);
        }
    }
    let names_form = (if has_r {
        seq![r]
    } else {
        seq![]
    }) + (if has_n {
        seq![n]
    } else {
        seq![]
    });
    assert(names =~= names_form);
    let first = if gen_n && !has_n {
        seq![n]
    } else {
        seq![]
    };
    let second = if gen_t {
        seq![t]
    } else {
        seq![]
    };
    reveal_with_fuel(extra_import_names, 3);
    if gen_n && gen_t {
        assert(generated =~= seq![GeneratedConfig::Next, GeneratedConfig::TanstackStart]);
        assert(generated.drop_last() =~= seq![GeneratedConfig::Next]);
        assert(generated.drop_last().drop_last() =~= Seq::<GeneratedConfig>::empty());
    } else if gen_n || gen_t {
        assert(generated.drop_last() =~= Seq::<GeneratedConfig>::empty());
    } else {
        assert(generated =~= Seq::<GeneratedConfig>::empty());
    }
    assert(extra =~= first + second);
    let all = names + extra;
    assert(all =~= names_form + (first + second));
    assert(all.no_duplicates()) by {
        assert forall|a: int, b: int| 0 <= a < all.len() && 0 <= b < all.len() && a != b implies all[a]
            != all[b] by {
            let k1: int = if has_r { 1 } else { 0 };
            let k2: int = k1 + if has_n { 1int } else { 0int };
            let k3: int = k2 + if gen_n && !has_n { 1int } else { 0int };
            assert(forall|i: int| 0 <= i < all.len() ==> (#[trigger] all[i] == r <==> (has_r && i == 0)));
            assert(forall|i: int| 0 <= i < all.len() ==> (#[trigger] all[i] == t <==> (gen_t && i == k3)));
            assert(forall|i: int| 0 <= i < all.len() ==> (#[trigger] all[i] == n <==> ((has_n && i == k1) || (gen_n && !has_n && i == k2))));
        }
    }
}

/// A project lists Next.js.
pub open spec fn lists_next(p: WorkspaceProject) -> bool {
    package_names(p.packages).contains("next"@)
}

/// Where a Next.js project's root goes in the `rootDir` setting: its path
/// with forward slashes and a trailing slash.
pub open spec fn next_root_of(p: WorkspaceProject) -> Seq<char> {
    forward_slashes(p.path@) + "/"@
}

/// Law: the Next.js roots of the oxlint configuration are the projects that
/// list `next`, every one of them, each once, in project order, as its path
/// with forward slashes and a trailing slash.
pub proof fn law_next_roots_are_every_next_project(projects: Seq<WorkspaceProject>)
    ensures
        next_roots_spec(projects) == projects.filter(|p: WorkspaceProject| lists_next(p)).map_values(
            |p: WorkspaceProject| next_root_of(p),
        ),
        forall|i: int|
            0 <= i < projects.len() && lists_next(#[trigger] projects[i]) ==> next_roots_spec(
                projects,
            ).contains(next_root_of(projects[i])),
    decreases projects.len(),
{
    let f = |p: WorkspaceProject| lists_next(p);
    let g = |p: WorkspaceProject| next_root_of(p);
    if projects.len() > 0 {
        let rest = projects.drop_last();
        law_next_roots_are_every_next_project(rest);
        assert(projects.filter(f) == if f(projects.last()) {
            rest.filter(f).push(projects.last())
        } else {
            rest.filter(f)
        }) by {
            reveal_with_fuel(Seq::filter, 1);
        }
        assert(next_roots_spec(projects) =~= projects.filter(f).map_values(g));
        assert forall|i: int|
            0 <= i < projects.len() && lists_next(#[trigger] projects[i]) implies next_roots_spec(
                projects,
            ).contains(next_root_of(projects[i])) by {
            if i < projects.len() - 1 {
                assert(rest[i] == projects[i]);
                let k = choose|k: int|
                    0 <= k < next_roots_spec(rest).len() && next_roots_spec(rest)[k]
                        == next_root_of(rest[i]);
                assert(next_roots_spec(projects)[k] == next_roots_spec(rest)[k]);
            } else {
                let n = next_roots_spec(projects);
                assert(n[n.len() - 1] == next_root_of(projects[i]));
            }
        }
    } else {
        assert(projects.filter(f) =~= Seq::<WorkspaceProject>::empty()) by {
            reveal_with_fuel(Seq::filter, 1);
        }
        assert(next_roots_spec(projects) =~= projects.filter(f).map_values(g));
    }
}

/// Law: a project that lists `next` gets the React configuration and then
/// the Next.js one, whatever else it lists; one that does not list `next`
/// gets React alone exactly when it lists `react` or
/// `@tanstack/react-start`, and otherwise none.
pub proof fn law_next_builds_on_react(names: Set<Seq<char>>)
    ensures
        names.contains("next"@) ==> configs_for(names) == seq![OxlintConfig::React, OxlintConfig::Next],
        !names.contains("next"@) ==> (configs_for(names) == seq![OxlintConfig::React] <==> (
        names.contains("react"@) || names.contains("@tanstack/react-start"@))),
        !names.contains("next"@) && !names.contains("react"@) && !names.contains(
            "@tanstack/react-start"@,
        ) ==> configs_for(names).len() == 0,
        configs_for(names).contains(OxlintConfig::Next) <==> names.contains("next"@),
{
    if names.contains("next"@) {
        assert(configs_for(names)[1] == OxlintConfig::Next);
    } else if !names.contains("react"@) && !names.contains("@tanstack/react-start"@) {
        assert(configs_for(names).len() == 0);
        assert(seq![OxlintConfig::React].len() == 1);
    }
}

/// One line of the oxfmt configuration per generated-file configuration:
/// two spaces, its oxfmt export name, a comma.
pub open spec fn oxfmt_name_lines(gs: Seq<GeneratedConfig>) -> Seq<char> {
    concat_all(gs.map_values(|g: GeneratedConfig| "  "@ + g.spec_oxfmt_import() + ",\n"@))
}

/// Law: the oxfmt configuration applies every configuration it imports:
/// the same lines, one per generated-file configuration and in the same
/// order, stand in the import list after `oxfmtConfigBase` and in the
/// exported `oxfmtConfig(...)` call after `oxfmtConfigBase`.
pub proof fn law_oxfmt_applies_what_it_imports(gs: Seq<GeneratedConfig>)
    ensures
        oxfmt_text_of(gs) == "import {\n  oxfmtConfig,\n  oxfmtConfigBase,\n"@ + oxfmt_name_lines(gs)
            + "} from '@hiddenability/opinionated-defaults/oxfmt';\n\nexport default oxfmtConfig(\n  oxfmtConfigBase,\n"@
            + oxfmt_name_lines(gs) + ");\n"@,
{
    reveal_strlit("import {\n");
    reveal_strlit("  oxfmtConfig,\n");
    reveal_strlit("  oxfmtConfigBase,\n");
    reveal_strlit("import {\n  oxfmtConfig,\n  oxfmtConfigBase,\n");
    reveal_strlit("} from '@hiddenability/opinionated-defaults/oxfmt';\n\n");
    reveal_strlit("export default oxfmtConfig(\n");
    reveal_strlit(
        "} from '@hiddenability/opinionated-defaults/oxfmt';\n\nexport default oxfmtConfig(\n  oxfmtConfigBase,\n",
    );
    assert(oxfmt_text_of(gs) =~= "import {\n  oxfmtConfig,\n  oxfmtConfigBase,\n"@ + oxfmt_name_lines(
        gs,
    ) + "} from '@hiddenability/opinionated-defaults/oxfmt';\n\nexport default oxfmtConfig(\n  oxfmtConfigBase,\n"@
        + oxfmt_name_lines(gs) + ");\n"@);
}

/// Law: a workspace pattern that needs no cleaning (already trimmed, not
/// negated, without a leading `./` or a trailing `/`, and not empty) names
/// the `package.json` directly below it: its glob is the pattern followed by
/// `/package.json`, whether or not it holds a slash or a wildcard.
pub proof fn law_plain_pattern_glob(pattern: Seq<char>)
    requires
        trim_spec(pattern) == pattern,
        pattern.len() > 0,
        pattern[0] != '!',
        !(pattern.len() >= 2 && pattern[0] == '.' && pattern[1] == '/'),
        pattern.last() != '/',
    ensures
        workspace_glob_spec(pattern) == Some(pattern + "/package.json"@),
{
    assert(strip_trailing_slashes(pattern) == pattern);
    reveal_strlit("");
    assert(""@ + pattern =~= pattern);
}

} // verus!
