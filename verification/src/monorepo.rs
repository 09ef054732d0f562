use vstd::prelude::*;

use crate::packages::{package_names, packages_contain, Packages};
use crate::types::{has_solid, spec_has_solid, Workspaces};
use crate::text::{
    concat_all, json_string_array, lemma_concat_all_step, lemma_join_with_step, join_with,
    sort_strings, sort_strs, str_eq, strs_view, to_json_string_array, trim_spec, trim_whitespace,
};
use crate::text::{
    dirs_less, dirs_lt, lemma_dirs_lt_irreflexive, lemma_dirs_lt_total, lemma_dirs_lt_transitive,
};
use vstd::string::StrSliceExecFns;

pub mod laws;

verus! {

/// A project of a workspace: its directory relative to the workspace root,
/// as text, and the packages its `package.json` lists.
#[derive(Debug)]
pub struct WorkspaceProject {
    pub path: String,
    pub packages: Packages,
}

/// A shared oxlint configuration that a framework calls for.
#[derive(Debug, Clone, Copy, PartialEq, Eq, Structural)]
pub enum OxlintConfig {
    React,
    Next,
}

impl OxlintConfig {
    /// The name under which the configuration is exported.
    pub open spec fn spec_import(self) -> Seq<char> {
        match self {
            OxlintConfig::Next => "oxlintConfigNext"@,
            OxlintConfig::React => "oxlintConfigReact"@,
        }
    }

    pub fn import(self) -> (r: &'static str)
        ensures
            r@ == self.spec_import(),
    {
        match self {
            OxlintConfig::Next => "oxlintConfigNext",
            OxlintConfig::React => "oxlintConfigReact",
        }
    }
}

/// A framework whose generated files are ignored and formatted specially.
#[derive(Debug, Clone, Copy, PartialEq, Eq, Structural)]
pub enum GeneratedConfig {
    Next,
    TanstackStart,
}

impl GeneratedConfig {
    pub open spec fn spec_oxlint_import(self) -> Seq<char> {
        match self {
            GeneratedConfig::Next => "oxlintConfigNext"@,
            GeneratedConfig::TanstackStart => "oxlintConfigTanstackStart"@,
        }
    }

    pub open spec fn spec_oxfmt_import(self) -> Seq<char> {
        match self {
            GeneratedConfig::Next => "oxfmtConfigNext"@,
            GeneratedConfig::TanstackStart => "oxfmtConfigTanstackStart"@,
        }
    }

    pub fn oxlint_import(self) -> (r: &'static str)
        ensures
            r@ == self.spec_oxlint_import(),
    {
        match self {
            GeneratedConfig::Next => "oxlintConfigNext",
            GeneratedConfig::TanstackStart => "oxlintConfigTanstackStart",
        }
    }

    pub fn oxfmt_import(self) -> (r: &'static str)
        ensures
            r@ == self.spec_oxfmt_import(),
    {
        match self {
            GeneratedConfig::Next => "oxfmtConfigNext",
            GeneratedConfig::TanstackStart => "oxfmtConfigTanstackStart",
        }
    }
}

/// The oxlint configurations, in the order they apply, that a project with
/// these packages calls for: Next.js builds on React.
pub open spec fn configs_for(names: Set<Seq<char>>) -> Seq<OxlintConfig> {
    if names.contains("next"@) {
        seq![OxlintConfig::React, OxlintConfig::Next]
    } else if names.contains("react"@) || names.contains("@tanstack/react-start"@) {
        seq![OxlintConfig::React]
    } else {
        seq![]
    }
}

pub fn oxlint_configs(packages: &Packages) -> (r: Vec<OxlintConfig>)
    ensures
        r@ == configs_for(package_names(*packages)),
{
    if packages_contain(packages, "next") {
        vec![OxlintConfig::React, OxlintConfig::Next]
    } else if packages_contain(packages, "react") || packages_contain(
        packages,
        "@tanstack/react-start",
    ) {
        vec![OxlintConfig::React]
    } else {
        vec![]
    }
}

/// The configurations a project calls for.
pub open spec fn project_configs(p: WorkspaceProject) -> Seq<OxlintConfig> {
    configs_for(package_names(p.packages))
}

/// A path with every backslash turned into a forward slash.
pub open spec fn forward_slashes(s: Seq<char>) -> Seq<char> {
    s.map_values(|c: char| if c == '\\' { '/' } else { c })
}

/// Each backslash of `s` turned into a forward slash, as
/// `str::replace('\\', "/")` gives it: the runs between backslashes are
/// copied whole.
fn replace_backslashes(s: &str) -> (r: String)
    ensures
        r@ == forward_slashes(s@),
{
    let n = s.unicode_len();
    let mut r = String::new();
    let mut run_start: usize = 0;
    for i in 0..n
        invariant
            n == s@.len(),
            run_start <= i,
            r@ + s@.subrange(run_start as int, i as int) == forward_slashes(s@.subrange(0, i as int)),
            forall|k: int| run_start <= k < i ==> #[trigger] s@[k] != '\\',
    {
        let c = s.get_char(i);
        proof {
            assert(s@.subrange(0, i + 1) =~= s@.subrange(0, i as int).push(c));
            assert(forward_slashes(s@.subrange(0, i + 1)) =~= forward_slashes(
                s@.subrange(0, i as int),
            ).push(if c == '\\' { '/' } else { c }));
        }
        if c == '\\' {
            let run = s.substring_char(run_start, i);
            r.append(run);
            r.append("/");
            proof {
                reveal_strlit("/");
            }
            run_start = i + 1;
            assert(s@.subrange(run_start as int, i + 1) =~= Seq::<char>::empty());
        } else {
            assert(s@.subrange(run_start as int, i + 1) =~= s@.subrange(
                run_start as int,
                i as int,
            ).push(c));
        }
    }
    let run = s.substring_char(run_start, n);
    r.append(run);
    proof {
        assert(s@.subrange(0, n as int) =~= s@);
    }
    r
}

/// The project's path as written in generated files.
pub fn project_path(project: &WorkspaceProject) -> (r: String)
    ensures
        r@ == forward_slashes(project.path@),
{
    replace_backslashes(project.path.as_str())
}

// ---------------------------------------------------------------------------
// Generated-file configurations, held as an ordered set.
//
// These sets (and the set and map of oxlint configurations below) are
// vectors in the enums' declaration order, which is the order a `BTreeSet`
// of the derived `Ord` iterates in; the contracts state that order and that
// nothing occurs twice. vstd's `BTreeSet` and `BTreeMap` specifications
// cover only keys that obey its `Ord` model, which these enums do not have.
/// The set in its iteration order: `Next` before `TanstackStart`.
pub open spec fn ordered_generated(s: Set<GeneratedConfig>) -> Seq<GeneratedConfig> {
    (if s.contains(GeneratedConfig::Next) {
        seq![GeneratedConfig::Next]
    } else {
        seq![]
    }) + (if s.contains(GeneratedConfig::TanstackStart) {
        seq![GeneratedConfig::TanstackStart]
    } else {
        seq![]
    })
}

/// The generated-file configurations that a package list calls for.
pub open spec fn generated_for(names: Set<Seq<char>>) -> Set<GeneratedConfig> {
    Set::new(
        |g: GeneratedConfig|
            match g {
                GeneratedConfig::Next => names.contains("next"@),
                GeneratedConfig::TanstackStart => names.contains("@tanstack/react-start"@)
                    || names.contains("@tanstack/solid-start"@),
            },
    )
}

/// The generated-file configurations that any of the projects calls for.
pub open spec fn projects_generated(projects: Seq<WorkspaceProject>) -> Set<GeneratedConfig>
    decreases projects.len(),
{
    if projects.len() == 0 {
        Set::empty()
    } else {
        projects_generated(projects.drop_last()).union(
            generated_for(package_names(projects.last().packages)),
        )
    }
}

proof fn lemma_ordered_generated_set(s: Set<GeneratedConfig>)
    ensures
        ordered_generated(s).to_set() == s,
{
    let v = ordered_generated(s);
    assert forall|g: GeneratedConfig| v.to_set().contains(g) <==> s.contains(g) by {
        if s.contains(g) {
            match g {
                GeneratedConfig::Next => assert(v[0] == g),
                GeneratedConfig::TanstackStart => assert(v[v.len() - 1] == g),
            }
        }
    }
    assert(v.to_set() =~= s);
}

/// Adds the configurations that the packages call for to an ordered set.
fn insert_generated_configs(configs: &mut Vec<GeneratedConfig>, packages: &Packages)
    requires
        old(configs)@ == ordered_generated(old(configs)@.to_set()),
    ensures
        final(configs)@ == ordered_generated(
            old(configs)@.to_set().union(generated_for(package_names(*packages))),
        ),
{
    let ghost s = configs@.to_set();
    let mut next = false;
    let mut tanstack = false;
    let n = configs.len();
    for i in 0..n
        invariant
            n == configs.len(),
            s == configs@.to_set(),
            next == (exists|k: int| 0 <= k < i && configs@[k] == GeneratedConfig::Next),
            tanstack == (exists|k: int|
                0 <= k < i && configs@[k] == GeneratedConfig::TanstackStart),
    {
        match configs[i] {
            GeneratedConfig::Next => {
                next = true;
            },
            GeneratedConfig::TanstackStart => {
                tanstack = true;
            },
        }
    }
    proof {
        if s.contains(GeneratedConfig::Next) {
            let k = choose|k: int| 0 <= k < n && configs@[k] == GeneratedConfig::Next;
        }
        if s.contains(GeneratedConfig::TanstackStart) {
            let k = choose|k: int| 0 <= k < n && configs@[k] == GeneratedConfig::TanstackStart;
        }
    }
    if packages_contain(packages, "next") {
        next = true;
    }
    if packages_contain(packages, "@tanstack/react-start") || packages_contain(
        packages,
        "@tanstack/solid-start",
    ) {
        tanstack = true;
    }
    configs.clear();
    if next {
        configs.push(GeneratedConfig::Next);
    }
    if tanstack {
        configs.push(GeneratedConfig::TanstackStart);
    }
    proof {
        let t = s.union(generated_for(package_names(*packages)));
        assert(next == t.contains(GeneratedConfig::Next));
        assert(tanstack == t.contains(GeneratedConfig::TanstackStart));
        assert(configs@ =~= ordered_generated(t));
    }
}

/// The generated-file configurations of the root and of every project, in order.
pub fn workspace_generated_configs(packages: &Packages, projects: &[WorkspaceProject]) -> (r: Vec<
    GeneratedConfig,
>)
    ensures
        r@ == ordered_generated(
            generated_for(package_names(*packages)).union(projects_generated(projects@)),
        ),
{
    let mut configs: Vec<GeneratedConfig> = Vec::new();
    proof {
        assert(configs@ =~= ordered_generated(Set::empty()));
        assert(configs@.to_set() =~= Set::<GeneratedConfig>::empty());
    }
    insert_generated_configs(&mut configs, packages);
    proof {
        assert(Set::<GeneratedConfig>::empty().union(generated_for(package_names(*packages)))
            =~= generated_for(package_names(*packages)));
    }
    let n = projects.len();
    for i in 0..n
        invariant
            n == projects@.len(),
            configs@ == ordered_generated(
                generated_for(package_names(*packages)).union(
                    projects_generated(projects@.take(i as int)),
                ),
            ),
    {
        proof {
            lemma_ordered_generated_set(configs@.to_set());
            lemma_ordered_generated_set(
                generated_for(package_names(*packages)).union(
                    projects_generated(projects@.take(i as int)),
                ),
            );
        }
        insert_generated_configs(&mut configs, &projects[i].packages);
        proof {
            let s = projects@.take(i + 1);
            assert(s.drop_last() =~= projects@.take(i as int));
            let a = generated_for(package_names(*packages));
            let b = projects_generated(projects@.take(i as int));
            let c = generated_for(package_names(projects@[i as int].packages));
            assert(a.union(b).union(c) =~= a.union(b.union(c)));
        }
    }
    proof {
        assert(projects@.take(n as int) =~= projects@);
    }
    configs
}

// ---------------------------------------------------------------------------
// The configurations that every project shares.
/// Every configuration list has `first[i]` at position `i`.
pub open spec fn all_agree_at(
    lists: Seq<Seq<OxlintConfig>>,
    first: Seq<OxlintConfig>,
    i: int,
) -> bool {
    forall|p: int| 0 <= p < lists.len() ==> has_at(#[trigger] lists[p], i, first[i])
}

/// The list holds `c` at position `i`.
pub open spec fn has_at(list: Seq<OxlintConfig>, i: int, c: OxlintConfig) -> bool {
    0 <= i < list.len() && list[i] == c
}

/// How many leading positions of `first`, from `i` on, all lists agree on.
pub open spec fn shared_run(lists: Seq<Seq<OxlintConfig>>, first: Seq<OxlintConfig>, i: nat) -> nat
    decreases (if i < first.len() {
        first.len() - i
    } else {
        0
    }),
{
    if i < first.len() && all_agree_at(lists, first, i as int) {
        1 + shared_run(lists, first, i + 1)
    } else {
        0
    }
}

/// The configurations that go into the root's shared array: the root's own
/// when there are no projects, else the longest prefix common to all projects.
pub open spec fn common_configs_spec(
    root: Set<Seq<char>>,
    projects: Seq<WorkspaceProject>,
) -> Seq<OxlintConfig> {
    if projects.len() == 0 {
        configs_for(root)
    } else {
        let lists = projects.map_values(|p: WorkspaceProject| project_configs(p));
        lists[0].take(shared_run(lists, lists[0], 0) as int)
    }
}

proof fn lemma_shared_run_bound(lists: Seq<Seq<OxlintConfig>>, first: Seq<OxlintConfig>, i: nat)
    requires
        i <= first.len(),
    ensures
        i + shared_run(lists, first, i) <= first.len(),
        forall|j: int|
            i <= j < i + shared_run(lists, first, i) ==> all_agree_at(lists, first, j),
        i + shared_run(lists, first, i) < first.len() ==> !all_agree_at(
            lists,
            first,
            (i + shared_run(lists, first, i)) as int,
        ),
    decreases first.len() - i,
{
    if i < first.len() && all_agree_at(lists, first, i as int) {
        lemma_shared_run_bound(lists, first, i + 1);
    }
}

pub fn common_oxlint_configs(packages: &Packages, projects: &[WorkspaceProject]) -> (r: Vec<
    OxlintConfig,
>)
    ensures
        r@ == common_configs_spec(package_names(*packages), projects@),
{
    if projects.len() == 0 {
        return oxlint_configs(packages);
    }
    let ghost lists = projects@.map_values(|p: WorkspaceProject| project_configs(p));
    let first_configs = oxlint_configs(&projects[0].packages);
    let mut count: usize = 0;
    proof {
        lemma_shared_run_bound(lists, lists[0], 0);
    }
    while count < first_configs.len()
        invariant
            count <= first_configs@.len(),
            projects@.len() > 0,
            first_configs@ == lists[0],
            lists == projects@.map_values(|p: WorkspaceProject| project_configs(p)),
            shared_run(lists, lists[0], 0) == count + shared_run(lists, lists[0], count as nat),
        ensures
            count <= first_configs@.len(),
            first_configs@ == lists[0],
            shared_run(lists, lists[0], 0) == count,
        decreases first_configs.len() - count,
    {
        let c = first_configs[count];
        let mut all = true;
        let mut p: usize = 0;
        while p < projects.len()
            invariant
                p <= projects@.len(),
                projects@.len() > 0,
                count < first_configs@.len(),
                c == lists[0][count as int],
                first_configs@ == lists[0],
                lists == projects@.map_values(|p: WorkspaceProject| project_configs(p)),
                all == forall|q: int| 0 <= q < p ==> has_at(#[trigger] lists[q], count as int, c),
            decreases projects.len() - p,
        {
            let cs = oxlint_configs(&projects[p].packages);
            proof {
                assert(lists[p as int] == project_configs(projects@[p as int]));
                assert(has_at(lists[p as int], count as int, c) == (count < cs@.len() && cs@[count as int] == c));
            }
            if !(count < cs.len() && cs[count] == c) {
                all = false;
            }
            p = p + 1;
        }
        proof {
            assert(lists.len() == projects@.len());
            if all {
                assert(all_agree_at(lists, lists[0], count as int));
            }
        }
        if !all {
            break;
        }
        count = count + 1;
    }
    let mut r: Vec<OxlintConfig> = Vec::new();
    let mut k: usize = 0;
    while k < count
        invariant
            k <= count <= first_configs@.len(),
            r@ == first_configs@.take(k as int),
        decreases count - k,
    {
        r.push(first_configs[k]);
        proof {
            assert(first_configs@.take(k + 1) =~= first_configs@.take(k as int).push(
                first_configs@[k as int],
            ));
        }
        k = k + 1;
    }
    r
}

// ---------------------------------------------------------------------------
// Override groups: which projects get which further configurations.
/// A project waiting to be placed in override groups, seen as its
/// configuration list and its path as written in generated files.
pub type PendingItem = (Seq<OxlintConfig>, Seq<char>);

/// An override group, seen as its configurations and its file globs.
pub type GroupView = (Seq<OxlintConfig>, Seq<Seq<char>>);

/// Further configurations for the files of some projects.
#[derive(Debug)]
pub struct OxlintOverrideGroup {
    pub configs: Vec<OxlintConfig>,
    pub files: Vec<String>,
}

pub open spec fn group_view(g: OxlintOverrideGroup) -> GroupView {
    (g.configs@, strs_view(g.files@))
}

pub open spec fn groups_view(gs: Seq<OxlintOverrideGroup>) -> Seq<GroupView> {
    gs.map_values(|g: OxlintOverrideGroup| group_view(g))
}

/// The item calls for `c` at position `depth`.
pub open spec fn takes(it: PendingItem, depth: nat, c: OxlintConfig) -> bool {
    depth < it.0.len() && it.0[depth as int] == c
}

/// The items, in order, that call for `c` at position `depth`.
pub open spec fn branch_of(items: Seq<PendingItem>, depth: nat, c: OxlintConfig) -> Seq<PendingItem>
    decreases items.len(),
{
    if items.len() == 0 {
        seq![]
    } else {
        let rest = branch_of(items.drop_last(), depth, c);
        if takes(items.last(), depth, c) {
            rest.push(items.last())
        } else {
            rest
        }
    }
}

/// All items agree with the first one at position `pos`.
pub open spec fn branch_agrees_at(b: Seq<PendingItem>, pos: int) -> bool {
    forall|k: int| 0 <= k < b.len() ==> has_at(#[trigger] b[k].0, pos, b[0].0[pos])
}

/// How many positions from `pos` on all items of the branch agree on.
pub open spec fn agreed_run(b: Seq<PendingItem>, pos: nat) -> nat
    decreases (if b.len() > 0 && pos < b[0].0.len() {
        b[0].0.len() - pos
    } else {
        0
    }),
{
    if b.len() > 0 && pos < b[0].0.len() && branch_agrees_at(b, pos as int) {
        1 + agreed_run(b, pos + 1)
    } else {
        0
    }
}

/// The file globs of a branch: every file below each project.
pub open spec fn file_globs(b: Seq<PendingItem>) -> Seq<Seq<char>> {
    b.map_values(|it: PendingItem| it.1 + "/**/*"@)
}

/// The group of a branch that calls for a configuration at `depth`: that
/// configuration and every later one the whole branch agrees on, for the
/// sorted files of the branch's projects.
pub open spec fn group_of(b: Seq<PendingItem>, depth: nat) -> GroupView {
    (
        b[0].0.subrange(depth as int, (depth + 1 + agreed_run(b, depth + 1)) as int),
        sort_strs(file_globs(b)),
    )
}

/// The groups for the items, all of which share their first `depth`
/// configurations: for each configuration at `depth`, in order (React, then
/// Next), the group of the items that call for it, followed by the groups
/// that these items need past it.  `bound` caps the configuration lists.
pub open spec fn groups_spec(items: Seq<PendingItem>, depth: nat, bound: nat) -> Seq<GroupView>
    decreases (if depth < bound {
        bound - depth
    } else {
        0
    }),
{
    if depth < bound {
        let r = branch_of(items, depth, OxlintConfig::React);
        let n = branch_of(items, depth, OxlintConfig::Next);
        let gr = if r.len() > 0 {
            seq![group_of(r, depth)] + groups_spec(r, depth + 1 + agreed_run(r, depth + 1), bound)
        } else {
            seq![]
        };
        let gn = if n.len() > 0 {
            seq![group_of(n, depth)] + groups_spec(n, depth + 1 + agreed_run(n, depth + 1), bound)
        } else {
            seq![]
        };
        gr + gn
    } else {
        seq![]
    }
}

/// The projects as items: configuration list and path as written.
pub open spec fn project_items(projects: Seq<WorkspaceProject>) -> Seq<PendingItem> {
    projects.map_values(
        |p: WorkspaceProject| (project_configs(p), forward_slashes(p.path@)),
    )
}

/// The override groups for projects beyond the shared configurations; no
/// project calls for more than two configurations.
pub open spec fn override_groups_spec(common_len: nat, projects: Seq<WorkspaceProject>) -> Seq<
    GroupView,
> {
    groups_spec(project_items(projects), common_len, 2)
}

proof fn lemma_branch_of_members(items: Seq<PendingItem>, depth: nat, c: OxlintConfig)
    ensures
        forall|k: int|
            0 <= k < branch_of(items, depth, c).len() ==> takes(
                #[trigger] branch_of(items, depth, c)[k],
                depth,
                c,
            ) && items.contains(branch_of(items, depth, c)[k]),
        branch_of(items, depth, c).len() <= items.len(),
    decreases items.len(),
{
    if items.len() > 0 {
        lemma_branch_of_members(items.drop_last(), depth, c);
        let rest = branch_of(items.drop_last(), depth, c);
        assert forall|k: int| 0 <= k < rest.len() implies items.contains(#[trigger] rest[k]) by {
            let m = choose|m: int| 0 <= m < items.drop_last().len() && items.drop_last()[m]
                == rest[k];
            assert(items[m] == rest[k]);
        }
        assert(items[items.len() - 1] == items.last());
    }
}

proof fn lemma_branch_of_step(items: Seq<PendingItem>, depth: nat, c: OxlintConfig, i: int)
    requires
        0 <= i < items.len(),
    ensures
        branch_of(items.take(i + 1), depth, c) == if takes(items[i], depth, c) {
            branch_of(items.take(i), depth, c).push(items[i])
        } else {
            branch_of(items.take(i), depth, c)
        },
{
    assert(items.take(i + 1).drop_last() =~= items.take(i));
}

/// The items' configuration lists are no longer than `bound`.
pub open spec fn bounded_items(items: Seq<PendingItem>, bound: nat) -> bool {
    forall|k: int| 0 <= k < items.len() ==> (#[trigger] items[k]).0.len() <= bound
}

proof fn lemma_branch_bounded(items: Seq<PendingItem>, depth: nat, c: OxlintConfig, bound: nat)
    requires
        bounded_items(items, bound),
    ensures
        bounded_items(branch_of(items, depth, c), bound),
        branch_of(items, depth, c).len() > 0 ==> depth < bound,
{
    lemma_branch_of_members(items, depth, c);
    let b = branch_of(items, depth, c);
    assert forall|k: int| 0 <= k < b.len() implies (#[trigger] b[k]).0.len() <= bound by {
        let m = choose|m: int| 0 <= m < items.len() && items[m] == b[k];
    }
    if b.len() > 0 {
        assert(takes(b[0], depth, c));
    }
}

/// A project waiting to be placed in override groups.
struct PendingOxlintProject {
    configs: Vec<OxlintConfig>,
    path: String,
}

spec fn pending_item(p: PendingOxlintProject) -> PendingItem {
    (p.configs@, p.path@)
}

/// The items of the chosen pending projects, in the order of `members`.
spec fn member_items(all: Seq<PendingOxlintProject>, members: Seq<usize>) -> Seq<PendingItem> {
    members.map_values(|m: usize| pending_item(all[m as int]))
}

spec fn valid_members(all: Seq<PendingOxlintProject>, members: Seq<usize>) -> bool {
    forall|k: int| 0 <= k < members.len() ==> (#[trigger] members[k]) < all.len()
}

/// Appends the groups for the chosen projects, which share their first
/// `config_index` configurations, to `groups`.
fn append_oxlint_override_groups(
    all: &Vec<PendingOxlintProject>,
    members: &Vec<usize>,
    config_index: usize,
    groups: &mut Vec<OxlintOverrideGroup>,
    Ghost(bound): Ghost<nat>,
)
    requires
        valid_members(all@, members@),
        bounded_items(member_items(all@, members@), bound),
        bound <= usize::MAX,
    ensures
        groups_view(final(groups)@) == groups_view(old(groups)@) + groups_spec(
            member_items(all@, members@),
            config_index as nat,
            bound,
        ),
    decreases (if config_index < bound {
        bound - config_index
    } else {
        0
    }), 1int,
{
    let ghost items = member_items(all@, members@);
    let mut react: Vec<usize> = Vec::new();
    let mut next: Vec<usize> = Vec::new();
    let n = members.len();
    for i in 0..n
        invariant
            n == members@.len(),
            items == member_items(all@, members@),
            valid_members(all@, members@),
            valid_members(all@, react@),
            valid_members(all@, next@),
            member_items(all@, react@) == branch_of(
                items.take(i as int),
                config_index as nat,
                OxlintConfig::React,
            ),
            member_items(all@, next@) == branch_of(
                items.take(i as int),
                config_index as nat,
                OxlintConfig::Next,
            ),
    {
        let m = members[i];
        let project = &all[m];
        proof {
            lemma_branch_of_step(items, config_index as nat, OxlintConfig::React, i as int);
            lemma_branch_of_step(items, config_index as nat, OxlintConfig::Next, i as int);
            assert(items[i as int] == pending_item(all@[m as int]));
        }
        if config_index < project.configs.len() {
            match project.configs[config_index] {
                OxlintConfig::React => {
                    react.push(m);
                },
                OxlintConfig::Next => {
                    next.push(m);
                },
            }
        }
        proof {
            assert(member_items(all@, react@) =~= branch_of(
                items.take(i + 1),
                config_index as nat,
                OxlintConfig::React,
            ));
            assert(member_items(all@, next@) =~= branch_of(
                items.take(i + 1),
                config_index as nat,
                OxlintConfig::Next,
            ));
        }
    }
    proof {
        assert(items.take(n as int) =~= items);
        lemma_branch_bounded(items, config_index as nat, OxlintConfig::React, bound);
        lemma_branch_bounded(items, config_index as nat, OxlintConfig::Next, bound);
        lemma_branch_of_members(items, config_index as nat, OxlintConfig::React);
        lemma_branch_of_members(items, config_index as nat, OxlintConfig::Next);
    }
    let ghost before = groups_view(groups@);
    if react.len() > 0 {
        append_branch(all, &react, OxlintConfig::React, config_index, groups, Ghost(bound));
    }
    let ghost middle = groups_view(groups@);
    if next.len() > 0 {
        append_branch(all, &next, OxlintConfig::Next, config_index, groups, Ghost(bound));
    }
    proof {
        let d = config_index as nat;
        if d < bound {
            let r = branch_of(items, d, OxlintConfig::React);
            let nb = branch_of(items, d, OxlintConfig::Next);
            let gr = if r.len() > 0 {
                seq![group_of(r, d)] + groups_spec(r, d + 1 + agreed_run(r, d + 1), bound)
            } else {
                seq![]
            };
            let gn = if nb.len() > 0 {
                seq![group_of(nb, d)] + groups_spec(nb, d + 1 + agreed_run(nb, d + 1), bound)
            } else {
                seq![]
            };
            assert(middle =~= before + gr);
            assert(groups_view(groups@) =~= middle + gn);
            assert(groups_view(groups@) =~= before + (gr + gn));
        } else {
            assert(groups_view(groups@) =~= before + Seq::<GroupView>::empty());
        }
    }
}

/// Appends the group of a branch of projects that all call for `config` at
/// position `config_index`, then the groups these projects need past it.
fn append_branch(
    all: &Vec<PendingOxlintProject>,
    branch: &Vec<usize>,
    config: OxlintConfig,
    config_index: usize,
    groups: &mut Vec<OxlintOverrideGroup>,
    Ghost(bound): Ghost<nat>,
)
    requires
        valid_members(all@, branch@),
        branch@.len() > 0,
        bounded_items(member_items(all@, branch@), bound),
        config_index < bound <= usize::MAX,
        forall|k: int|
            0 <= k < branch@.len() ==> takes(
                #[trigger] member_items(all@, branch@)[k],
                config_index as nat,
                config,
            ),
    ensures
        groups_view(final(groups)@) == groups_view(old(groups)@) + (seq![
            group_of(member_items(all@, branch@), config_index as nat),
        ] + groups_spec(
            member_items(all@, branch@),
            (config_index + 1 + agreed_run(
                member_items(all@, branch@),
                (config_index + 1) as nat,
            )) as nat,
            bound,
        )),
    decreases bound - config_index, 0int,
{
    let ghost b = member_items(all@, branch@);
    let ghost d = config_index as nat;
    let first = &all[branch[0]];
    proof {
        assert(b[0] == pending_item(all@[branch@[0] as int]));
        assert(takes(b[0], d, config));
    }
    let mut configs: Vec<OxlintConfig> = Vec::new();
    configs.push(config);
    let mut idx: usize = config_index + 1;
    proof {
        assert(configs@ =~= b[0].0.subrange(d as int, idx as int));
    }
    loop
        invariant
            b == member_items(all@, branch@),
            valid_members(all@, branch@),
            branch@.len() > 0,
            first == all@[branch@[0] as int],
            d + 1 <= idx <= b[0].0.len(),
            configs@ == b[0].0.subrange(d as int, idx as int),
            agreed_run(b, d + 1) == (idx - d - 1) + agreed_run(b, idx as nat),
        ensures
            d + 1 <= idx <= b[0].0.len(),
            configs@ == b[0].0.subrange(d as int, idx as int),
            agreed_run(b, d + 1) == idx - d - 1,
        decreases b[0].0.len() - idx,
    {
        if idx >= first.configs.len() {
            break;
        }
        let next_config = first.configs[idx];
        let mut agree = true;
        let mut k: usize = 0;
        while k < branch.len()
            invariant
                b == member_items(all@, branch@),
                valid_members(all@, branch@),
                branch@.len() > 0,
                first == all@[branch@[0] as int],
                idx < b[0].0.len(),
                next_config == b[0].0[idx as int],
                k <= branch@.len(),
                agree == forall|q: int|
                    0 <= q < k ==> has_at(#[trigger] b[q].0, idx as int, b[0].0[idx as int]),
            decreases branch.len() - k,
        {
            let p = &all[branch[k]];
            proof {
                assert(b[k as int] == pending_item(all@[branch@[k as int] as int]));
            }
            let ok = idx < p.configs.len() && p.configs[idx] == next_config;
            proof {
                assert(ok == has_at(b[k as int].0, idx as int, b[0].0[idx as int]));
            }
            if !ok {
                agree = false;
            }
            k = k + 1;
        }
        if !agree {
            break;
        }
        configs.push(next_config);
        proof {
            assert(branch_agrees_at(b, idx as int));
            assert(configs@ =~= b[0].0.subrange(d as int, idx + 1));
        }
        idx = idx + 1;
    }
    let mut globs: Vec<String> = Vec::new();
    let mut k: usize = 0;
    while k < branch.len()
        invariant
            b == member_items(all@, branch@),
            valid_members(all@, branch@),
            k <= branch@.len(),
            strs_view(globs@) == file_globs(b).take(k as int),
        decreases branch.len() - k,
    {
        let mut glob = all[branch[k]].path.clone();
        glob.append("/**/*");
        let ghost before_push = globs@;
        globs.push(glob);
        proof {
            assert(b[k as int] == pending_item(all@[branch@[k as int] as int]));
            assert(file_globs(b)[k as int] == b[k as int].1 + "/**/*"@);
            assert(glob@ == file_globs(b)[k as int]);
            assert(globs@ == before_push.push(glob));
            assert(strs_view(globs@) =~= strs_view(before_push).push(glob@));
            assert(b.len() == branch@.len());
            assert(strs_view(globs@) =~= file_globs(b).take(k + 1));
        }
        k = k + 1;
    }
    proof {
        assert(file_globs(b).take(branch@.len() as int) =~= file_globs(b));
    }
    let files = sort_strings(&globs);
    let ghost before = groups_view(groups@);
    groups.push(OxlintOverrideGroup { configs, files });
    proof {
        assert(groups_view(groups@) =~= before.push(group_of(b, d)));
    }
    let ghost middle = groups_view(groups@);
    append_oxlint_override_groups(all, branch, idx, groups, Ghost(bound));
    proof {
        assert(groups_view(groups@) =~= before + (seq![group_of(b, d)] + groups_spec(
            b,
            idx as nat,
            bound,
        )));
    }
}

/// The override groups for the projects, past the configurations that all of
/// them share.
pub fn oxlint_override_groups(common_configs: &[OxlintConfig], projects: &[WorkspaceProject]) -> (r:
    Vec<OxlintOverrideGroup>)
    ensures
        groups_view(r@) == override_groups_spec(common_configs@.len(), projects@),
{
    let mut all: Vec<PendingOxlintProject> = Vec::new();
    let mut members: Vec<usize> = Vec::new();
    let n = projects.len();
    for i in 0..n
        invariant
            n == projects@.len(),
            all@.len() == i,
            members@.len() == i,
            forall|k: int| 0 <= k < i ==> #[trigger] members@[k] == k,
            forall|k: int|
                0 <= k < i ==> #[trigger] pending_item(all@[k]) == project_items(projects@)[k],
    {
        let configs = oxlint_configs(&projects[i].packages);
        let path = project_path(&projects[i]);
        all.push(PendingOxlintProject { configs, path });
        members.push(i);
    }
    proof {
        let items = member_items(all@, members@);
        assert(items =~= project_items(projects@));
        assert forall|k: int| 0 <= k < items.len() implies (#[trigger] items[k]).0.len() <= 2 by {
            assert(items[k].0 == project_configs(projects@[k]));
        }
    }
    let mut groups: Vec<OxlintOverrideGroup> = Vec::new();
    append_oxlint_override_groups(&all, &members, common_configs.len(), &mut groups, Ghost(2));
    proof {
        assert(groups_view(groups@) =~= override_groups_spec(common_configs@.len(), projects@));
    }
    groups
}

// ---------------------------------------------------------------------------
// Rendering the configuration files.
/// The oxlint configurations in a set, in their order: React, then Next.
pub open spec fn ordered_oxlint(s: Set<OxlintConfig>) -> Seq<OxlintConfig> {
    (if s.contains(OxlintConfig::React) {
        seq![OxlintConfig::React]
    } else {
        seq![]
    }) + (if s.contains(OxlintConfig::Next) {
        seq![OxlintConfig::Next]
    } else {
        seq![]
    })
}

/// Every configuration some project calls for.
pub open spec fn projects_oxlint(projects: Seq<WorkspaceProject>) -> Set<OxlintConfig>
    decreases projects.len(),
{
    if projects.len() == 0 {
        Set::empty()
    } else {
        projects_oxlint(projects.drop_last()).union(project_configs(projects.last()).to_set())
    }
}

/// The configurations to import: the shared ones and those of every project.
pub open spec fn imported_configs_spec(
    common: Seq<OxlintConfig>,
    projects: Seq<WorkspaceProject>,
) -> Seq<OxlintConfig> {
    ordered_oxlint(common.to_set().union(projects_oxlint(projects)))
}

/// The Next.js root directories: each project that lists `next`, in order,
/// as its path with a trailing slash.
pub open spec fn next_roots_spec(projects: Seq<WorkspaceProject>) -> Seq<Seq<char>>
    decreases projects.len(),
{
    if projects.len() == 0 {
        seq![]
    } else {
        let rest = next_roots_spec(projects.drop_last());
        let p = projects.last();
        if package_names(p.packages).contains("next"@) {
            rest.push(forward_slashes(p.path@) + "/"@)
        } else {
            rest
        }
    }
}

/// One line per configuration: indent, export name, comma.
pub open spec fn import_lines(cs: Seq<OxlintConfig>, indent: Seq<char>) -> Seq<char> {
    concat_all(cs.map_values(|c: OxlintConfig| indent + c.spec_import() + ",\n"@))
}

/// Some imported configuration is exported under `name`.
pub open spec fn imports_name(imported: Seq<OxlintConfig>, name: Seq<char>) -> bool {
    exists|k: int| 0 <= k < imported.len() && (#[trigger] imported[k]).spec_import() == name
}

/// Import lines for the generated-file configurations not already imported.
pub open spec fn extra_import_lines(
    generated: Seq<GeneratedConfig>,
    imported: Seq<OxlintConfig>,
) -> Seq<char> {
    concat_all(
        generated.map_values(
            |g: GeneratedConfig|
                if imports_name(imported, g.spec_oxlint_import()) {
                    ""@
                } else {
                    "  "@ + g.spec_oxlint_import() + ",\n"@
                },
        ),
    )
}

/// One line per generated-file configuration, with its oxlint export name.
pub open spec fn generated_oxlint_lines(gs: Seq<GeneratedConfig>, indent: Seq<char>) -> Seq<char> {
    concat_all(gs.map_values(|g: GeneratedConfig| indent + g.spec_oxlint_import() + ",\n"@))
}

/// One line per generated-file configuration, with its oxfmt export name.
pub open spec fn generated_oxfmt_lines(gs: Seq<GeneratedConfig>) -> Seq<char> {
    concat_all(gs.map_values(|g: GeneratedConfig| "  "@ + g.spec_oxfmt_import() + ",\n"@))
}

/// An override: the files as a JSON array, then the configurations.
pub open spec fn group_text(g: GroupView) -> Seq<char> {
    "      oxlintOverride(\n"@ + "        "@ + json_string_array(g.1) + ",\n"@ + "        ["@
        + join_with(g.0.map_values(|c: OxlintConfig| c.spec_import()), ", "@) + "],\n"@
        + "      ),\n"@
}

/// The workspace options object of the oxlint configuration.
pub open spec fn options_text(
    generated: Seq<GeneratedConfig>,
    groups: Seq<GroupView>,
    next_roots: Seq<Seq<char>>,
) -> Seq<char> {
    "  {\n"@ + (if generated.len() > 0 {
        "    ignorePatterns: oxlintIgnorePatterns([\n"@ + generated_oxlint_lines(generated, "      "@)
            + "    ]),\n"@
    } else {
        ""@
    }) + (if groups.len() > 0 {
        "    overrides: [\n"@ + concat_all(groups.map_values(|g: GroupView| group_text(g)))
            + "    ],\n"@
    } else {
        ""@
    }) + (if next_roots.len() > 0 {
        "    settings: {\n"@ + "      next: {\n"@ + "        rootDir: "@ + json_string_array(
            next_roots,
        ) + ",\n"@ + "      },\n"@ + "    },\n"@
    } else {
        ""@
    }) + "  },\n"@
}

/// The oxlint configuration file from its parts.
pub open spec fn oxlint_text_of(
    common: Seq<OxlintConfig>,
    generated: Seq<GeneratedConfig>,
    groups: Seq<GroupView>,
    imported: Seq<OxlintConfig>,
    next_roots: Seq<Seq<char>>,
) -> Seq<char> {
    "import {\n"@ + "  oxlintConfig,\n"@ + "  oxlintConfigBase,\n"@ + (if generated.len() > 0 {
        "  oxlintIgnorePatterns,\n"@
    } else {
        ""@
    }) + (if groups.len() > 0 {
        "  oxlintOverride,\n"@
    } else {
        ""@
    }) + import_lines(imported, "  "@) + extra_import_lines(generated, imported)
        + "} from '@hiddenability/opinionated-defaults/oxlint';\n\n"@
        + "export default oxlintConfig(\n"@ + "  [\n"@ + "    oxlintConfigBase,\n"@ + import_lines(
        common,
        "    "@,
    ) + "  ],\n"@ + (if generated.len() > 0 || groups.len() > 0 || next_roots.len() > 0 {
        options_text(generated, groups, next_roots)
    } else {
        ""@
    }) + ");\n"@
}

/// The oxlint configuration file for a workspace root with these packages
/// and these projects.
pub open spec fn oxlint_config_text(root: Packages, projects: Seq<WorkspaceProject>) -> Seq<char> {
    let common = common_configs_spec(package_names(root), projects);
    oxlint_text_of(
        common,
        ordered_generated(generated_for(package_names(root)).union(projects_generated(projects))),
        override_groups_spec(common.len(), projects),
        imported_configs_spec(common, projects),
        next_roots_spec(projects),
    )
}

/// The oxfmt configuration file from the generated-file configurations.
pub open spec fn oxfmt_text_of(generated: Seq<GeneratedConfig>) -> Seq<char> {
    "import {\n"@ + "  oxfmtConfig,\n"@ + "  oxfmtConfigBase,\n"@ + generated_oxfmt_lines(generated)
        + "} from '@hiddenability/opinionated-defaults/oxfmt';\n\n"@
        + "export default oxfmtConfig(\n"@ + "  oxfmtConfigBase,\n"@ + generated_oxfmt_lines(
        generated,
    ) + ");\n"@
}

/// The oxfmt configuration file for a workspace root with these packages and
/// these projects.
pub open spec fn oxfmt_config_text(root: Packages, projects: Seq<WorkspaceProject>) -> Seq<char> {
    oxfmt_text_of(
        ordered_generated(generated_for(package_names(root)).union(projects_generated(projects))),
    )
}

fn import_lines_text(cs: &Vec<OxlintConfig>, indent: &str) -> (r: String)
    ensures
        r@ == import_lines(cs@, indent@),
{
    let ghost parts = cs@.map_values(|c: OxlintConfig| indent@ + c.spec_import() + ",\n"@);
    let mut r = String::new();
    let n = cs.len();
    for i in 0..n
        invariant
            n == cs@.len(),
            parts == cs@.map_values(|c: OxlintConfig| indent@ + c.spec_import() + ",\n"@),
            r@ == concat_all(parts.take(i as int)),
    {
        r.append(indent);
        r.append(cs[i].import());
        r.append(",\n");
        proof {
            lemma_concat_all_step(parts, i as int);
        }
    }
    proof {
        assert(parts.take(n as int) =~= parts);
    }
    r
}

fn generated_lines_text(gs: &Vec<GeneratedConfig>, indent: &str, oxfmt: bool) -> (r: String)
    ensures
        oxfmt ==> r@ == generated_oxfmt_lines(gs@),
        !oxfmt ==> r@ == generated_oxlint_lines(gs@, indent@),
{
    let ghost parts = if oxfmt {
        gs@.map_values(|g: GeneratedConfig| "  "@ + g.spec_oxfmt_import() + ",\n"@)
    } else {
        gs@.map_values(|g: GeneratedConfig| indent@ + g.spec_oxlint_import() + ",\n"@)
    };
    let mut r = String::new();
    let n = gs.len();
    for i in 0..n
        invariant
            n == gs@.len(),
            parts == if oxfmt {
                gs@.map_values(|g: GeneratedConfig| "  "@ + g.spec_oxfmt_import() + ",\n"@)
            } else {
                gs@.map_values(|g: GeneratedConfig| indent@ + g.spec_oxlint_import() + ",\n"@)
            },
            r@ == concat_all(parts.take(i as int)),
    {
        if oxfmt {
            r.append("  ");
            r.append(gs[i].oxfmt_import());
        } else {
            r.append(indent);
            r.append(gs[i].oxlint_import());
        }
        r.append(",\n");
        proof {
            lemma_concat_all_step(parts, i as int);
        }
    }
    proof {
        assert(parts.take(n as int) =~= parts);
    }
    r
}

fn extra_import_lines_text(generated: &Vec<GeneratedConfig>, imported: &Vec<OxlintConfig>) -> (r:
    String)
    ensures
        r@ == extra_import_lines(generated@, imported@),
{
    let ghost parts = generated@.map_values(
        |g: GeneratedConfig|
            if imports_name(imported@, g.spec_oxlint_import()) {
                ""@
            } else {
                "  "@ + g.spec_oxlint_import() + ",\n"@
            },
    );
    let mut r = String::new();
    let n = generated.len();
    for i in 0..n
        invariant
            n == generated@.len(),
            parts == generated@.map_values(
                |g: GeneratedConfig|
                    if imports_name(imported@, g.spec_oxlint_import()) {
                        ""@
                    } else {
                        "  "@ + g.spec_oxlint_import() + ",\n"@
                    },
            ),
            r@ == concat_all(parts.take(i as int)),
    {
        let name = generated[i].oxlint_import();
        let mut found = false;
        let m = imported.len();
        for k in 0..m
            invariant
                m == imported@.len(),
                name@ == generated@[i as int].spec_oxlint_import(),
                found == exists|j: int|
                    0 <= j < k && (#[trigger] imported@[j]).spec_import() == name@,
        {
            if str_eq(imported[k].import(), name) {
                found = true;
            }
        }
        if found {
            r.append("");
        } else {
            r.append("  ");
            r.append(name);
            r.append(",\n");
        }
        proof {
            lemma_concat_all_step(parts, i as int);
        }
    }
    proof {
        assert(parts.take(n as int) =~= parts);
    }
    r
}

fn group_text_exec(group: &OxlintOverrideGroup) -> (r: String)
    ensures
        r@ == group_text(group_view(*group)),
{
    let mut r = String::new();
    r.append("      oxlintOverride(\n");
    r.append("        ");
    let files = to_json_string_array(&group.files);
    r.append(files.as_str());
    r.append(",\n");
    r.append("        [");
    let ghost names = group.configs@.map_values(|c: OxlintConfig| c.spec_import());
    let mut joined = String::new();
    let n = group.configs.len();
    for i in 0..n
        invariant
            n == group.configs@.len(),
            names == group.configs@.map_values(|c: OxlintConfig| c.spec_import()),
            joined@ == join_with(names.take(i as int), ", "@),
    {
        if i > 0 {
            joined.append(", ");
        }
        joined.append(group.configs[i].import());
        proof {
            lemma_join_with_step(names, ", "@, i as int);
            if i == 0 {
                assert(joined@ =~= names[0]);
            }
        }
    }
    proof {
        assert(names.take(n as int) =~= names);
    }
    r.append(joined.as_str());
    r.append("],\n");
    r.append("      ),\n");
    r
}

fn groups_text(groups: &Vec<OxlintOverrideGroup>) -> (r: String)
    ensures
        r@ == concat_all(groups_view(groups@).map_values(|g: GroupView| group_text(g))),
{
    let ghost parts = groups_view(groups@).map_values(|g: GroupView| group_text(g));
    let mut r = String::new();
    let n = groups.len();
    for i in 0..n
        invariant
            n == groups@.len(),
            parts == groups_view(groups@).map_values(|g: GroupView| group_text(g)),
            r@ == concat_all(parts.take(i as int)),
    {
        let t = group_text_exec(&groups[i]);
        r.append(t.as_str());
        proof {
            lemma_concat_all_step(parts, i as int);
        }
    }
    proof {
        assert(parts.take(n as int) =~= parts);
    }
    r
}

/// The configurations to import, in order: the shared ones and every one a
/// project calls for.
fn imported_configs(common: &Vec<OxlintConfig>, projects: &[WorkspaceProject]) -> (r: Vec<
    OxlintConfig,
>)
    ensures
        r@ == imported_configs_spec(common@, projects@),
{
    let mut react = false;
    let mut next = false;
    let m = common.len();
    for k in 0..m
        invariant
            m == common@.len(),
            react == exists|j: int| 0 <= j < k && common@[j] == OxlintConfig::React,
            next == exists|j: int| 0 <= j < k && common@[j] == OxlintConfig::Next,
    {
        match common[k] {
            OxlintConfig::React => {
                react = true;
            },
            OxlintConfig::Next => {
                next = true;
            },
        }
    }
    proof {
        assert(react == common@.to_set().contains(OxlintConfig::React));
        assert(next == common@.to_set().contains(OxlintConfig::Next));
    }
    let n = projects.len();
    for i in 0..n
        invariant
            n == projects@.len(),
            react == common@.to_set().union(projects_oxlint(projects@.take(i as int))).contains(
                OxlintConfig::React,
            ),
            next == common@.to_set().union(projects_oxlint(projects@.take(i as int))).contains(
                OxlintConfig::Next,
            ),
    {
        let cs = oxlint_configs(&projects[i].packages);
        let ghost react0 = react;
        let ghost next0 = next;
        proof {
            assert(projects@.take(i + 1).drop_last() =~= projects@.take(i as int));
            assert(projects@.take(i + 1).last() == projects@[i as int]);
        }
        let c = cs.len();
        for k in 0..c
            invariant
                c == cs@.len(),
                react == (react0 || exists|j: int| 0 <= j < k && cs@[j] == OxlintConfig::React),
                next == (next0 || exists|j: int| 0 <= j < k && cs@[j] == OxlintConfig::Next),
        {
            match cs[k] {
                OxlintConfig::React => {
                    react = true;
                },
                OxlintConfig::Next => {
                    next = true;
                },
            }
        }
        proof {
            assert(cs@.to_set().contains(OxlintConfig::React) == exists|j: int|
                0 <= j < c && cs@[j] == OxlintConfig::React);
            assert(cs@.to_set().contains(OxlintConfig::Next) == exists|j: int|
                0 <= j < c && cs@[j] == OxlintConfig::Next);
        }
    }
    proof {
        assert(projects@.take(n as int) =~= projects@);
    }
    let mut r: Vec<OxlintConfig> = Vec::new();
    if react {
        r.push(OxlintConfig::React);
    }
    if next {
        r.push(OxlintConfig::Next);
    }
    proof {
        assert(r@ =~= imported_configs_spec(common@, projects@));
    }
    r
}

/// The paths, with a trailing slash, of the projects that list `next`.
fn next_roots(projects: &[WorkspaceProject]) -> (r: Vec<String>)
    ensures
        strs_view(r@) == next_roots_spec(projects@),
{
    let mut r: Vec<String> = Vec::new();
    let n = projects.len();
    for i in 0..n
        invariant
            n == projects@.len(),
            strs_view(r@) == next_roots_spec(projects@.take(i as int)),
    {
        proof {
            assert(projects@.take(i + 1).drop_last() =~= projects@.take(i as int));
            assert(projects@.take(i + 1).last() == projects@[i as int]);
        }
        if packages_contain(&projects[i].packages, "next") {
            let mut root = project_path(&projects[i]);
            root.append("/");
            let ghost before = r@;
            r.push(root);
            proof {
                assert(strs_view(r@) =~= strs_view(before).push(root@));
            }
        }
    }
    proof {
        assert(projects@.take(n as int) =~= projects@);
    }
    r
}

/// Renders `oxlint.config.ts` for a workspace root with these packages and
/// these projects.
pub fn build_oxlint_config(packages: &Packages, projects: &[WorkspaceProject]) -> (r: String)
    ensures
        r@ == oxlint_config_text(*packages, projects@),
{
    let common_configs = common_oxlint_configs(packages, projects);
    let generated_configs = workspace_generated_configs(packages, projects);
    let override_groups = oxlint_override_groups(common_configs.as_slice(), projects);
    let imported = imported_configs(&common_configs, projects);
    let roots = next_roots(projects);
    let has_generated = generated_configs.len() > 0;
    let has_groups = override_groups.len() > 0;
    let has_roots = roots.len() > 0;

    let mut config = String::new();
    config.append("import {\n");
    config.append("  oxlintConfig,\n");
    config.append("  oxlintConfigBase,\n");
    config.append(
        if has_generated {
            "  oxlintIgnorePatterns,\n"
        } else {
            ""
        },
    );
    config.append(
        if has_groups {
            "  oxlintOverride,\n"
        } else {
            ""
        },
    );
    let imports = import_lines_text(&imported, "  ");
    config.append(imports.as_str());
    let extra = extra_import_lines_text(&generated_configs, &imported);
    config.append(extra.as_str());
    config.append("} from '@hiddenability/opinionated-defaults/oxlint';\n\n");
    config.append("export default oxlintConfig(\n");
    config.append("  [\n");
    config.append("    oxlintConfigBase,\n");
    let shared = import_lines_text(&common_configs, "    ");
    config.append(shared.as_str());
    config.append("  ],\n");
    if has_generated || has_groups || has_roots {
        let mut options = String::new();
        options.append("  {\n");
        let mut ignore = String::new();
        if has_generated {
            ignore.append("    ignorePatterns: oxlintIgnorePatterns([\n");
            let lines = generated_lines_text(&generated_configs, "      ", false);
            ignore.append(lines.as_str());
            ignore.append("    ]),\n");
        } else {
            ignore.append("");
        }
        options.append(ignore.as_str());
        let mut overrides = String::new();
        if has_groups {
            overrides.append("    overrides: [\n");
            let lines = groups_text(&override_groups);
            overrides.append(lines.as_str());
            overrides.append("    ],\n");
        } else {
            overrides.append("");
        }
        options.append(overrides.as_str());
        let mut settings = String::new();
        if has_roots {
            settings.append("    settings: {\n");
            settings.append("      next: {\n");
            settings.append("        rootDir: ");
            let json = to_json_string_array(&roots);
            settings.append(json.as_str());
            settings.append(",\n");
            settings.append("      },\n");
            settings.append("    },\n");
        } else {
            settings.append("");
        }
        options.append(settings.as_str());
        options.append("  },\n");
        config.append(options.as_str());
    } else {
        config.append("");
    }
    config.append(");\n");
    proof {
        assert(config@ =~= oxlint_config_text(*packages, projects@));
    }
    config
}

/// Renders `oxfmt.config.ts` for a workspace root with these packages and
/// these projects.
pub fn build_oxfmt_config(packages: &Packages, projects: &[WorkspaceProject]) -> (r: String)
    ensures
        r@ == oxfmt_config_text(*packages, projects@),
{
    let generated_configs = workspace_generated_configs(packages, projects);
    let lines = generated_lines_text(&generated_configs, "  ", true);
    let mut config = String::new();
    config.append("import {\n");
    config.append("  oxfmtConfig,\n");
    config.append("  oxfmtConfigBase,\n");
    config.append(lines.as_str());
    config.append("} from '@hiddenability/opinionated-defaults/oxfmt';\n\n");
    config.append("export default oxfmtConfig(\n");
    config.append("  oxfmtConfigBase,\n");
    config.append(lines.as_str());
    config.append(");\n");
    config
}

// ---------------------------------------------------------------------------
// Workspace patterns.
/// Without trailing slashes.
pub open spec fn strip_trailing_slashes(s: Seq<char>) -> Seq<char>
    decreases s.len(),
{
    if s.len() > 0 && s.last() == '/' {
        strip_trailing_slashes(s.drop_last())
    } else {
        s
    }
}

/// The glob for the manifests that a workspace pattern names: the pattern
/// trimmed, with a leading `!` kept aside, a leading `./` and trailing
/// slashes dropped, and `/package.json` appended; none for a pattern that
/// is empty once trimmed or stripped.
pub open spec fn workspace_glob_spec(pattern: Seq<char>) -> Option<Seq<char>> {
    let t = trim_spec(pattern);
    if t.len() == 0 {
        None
    } else {
        let negated = t[0] == '!';
        let a = if negated {
            t.drop_first()
        } else {
            t
        };
        let b = if a.len() >= 2 && a[0] == '.' && a[1] == '/' {
            a.skip(2)
        } else {
            a
        };
        let c = strip_trailing_slashes(b);
        if c.len() == 0 {
            None
        } else {
            Some(
                (if negated {
                    "!"@
                } else {
                    ""@
                }) + c + "/package.json"@,
            )
        }
    }
}

/// The glob that matches the `package.json` of each project that a
/// workspace pattern names.
pub fn workspace_package_glob(pattern: &str) -> (r: Option<String>)
    ensures
        match r {
            Some(g) => workspace_glob_spec(pattern@) == Some(g@),
            None => workspace_glob_spec(pattern@) is None,
        },
{
    let t = trim_whitespace(pattern);
    let n = t.unicode_len();
    if n == 0 {
        return None;
    }
    let negated = t.get_char(0) == '!';
    let mut start: usize = if negated {
        1
    } else {
        0
    };
    let ghost a = if negated {
        t@.drop_first()
    } else {
        t@
    };
    proof {
        assert(a =~= t@.subrange(start as int, n as int));
    }
    if n - start >= 2 && t.get_char(start) == '.' && t.get_char(start + 1) == '/' {
        start = start + 2;
    }
    let ghost b = if a.len() >= 2 && a[0] == '.' && a[1] == '/' {
        a.skip(2)
    } else {
        a
    };
    proof {
        assert(b =~= t@.subrange(start as int, n as int));
    }
    let mut end = n;
    while end > start && t.get_char(end - 1) == '/'
        invariant
            start <= end <= n,
            n == t@.len(),
            strip_trailing_slashes(b) == strip_trailing_slashes(
                t@.subrange(start as int, end as int),
            ),
        decreases end,
    {
        proof {
            assert(t@.subrange(start as int, end as int).drop_last() =~= t@.subrange(
                start as int,
                end - 1,
            ));
        }
        end = end - 1;
    }
    proof {
        let c = t@.subrange(start as int, end as int);
        if end > start {
            assert(c.last() == t@[end - 1]);
        }
    }
    if end == start {
        return None;
    }
    let mut glob = String::new();
    if negated {
        glob.append("!");
    } else {
        glob.append("");
    }
    glob.append(t.substring_char(start, end));
    glob.append("/package.json");
    Some(glob)
}

/// The configuration files that a project of a workspace may have of its
/// own, which the root's configuration replaces.
pub const CHILD_OX_CONFIG_FILENAMES: [&'static str; 2] = ["oxlint.config.ts", "oxfmt.config.ts"];

/// Some project lists a Solid.js framework.
pub open spec fn some_project_has_solid(projects: Seq<WorkspaceProject>) -> bool {
    exists|k: int|
        0 <= k < projects.len() && spec_has_solid(package_names((#[trigger] projects[k]).packages))
}

/// Whether the Solid.js lint plugin is needed: the root or some project
/// lists a Solid.js framework.
pub fn needs_solid_plugin(packages: &Packages, projects: &[WorkspaceProject]) -> (r: bool)
    ensures
        r == (spec_has_solid(package_names(*packages)) || some_project_has_solid(projects@)),
{
    if has_solid(packages) {
        return true;
    }
    let n = projects.len();
    for i in 0..n
        invariant
            n == projects@.len(),
            forall|k: int| 0 <= k < i ==> !spec_has_solid(package_names((#[trigger] projects@[k]).packages)),
    {
        if has_solid(&projects[i].packages) {
            return true;
        }
    }
    false
}

// ---------------------------------------------------------------------------
// Which `package.json` files of a workspace are its projects.
/// The `pnpm-workspace.yaml` file: the workspace patterns it lists.
pub struct PnpmWorkspace {
    pub packages: Vec<String>,
}

/// The workspace patterns: those of the root manifest's `workspaces` where
/// it has them, else those of `pnpm-workspace.yaml` where there is one,
/// else none.
pub fn workspace_patterns(workspaces: Option<Workspaces>, pnpm: Option<PnpmWorkspace>) -> (r: Vec<
    String,
>)
    ensures
        r@ == match workspaces {
            Some(w) => w.spec_patterns(),
            None => match pnpm {
                Some(p) => p.packages@,
                None => Seq::<String>::empty(),
            },
        },
{
    match workspaces {
        Some(Workspaces::Patterns(patterns)) => patterns,
        Some(Workspaces::Config { packages }) => packages,
        None => match pnpm {
            Some(workspace) => workspace.packages,
            None => Vec::new(),
        },
    }
}

/// Something the workspace walk found: whether it is a file, the components
/// of the directory that holds it relative to the root, its file name and
/// its full path.
pub struct WalkedEntry {
    pub is_file: bool,
    pub dir: Vec<String>,
    pub file_name: String,
    pub path: String,
}

/// The manifest globs of the patterns, in order, leaving out the patterns
/// that name nothing.
pub open spec fn workspace_globs_spec(patterns: Seq<Seq<char>>) -> Seq<Seq<char>>
    decreases patterns.len(),
{
    if patterns.len() == 0 {
        seq![]
    } else {
        let rest = workspace_globs_spec(patterns.drop_last());
        match workspace_glob_spec(patterns.last()) {
            Some(g) => rest.push(g),
            None => rest,
        }
    }
}

/// The override matcher of `ignore`, built from workspace globs.
#[verifier::external_type_specification]
#[verifier::external_body]
pub struct ExOverride(ignore::overrides::Override);

/// The directory an override matcher was built at.
pub uninterp spec fn override_root(m: ignore::overrides::Override) -> Seq<char>;

/// The globs an override matcher was built from, in the order added.
pub uninterp spec fn override_globs(m: ignore::overrides::Override) -> Seq<Seq<char>>;

/// Whether `OverrideBuilder::add` accepts the glob.
pub uninterp spec fn override_glob_accepted(glob: Seq<char>) -> bool;

/// Whether an `OverrideBuilder` at `root` with every glob added builds.
pub uninterp spec fn override_set_builds(root: Seq<char>, globs: Seq<Seq<char>>) -> bool;

/// Whether the override matcher built at `root` from `globs` takes `path`
/// as a whitelisted file.
pub uninterp spec fn workspace_glob_accepts(
    root: Seq<char>,
    globs: Seq<Seq<char>>,
    path: Seq<char>,
) -> bool;

/// `OverrideBuilder::add` on a fresh builder: whether the glob is accepted,
/// with the builder's message where it is not. Whether a glob is accepted
/// depends on the glob alone (the builder's directory plays no part in
/// `add`) and is named; globset's syntax rules are left unsaid.
#[verifier::external_body]
fn check_override_glob(glob: &str) -> (r: Result<(), String>)
    ensures
        r is Ok <==> override_glob_accepted(glob@),
{
    match ignore::overrides::OverrideBuilder::new("").add(glob) {
        Ok(_) => Ok(()),
        Err(error) => Err(error.to_string()),
    }
}

/// `OverrideBuilder::new(root)`, `add` for each glob, then `build`, with
/// the builder's message where that fails. The matcher keeps the root and
/// the globs it was made with.
#[verifier::external_body]
fn build_override(root: &str, globs: &Vec<String>) -> (r: Result<ignore::overrides::Override, String>)
    ensures
        r is Ok <==> override_set_builds(root@, strs_view(globs@)),
        r matches Ok(m) ==> override_root(m) == root@ && override_globs(m) == strs_view(globs@),
{
    let mut builder = ignore::overrides::OverrideBuilder::new(root);
    for glob in globs {
        if let Err(error) = builder.add(glob) {
            return Err(error.to_string());
        }
    }
    match builder.build() {
        Ok(matcher) => Ok(matcher),
        Err(error) => Err(error.to_string()),
    }
}

/// `Override::matched(path, false).is_whitelist()`: whether the matcher
/// takes `path` as a whitelisted file, which depends on the root and globs
/// it was built from and on the path alone, and is named.
#[verifier::external_body]
fn override_matches(matcher: &ignore::overrides::Override, path: &str) -> (r: bool)
    ensures
        r == workspace_glob_accepts(override_root(*matcher), override_globs(*matcher), path@),
{
    matcher.matched(path, false).is_whitelist()
}

/// Why no matcher could be built from the workspace patterns.
#[derive(Debug)]
pub enum WorkspaceError {
    /// The first pattern whose glob the override builder refuses, with the
    /// builder's message.
    InvalidPattern { pattern: String, cause: String },
    /// Building the matcher from the globs failed, with the builder's message.
    Matcher { cause: String },
}

/// The pattern names a glob that the override builder refuses.
pub open spec fn pattern_refused(pattern: Seq<char>) -> bool {
    match workspace_glob_spec(pattern) {
        Some(g) => !override_glob_accepted(g),
        None => false,
    }
}

/// Every pattern's glob is accepted and the matcher builds from them.
pub open spec fn workspace_patterns_valid(root: Seq<char>, patterns: Seq<Seq<char>>) -> bool {
    &&& forall|k: int| 0 <= k < patterns.len() ==> !pattern_refused(#[trigger] patterns[k])
    &&& override_set_builds(root, workspace_globs_spec(patterns))
}

/// The matcher for the workspace's projects: the override matcher at `root`
/// built from the manifest globs of the patterns. The first pattern whose
/// glob is refused is named in the error.
pub fn workspace_matcher(root: &str, patterns: &[String]) -> (r: Result<
    ignore::overrides::Override,
    WorkspaceError,
>)
    ensures
        r is Ok <==> workspace_patterns_valid(root@, strs_view(patterns@)),
        r matches Ok(m) ==> override_root(m) == root@ && override_globs(m) == workspace_globs_spec(
            strs_view(patterns@),
        ),
        r matches Err(WorkspaceError::InvalidPattern { pattern, cause }) ==> exists|k: int|
            0 <= k < patterns@.len() && pattern@ == #[trigger] strs_view(patterns@)[k]
                && pattern_refused(strs_view(patterns@)[k]) && forall|j: int|
                0 <= j < k ==> !pattern_refused(#[trigger] strs_view(patterns@)[j]),
        r matches Err(WorkspaceError::Matcher { cause }) ==> {
            &&& forall|k: int|
                0 <= k < patterns@.len() ==> !pattern_refused(#[trigger] strs_view(patterns@)[k])
            &&& !override_set_builds(root@, workspace_globs_spec(strs_view(patterns@)))
        },
{
    let ghost ps = strs_view(patterns@);
    let mut globs: Vec<String> = Vec::new();
    let n = patterns.len();
    for i in 0..n
        invariant
            n == patterns@.len(),
            ps == strs_view(patterns@),
            strs_view(globs@) == workspace_globs_spec(ps.take(i as int)),
            forall|k: int| 0 <= k < i ==> !pattern_refused(#[trigger] ps[k]),
    {
        let glob = workspace_package_glob(patterns[i].as_str());
        proof {
            assert(ps.take(i + 1).drop_last() =~= ps.take(i as int));
            assert(ps.take(i + 1).last() == patterns@[i as int]@);
            assert(ps[i as int] == patterns@[i as int]@);
        }
        match glob {
            Some(g) => {
                match check_override_glob(g.as_str()) {
                    Ok(()) => {},
                    Err(cause) => {
                        let pattern = patterns[i].clone();
                        return Err(WorkspaceError::InvalidPattern { pattern, cause });
                    },
                }
                let ghost before = globs@;
                globs.push(g);
                proof {
                    assert(strs_view(globs@) =~= strs_view(before).push(g@));
                }
            },
            None => {},
        }
    }
    proof {
        assert(ps.take(n as int) =~= ps);
    }
    match build_override(root, &globs) {
        Ok(matcher) => Ok(matcher),
        Err(cause) => Err(WorkspaceError::Matcher { cause }),
    }
}

/// The entry is a `package.json` file that the matcher takes.
pub open spec fn manifest_selected(root: Seq<char>, globs: Seq<Seq<char>>, e: WalkedEntry) -> bool {
    e.is_file && e.file_name@ == "package.json"@ && workspace_glob_accepts(root, globs, e.path@)
}

/// Entry `i` comes before entry `j`: its directory comes first in path
/// order, or the directories are equal and it was walked first.
pub open spec fn entry_before(walked: Seq<WalkedEntry>, i: int, j: int) -> bool {
    let a = strs_view(walked[i].dir@);
    let b = strs_view(walked[j].dir@);
    dirs_lt(a, b) || (a == b && i < j)
}

/// The walked entries that are projects' manifests.
pub open spec fn selected_entries(
    root: Seq<char>,
    globs: Seq<Seq<char>>,
    walked: Seq<WalkedEntry>,
    upto: int,
) -> Set<usize> {
    Set::new(|i: usize| i < upto && i < walked.len() && manifest_selected(root, globs, walked[i as int]))
}

proof fn lemma_entry_irreflexive(walked: Seq<WalkedEntry>, i: int)
    ensures
        !entry_before(walked, i, i),
{
    lemma_dirs_lt_irreflexive(strs_view(walked[i].dir@));
}

proof fn lemma_entry_before_transitive(walked: Seq<WalkedEntry>, i: int, j: int, k: int)
    requires
        entry_before(walked, i, j),
        entry_before(walked, j, k),
    ensures
        entry_before(walked, i, k),
{
    let a = strs_view(walked[i].dir@);
    let b = strs_view(walked[j].dir@);
    let c = strs_view(walked[k].dir@);
    if dirs_lt(a, b) && dirs_lt(b, c) {
        lemma_dirs_lt_transitive(a, b, c);
    }
}

/// Which walked entries are the manifests of the workspace's projects: the
/// files named `package.json` that the matcher takes, as indexes in path
/// order of their directories (walk order among equal directories).
pub fn select_workspace_manifests(
    matcher: &ignore::overrides::Override,
    walked: &Vec<WalkedEntry>,
) -> (r: Vec<usize>)
    ensures
        r@.no_duplicates(),
        forall|a: int, b: int|
            0 <= a < b < r@.len() ==> entry_before(
                walked@,
                #[trigger] r@[a] as int,
                #[trigger] r@[b] as int,
            ),
        r@.to_set() == selected_entries(
            override_root(*matcher),
            override_globs(*matcher),
            walked@,
            walked@.len() as int,
        ),
{
    let ghost root = override_root(*matcher);
    let ghost gs = override_globs(*matcher);
    let mut selected: Vec<usize> = Vec::new();
    let n = walked.len();
    for i in 0..n
        invariant
            n == walked@.len(),
            gs == override_globs(*matcher),
            root == override_root(*matcher),
            forall|k: int| 0 <= k < selected@.len() ==> #[trigger] selected@[k] < i,
            forall|a: int, b: int|
                0 <= a < b < selected@.len() ==> entry_before(
                    walked@,
                    #[trigger] selected@[a] as int,
                    #[trigger] selected@[b] as int,
                ),
            selected@.to_set() == selected_entries(root, gs, walked@, i as int),
    {
        let entry = &walked[i];
        let mut take = false;
        if entry.is_file && crate::text::str_eq(entry.file_name.as_str(), "package.json") {
            take = override_matches(matcher, entry.path.as_str());
        }
        proof {
            assert(take == manifest_selected(root, gs, walked@[i as int]));
        }
        let ghost s = selected@;
        if take {
            let mut j: usize = 0;
            while j < selected.len()
                invariant
                    j <= selected@.len(),
                    selected@ == s,
                    i < n,
                    n == walked@.len(),
                    forall|k: int| 0 <= k < j ==> !dirs_lt(
                        strs_view(walked@[i as int].dir@),
                        strs_view(walked@[#[trigger] s[k] as int].dir@),
                    ),
                    forall|k: int| 0 <= k < s.len() ==> #[trigger] s[k] < i,
                ensures
                    j <= selected@.len(),
                    selected@ == s,
                    forall|k: int| 0 <= k < j ==> !dirs_lt(
                        strs_view(walked@[i as int].dir@),
                        strs_view(walked@[#[trigger] s[k] as int].dir@),
                    ),
                    j < s.len() ==> dirs_lt(
                        strs_view(walked@[i as int].dir@),
                        strs_view(walked@[s[j as int] as int].dir@),
                    ),
                decreases selected.len() - j,
            {
                let later = dirs_less(&walked[i].dir, &walked[selected[j]].dir);
                if later {
                    break;
                }
                j = j + 1;
            }
            selected.insert(j, i);
            proof {
                let t = selected@;
                assert(t =~= s.insert(j as int, i));
                let key_i = strs_view(walked@[i as int].dir@);
                assert forall|a: int, b: int| 0 <= a < b < t.len() implies entry_before(
                    walked@,
                    #[trigger] t[a] as int,
                    #[trigger] t[b] as int,
                ) by {
                    if b < j {
                        assert(t[a] == s[a] && t[b] == s[b]);
                    } else if a < j && b == j {
                        let key_a = strs_view(walked@[s[a] as int].dir@);
                        lemma_dirs_lt_total(key_i, key_a);
                        assert(t[a] == s[a] && t[b] == i);
                    } else if a == j {
                        assert(t[a] == i && t[b] == s[b - 1]);
                        if b - 1 > j {
                            assert(entry_before(walked@, s[j as int] as int, s[b - 1] as int));
                            lemma_entry_before_transitive(
                                walked@,
                                i as int,
                                s[j as int] as int,
                                s[b - 1] as int,
                            );
                        }
                    } else if a < j {
                        assert(t[a] == s[a] && t[b] == s[b - 1]);
                        let key_a = strs_view(walked@[s[a] as int].dir@);
                        lemma_dirs_lt_total(key_i, key_a);
                        assert(entry_before(walked@, s[a] as int, i as int));
                        assert(entry_before(walked@, i as int, s[j as int] as int));
                        lemma_entry_before_transitive(walked@, s[a] as int, i as int, s[j as int] as int);
                        if b - 1 > j {
                            assert(entry_before(walked@, s[j as int] as int, s[b - 1] as int));
                            lemma_entry_before_transitive(
                                walked@,
                                s[a] as int,
                                s[j as int] as int,
                                s[b - 1] as int,
                            );
                        }
                    } else {
                        assert(t[a] == s[a - 1] && t[b] == s[b - 1]);
                    }
                }
                assert forall|x: usize| t.to_set().contains(x) <==> s.to_set().insert(i).contains(x) by {
                    if t.to_set().contains(x) {
                        let k = choose|k: int| 0 <= k < t.len() && t[k] == x;
                        if k < j {
                            assert(s[k] == x);
                        } else if k > j {
                            assert(s[k - 1] == x);
                        }
                    }
                    if s.to_set().contains(x) {
                        let k = choose|k: int| 0 <= k < s.len() && s[k] == x;
                        if k < j {
                            assert(t[k] == x);
                        } else {
                            assert(t[k + 1] == x);
                        }
                    }
                    if x == i {
                        assert(t[j as int] == x);
                    }
                }
                assert(t.to_set() =~= s.to_set().insert(i));
                assert(selected_entries(root, gs, walked@, i + 1) =~= selected_entries(
                    root,
                    gs,
                    walked@,
                    i as int,
                ).insert(i));
            }
        } else {
            proof {
                assert(selected_entries(root, gs, walked@, i + 1) =~= selected_entries(
                    root,
                    gs,
                    walked@,
                    i as int,
                ));
            }
        }
    }
    proof {
        assert forall|a: int, b: int| 0 <= a < selected@.len() && 0 <= b < selected@.len() && a != b
            implies selected@[a] != selected@[b] by {
            if a < b {
                lemma_entry_irreflexive(walked@, selected@[a] as int);
                assert(entry_before(walked@, selected@[a] as int, selected@[b] as int));
            } else {
                lemma_entry_irreflexive(walked@, selected@[b] as int);
                assert(entry_before(walked@, selected@[b] as int, selected@[a] as int));
            }
        }
    }
    selected
}

} // verus!
