use opinionated_defaults::generate_config::{ox_scripts, with_ox_scripts};
use opinionated_defaults::monorepo::{
    select_workspace_manifests, workspace_matcher, workspace_patterns, PnpmWorkspace, WalkedEntry,
    WorkspaceError,
};
use opinionated_defaults::types::{LockfileFormat, PackageManager, Workspaces};
use serde_json::Value;

fn select(patterns: &[&str], walked: &Vec<WalkedEntry>) -> Result<Vec<usize>, WorkspaceError> {
    let patterns: Vec<String> = patterns.iter().map(|pattern| pattern.to_string()).collect();
    let matcher = workspace_matcher("/repo", &patterns)?;
    Ok(select_workspace_manifests(&matcher, walked))
}

fn entry(is_file: bool, dir: &[&str], file_name: &str) -> WalkedEntry {
    let mut path = String::from("/repo");
    for component in dir {
        path.push('/');
        path.push_str(component);
    }
    path.push('/');
    path.push_str(file_name);
    WalkedEntry {
        is_file,
        dir: dir.iter().map(|component| component.to_string()).collect(),
        file_name: file_name.to_string(),
        path,
    }
}

fn selected_dirs(walked: &[WalkedEntry], selected: &[usize]) -> Vec<String> {
    selected.iter().map(|&index| walked[index].dir.join("/")).collect()
}

// The walk and the reading of each manifest are file I/O around the
// library, so this runs on the entries a walk of the same workspace gives
// and checks which manifests are taken; the packages each one lists come
// from reading the files, which is not the library's part.
#[test]
fn monorepo_discovers_declared_projects_from_package_manifests_only() {
    let walked = vec![
        entry(true, &[], "package.json"),
        entry(false, &[], "apps"),
        entry(false, &["apps"], "nexus"),
        entry(true, &["apps", "nexus"], "package.json"),
        entry(false, &["apps"], "api"),
        entry(true, &["apps", "api"], "oxlint.config.ts"),
        entry(true, &["apps", "api"], "package.json"),
        entry(false, &[], "examples"),
        entry(false, &["examples"], "demo"),
        entry(true, &["examples", "demo"], "package.json"),
    ];
    let selected = select(&["apps/*"], &walked).expect("workspace projects should be discovered");

    assert_eq!(selected_dirs(&walked, &selected), ["apps/api", "apps/nexus"]);
}

#[test]
fn patterns_naming_nothing_select_no_projects() {
    let walked = vec![entry(true, &["apps", "api"], "package.json")];
    assert_eq!(select(&["  ", "./"], &walked).expect("no globs"), Vec::<usize>::new());
}

#[test]
fn directory_named_package_json_is_not_a_manifest() {
    let walked = vec![
        entry(false, &["apps", "web"], "package.json"),
        entry(true, &["apps", "web"], "package.json"),
    ];
    assert_eq!(select(&["apps/*"], &walked).expect("patterns are valid"), vec![1]);
}

#[test]
fn projects_come_in_path_order_of_their_components() {
    let walked = vec![
        entry(true, &["packages", "b-c"], "package.json"),
        entry(true, &["packages", "b", "c"], "package.json"),
        entry(true, &["packages", "b"], "package.json"),
        entry(true, &["packages", "a"], "package.json"),
    ];
    let selected = select(&["packages/**"], &walked).expect("patterns are valid");
    assert_eq!(
        selected_dirs(&walked, &selected),
        ["packages/a", "packages/b", "packages/b/c", "packages/b-c"]
    );
}

#[test]
fn negated_pattern_leaves_projects_out() {
    let walked = vec![
        entry(true, &["apps", "web"], "package.json"),
        entry(true, &["apps", "legacy"], "package.json"),
    ];
    let selected = select(&["apps/*", "!apps/legacy"], &walked).expect("patterns are valid");
    assert_eq!(selected_dirs(&walked, &selected), ["apps/web"]);
}

#[test]
fn invalid_workspace_pattern_is_named_in_the_error() {
    let walked = vec![entry(true, &["apps", "web"], "package.json")];
    match select(&["apps/*", " apps/{web ", "apps/[x"], &walked) {
        Err(WorkspaceError::InvalidPattern { pattern, cause }) => {
            assert_eq!(pattern, " apps/{web ");
            assert!(!cause.is_empty());
        }
        other => panic!("expected the pattern to be refused, got {other:?}"),
    }
}

#[test]
fn manifest_workspaces_come_before_the_pnpm_file() {
    let pnpm = || {
        Some(PnpmWorkspace {
            packages: vec!["packages/*".to_string()],
        })
    };
    assert_eq!(
        workspace_patterns(Some(Workspaces::Patterns(vec!["apps/*".to_string()])), pnpm()),
        ["apps/*"]
    );
    assert_eq!(
        workspace_patterns(
            Some(Workspaces::Config {
                packages: vec!["libs/*".to_string()]
            }),
            pnpm()
        ),
        ["libs/*"]
    );
    assert_eq!(workspace_patterns(None, pnpm()), ["packages/*"]);
    assert!(workspace_patterns(None, None).is_empty());
}

fn scripts_of(text: &str) -> Value {
    let doc: Value = serde_json::from_str(text).expect("output is JSON");
    doc["scripts"].clone()
}

#[test]
fn scripts_are_added_to_an_existing_scripts_object() {
    let text = with_ox_scripts(
        r#"{"name":"app","scripts":{"build":"tsc","lint":"eslint ."}}"#,
        &ox_scripts(),
    )
    .expect("package.json is JSON");
    assert!(text.ends_with("}\n"));
    let doc: Value = serde_json::from_str(&text).expect("output is JSON");
    assert_eq!(doc["name"], "app");
    let scripts = scripts_of(&text);
    assert_eq!(scripts["build"], "tsc");
    assert_eq!(scripts["lint"], "oxlint");
    assert_eq!(scripts["lint:fix"], "oxlint --fix");
    assert_eq!(scripts["format"], "oxfmt .");
    assert_eq!(scripts["format:check"], "oxfmt --check .");
}

#[test]
fn scripts_object_is_created_when_missing() {
    let text = with_ox_scripts(r#"{"name":"app"}"#, &[("lint", "oxlint")])
        .expect("package.json is JSON");
    assert_eq!(
        text,
        "{\n  \"name\": \"app\",\n  \"scripts\": {\n    \"lint\": \"oxlint\"\n  }\n}\n"
    );
}

#[test]
fn scripts_member_that_is_not_an_object_is_replaced() {
    let text = with_ox_scripts(r#"{"scripts":"none"}"#, &[("format", "oxfmt .")])
        .expect("package.json is JSON");
    assert_eq!(scripts_of(&text)["format"], "oxfmt .");
}

#[test]
fn scripts_that_are_not_strings_are_kept() {
    let text = with_ox_scripts(r#"{"scripts":{"test":5,"lint":false}}"#, &ox_scripts())
        .expect("package.json is JSON");
    assert_eq!(scripts_of(&text)["test"], 5);
    assert_eq!(scripts_of(&text)["lint"], "oxlint");
}

#[test]
fn adding_the_scripts_again_changes_nothing() {
    let once = with_ox_scripts(r#"{"name":"app","scripts":{"dev":"vite"}}"#, &ox_scripts())
        .expect("package.json is JSON");
    let twice = with_ox_scripts(&once, &ox_scripts()).expect("output is JSON");
    assert_eq!(once, twice);
}

#[test]
fn later_script_of_the_same_name_wins() {
    let text = with_ox_scripts(r#"{}"#, &[("lint", "first"), ("lint", "second")])
        .expect("package.json is JSON");
    assert_eq!(scripts_of(&text)["lint"], "second");
}

#[test]
fn document_that_is_not_an_object_is_left_as_it_is() {
    let text = with_ox_scripts("[1, 2]", &ox_scripts()).expect("package.json is JSON");
    assert_eq!(text, "[\n  1,\n  2\n]\n");
}

#[test]
fn text_that_is_not_json_is_refused() {
    assert!(with_ox_scripts("{\"name\":", &ox_scripts()).is_err());
}

#[test]
fn lockfile_formats_follow_the_manager() {
    assert_eq!(PackageManager::Bun.lockfile_format(), Some(LockfileFormat::Jsonc));
    assert_eq!(
        PackageManager::BunOld.lockfile_format(),
        Some(LockfileFormat::PackageJson)
    );
    assert_eq!(PackageManager::Npm.lockfile_format(), Some(LockfileFormat::Json));
    assert_eq!(PackageManager::Deno.lockfile_format(), None);
    assert_eq!(PackageManager::Pnpm.lockfile_format(), None);
    assert_eq!(PackageManager::Yarn.lockfile_format(), None);
}
