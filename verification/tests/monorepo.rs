use opinionated_defaults::monorepo::{
    build_oxfmt_config, build_oxlint_config, common_oxlint_configs, needs_solid_plugin,
    oxlint_override_groups, workspace_generated_configs, workspace_package_glob, GeneratedConfig,
    OxlintConfig, WorkspaceProject,
};
use opinionated_defaults::types::Packages;
use serde_json::Value;

fn packages(names: &[&str]) -> Packages {
    names
        .iter()
        .map(|name| ((*name).into(), Value::String("latest".into())))
        .collect()
}

fn project(path: &str, package_names: &[&str]) -> WorkspaceProject {
    WorkspaceProject {
        path: path.to_string(),
        packages: packages(package_names),
    }
}

#[test]
fn groups_each_config_by_all_matching_projects() {
    let projects = [
        project("apps/api", &["elysia"]),
        project("apps/admin", &["react"]),
        project("apps/nexus", &["next"]),
        project("apps/web", &["react"]),
    ];

    let config = build_oxlint_config(&packages(&["turbo"]), &projects);

    assert!(config.contains("oxlintConfigReact"));
    assert!(config.contains("oxlintConfigNext"));
    assert!(config.contains("oxlintOverride("));
    assert!(config.contains(r#"["apps/admin/**/*","apps/nexus/**/*","apps/web/**/*"],"#));
    assert!(config.contains(r#"["apps/nexus/**/*"],"#));
    assert!(config.contains("[oxlintConfigReact],"));
    assert!(config.contains("[oxlintConfigNext],"));
    let react_override = config
        .find("[oxlintConfigReact],")
        .expect("React override should be rendered");
    let next_override = config
        .find("[oxlintConfigNext],")
        .expect("Next.js override should be rendered");
    assert!(react_override < next_override);
    assert!(config.contains("ignorePatterns: oxlintIgnorePatterns(["));
    assert!(config.contains(r#"rootDir: ["apps/nexus/"]"#));
    assert!(!config.contains("sharedConfig"));
    assert!(!config.contains("..."));
    assert!(!config.contains("plugins: ["));
    assert!(!config.contains("rules: {"));
}

#[test]
fn coalesces_configs_with_identical_project_membership() {
    let projects = [
        project("apps/gh-webhook-handler", &["elysia"]),
        project("apps/nexus", &["next"]),
        project("packages/db", &["drizzle-orm"]),
        project("packages/indexer", &["drizzle-orm"]),
    ];

    let config = build_oxlint_config(&packages(&["turbo"]), &projects);

    assert_eq!(config.matches("oxlintOverride(").count(), 1);
    assert!(config.contains(r#"["apps/nexus/**/*"],"#));
    assert!(config.contains("[oxlintConfigReact, oxlintConfigNext],"));
}

#[test]
fn promotes_framework_config_shared_by_every_project() {
    let projects = [
        project("apps/admin", &["react"]),
        project("apps/start", &["@tanstack/react-start"]),
    ];

    let config = build_oxlint_config(&packages(&["turbo"]), &projects);

    assert!(config.contains("    oxlintConfigReact,\n  ],\n  {"));
    assert!(config.contains("ignorePatterns: oxlintIgnorePatterns(["));
    assert!(!config.contains("overrides:"));
    assert!(!config.contains("sharedConfig"));
    assert!(!config.contains("..."));
}

#[test]
fn passes_multiple_shared_configs_as_an_ordered_array() {
    let projects = [
        project("apps/admin", &["react"]),
        project("apps/nexus", &["next"]),
    ];

    let config = build_oxlint_config(&packages(&["turbo"]), &projects);

    assert!(config.contains("    oxlintConfigBase,\n    oxlintConfigReact,\n  ],"));
    assert!(config.contains("[oxlintConfigNext],"));
    assert!(!config.contains("[oxlintConfigBase,"));
    assert!(!config.contains("sharedConfig"));
}

#[test]
fn renders_formatter_from_detected_npm_config_fragments() {
    let projects = [
        project("apps/nexus", &["next"]),
        project("apps/start", &["@tanstack/solid-start"]),
    ];

    let config = build_oxfmt_config(&packages(&["turbo"]), &projects);

    assert!(config.contains("oxfmtConfigBase"));
    assert!(config.contains("oxfmtConfigNext"));
    assert!(config.contains("oxfmtConfigTanstackStart"));
}

#[test]
fn oxlint_config_for_a_plain_project_is_exact() {
    let config = build_oxlint_config(&packages(&["react"]), &[]);
    assert_eq!(
        config,
        "import {\n  oxlintConfig,\n  oxlintConfigBase,\n  oxlintConfigReact,\n} from '@hiddenability/opinionated-defaults/oxlint';\n\nexport default oxlintConfig(\n  [\n    oxlintConfigBase,\n    oxlintConfigReact,\n  ],\n);\n"
    );
}

#[test]
fn oxlint_config_for_a_next_project_is_exact() {
    let config = build_oxlint_config(&packages(&["next"]), &[]);
    assert_eq!(
        config,
        "import {\n  oxlintConfig,\n  oxlintConfigBase,\n  oxlintIgnorePatterns,\n  oxlintConfigReact,\n  oxlintConfigNext,\n} from '@hiddenability/opinionated-defaults/oxlint';\n\nexport default oxlintConfig(\n  [\n    oxlintConfigBase,\n    oxlintConfigReact,\n    oxlintConfigNext,\n  ],\n  {\n    ignorePatterns: oxlintIgnorePatterns([\n      oxlintConfigNext,\n    ]),\n  },\n);\n"
    );
}

#[test]
fn oxlint_config_imports_tanstack_start_once() {
    let config = build_oxlint_config(&packages(&["@tanstack/react-start"]), &[]);
    assert_eq!(config.matches("  oxlintConfigTanstackStart,\n").count(), 2);
    assert!(config.contains("  oxlintConfigReact,\n  oxlintConfigTanstackStart,\n}"));
}

#[test]
fn oxfmt_config_without_frameworks_is_exact() {
    let config = build_oxfmt_config(&Packages::new(), &[]);
    assert_eq!(
        config,
        "import {\n  oxfmtConfig,\n  oxfmtConfigBase,\n} from '@hiddenability/opinionated-defaults/oxfmt';\n\nexport default oxfmtConfig(\n  oxfmtConfigBase,\n);\n"
    );
}

#[test]
fn shared_configs_are_the_longest_common_prefix() {
    let none = common_oxlint_configs(&packages(&["next"]), &[]);
    assert_eq!(none, vec![OxlintConfig::React, OxlintConfig::Next]);
    let projects = [project("a", &["next"]), project("b", &["react"])];
    assert_eq!(
        common_oxlint_configs(&Packages::new(), &projects),
        vec![OxlintConfig::React]
    );
    let projects = [project("a", &["next"]), project("b", &["elysia"])];
    assert_eq!(common_oxlint_configs(&Packages::new(), &projects), vec![]);
}

#[test]
fn override_groups_nest_react_then_next() {
    let projects = [
        project("z", &["react"]),
        project("a", &["next"]),
        project("m", &["vue"]),
    ];
    let groups = oxlint_override_groups(&[], &projects);
    assert_eq!(groups.len(), 2);
    assert_eq!(groups[0].configs, vec![OxlintConfig::React]);
    assert_eq!(groups[0].files, vec!["a/**/*".to_string(), "z/**/*".to_string()]);
    assert_eq!(groups[1].configs, vec![OxlintConfig::Next]);
    assert_eq!(groups[1].files, vec!["a/**/*".to_string()]);
}

#[test]
fn override_groups_use_forward_slashes() {
    let projects = [project("apps\\web", &["react"]), project("apps\\api", &[])];
    let groups = oxlint_override_groups(&[], &projects);
    assert_eq!(groups.len(), 1);
    assert_eq!(groups[0].files, vec!["apps/web/**/*".to_string()]);
}

#[test]
fn generated_configs_are_ordered_and_unique() {
    let projects = [
        project("a", &["@tanstack/solid-start"]),
        project("b", &["next"]),
        project("c", &["next"]),
    ];
    assert_eq!(
        workspace_generated_configs(&Packages::new(), &projects),
        vec![GeneratedConfig::Next, GeneratedConfig::TanstackStart]
    );
    assert_eq!(workspace_generated_configs(&Packages::new(), &[]), vec![]);
}

#[test]
fn workspace_globs_strip_prefixes_and_slashes() {
    assert_eq!(
        workspace_package_glob("apps/*"),
        Some("apps/*/package.json".to_string())
    );
    assert_eq!(
        workspace_package_glob("  ./packages/*//  "),
        Some("packages/*/package.json".to_string())
    );
    assert_eq!(
        workspace_package_glob("!./apps/legacy"),
        Some("!apps/legacy/package.json".to_string())
    );
    assert_eq!(workspace_package_glob("   "), None);
    assert_eq!(workspace_package_glob("./"), None);
    assert_eq!(workspace_package_glob("!/"), None);
}

#[test]
fn solid_plugin_is_needed_by_root_or_any_project() {
    assert!(needs_solid_plugin(&packages(&["solid-js"]), &[]));
    assert!(needs_solid_plugin(
        &Packages::new(),
        &[project("a", &["react"]), project("b", &["@solidjs/start"])]
    ));
    assert!(!needs_solid_plugin(
        &packages(&["react"]),
        &[project("a", &["next"])]
    ));
}

fn configs_of(groups: &[opinionated_defaults::monorepo::OxlintOverrideGroup], file: &str) -> Vec<OxlintConfig> {
    groups
        .iter()
        .filter(|group| group.files.iter().any(|f| f == file))
        .flat_map(|group| group.configs.iter().copied())
        .collect()
}

#[test]
fn every_project_gets_exactly_its_configs() {
    let projects = [
        project("apps/api", &["elysia"]),
        project("apps/admin", &["react"]),
        project("apps/nexus", &["next"]),
        project("apps/start", &["@tanstack/react-start"]),
    ];
    let root = packages(&["turbo"]);
    let common = common_oxlint_configs(&root, &projects);
    let groups = oxlint_override_groups(&common, &projects);
    for p in &projects {
        let mut got = common.clone();
        got.extend(configs_of(&groups, &format!("{}/**/*", p.path)));
        assert_eq!(got, opinionated_defaults::monorepo::oxlint_configs(&p.packages));
    }
}

#[test]
fn override_groups_never_repeat_a_file_set() {
    let projects = [
        project("a", &["next"]),
        project("b", &["next"]),
        project("c", &["react"]),
        project("d", &[]),
    ];
    let groups = oxlint_override_groups(&[], &projects);
    for (i, g) in groups.iter().enumerate() {
        let mut sorted = g.files.clone();
        sorted.sort();
        assert_eq!(sorted, g.files);
        for h in groups.iter().skip(i + 1) {
            assert_ne!(g.files, h.files);
        }
    }
}

#[test]
fn project_paths_are_escaped_as_json_strings() {
    let projects = [
        project("apps/api", &["elysia"]),
        project("apps/say \"hi\"", &["next"]),
    ];

    let config = build_oxlint_config(&packages(&["turbo"]), &projects);

    assert!(config.contains(r#"rootDir: ["apps/say \"hi\"/"]"#));
    assert!(config.contains(r#"["apps/say \"hi\"/**/*"],"#));
}

#[test]
fn control_characters_in_project_paths_are_escaped() {
    let projects = [project("apps/tab\there", &["next"])];

    let config = build_oxlint_config(&packages(&["turbo"]), &projects);

    assert!(config.contains(r#"rootDir: ["apps/tab\there/"]"#));
}
