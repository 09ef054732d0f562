use opinionated_defaults::dependencies::{handle_dependencies, Dependencies};
use opinionated_defaults::generate_config::formatter_command;
use opinionated_defaults::types::{
    has_solid, PackageJSON, PackageManager, Packages, Workspaces, SOLID_PLUGIN_DEPENDENCY,
};
use serde_json::Value;

fn args(manager: PackageManager) -> Vec<String> {
    manager.command(false).args
}

#[test]
fn oxlint_installs_only_the_requested_solid_plugin() {
    for manager in PackageManager::ALL {
        let plugin = if manager == PackageManager::Deno {
            format!("npm:{SOLID_PLUGIN_DEPENDENCY}")
        } else {
            SOLID_PLUGIN_DEPENDENCY.to_string()
        };
        let with_solid: Vec<_> = manager.command(true).args;
        let without_solid = args(manager);

        assert!(!without_solid.iter().any(|arg| arg == &plugin));
        assert_eq!(with_solid.iter().filter(|arg| *arg == &plugin).count(), 1);
        assert_eq!(
            with_solid
                .into_iter()
                .filter(|arg| arg != &plugin)
                .collect::<Vec<_>>(),
            without_solid
        );
    }
}

fn packages(names: &[&str]) -> Packages {
    names
        .iter()
        .map(|name| ((*name).into(), Value::String("latest".into())))
        .collect()
}

#[test]
fn lockfiles_name_their_manager() {
    for manager in PackageManager::ALL {
        assert_eq!(PackageManager::from_lockfile(manager.lockfile()), manager);
    }
    assert_eq!(PackageManager::from_lockfile("bun.lockb"), PackageManager::BunOld);
    assert_eq!(PackageManager::Npm.lockfile(), "package-lock.json");
    assert_eq!(PackageManager::Pnpm.lockfile(), "pnpm-lock.yaml");
}

#[test]
fn both_bun_variants_run_bun() {
    assert_eq!(PackageManager::Bun.cli(), "bun");
    assert_eq!(PackageManager::BunOld.cli(), "bun");
    assert_eq!(PackageManager::Yarn.cli(), "yarn");
}

#[test]
fn npm_installs_with_i_and_dev_flag() {
    let command = PackageManager::Npm.command(false);
    assert_eq!(command.program, "npm");
    assert_eq!(
        command.args,
        vec![
            "i",
            "@hiddenability/opinionated-defaults@latest",
            "oxlint@latest",
            "oxfmt@latest",
            "oxlint-tsgolint",
            "@types/node",
            "-D"
        ]
    );
}

#[test]
fn old_bun_saves_a_text_lockfile() {
    let args = PackageManager::BunOld.command(true).args;
    assert_eq!(args.first().map(String::as_str), Some("add"));
    assert_eq!(args.last().map(String::as_str), Some("--save-text-lockfile"));
    assert!(args.contains(&"-d".to_string()));
}

#[test]
fn deno_installs_npm_specifiers() {
    let command = PackageManager::Deno.command(true);
    assert_eq!(command.program, "deno");
    assert!(command.args.iter().skip(1).all(|arg| arg.starts_with("npm:")));
    assert_eq!(command.args.last().unwrap(), &format!("npm:{SOLID_PLUGIN_DEPENDENCY}"));
}

#[test]
fn formatter_runs_through_the_manager() {
    let bun = formatter_command(PackageManager::BunOld);
    assert_eq!(bun.program, "bun");
    assert_eq!(bun.args, vec!["run", "--bun", "oxfmt"]);
    let deno = formatter_command(PackageManager::Deno);
    assert_eq!(deno.args, vec!["run", "-A", "npm:oxfmt"]);
    let npm = formatter_command(PackageManager::Npm);
    assert_eq!(npm.program, "npx");
    assert_eq!(npm.args, vec!["--no-install", "oxfmt"]);
}

#[test]
fn solid_frameworks_are_detected() {
    assert!(has_solid(&packages(&["solid-js"])));
    assert!(has_solid(&packages(&["@tanstack/solid-start"])));
    assert!(!has_solid(&packages(&["react", "solid"])));
}

#[test]
fn workspace_patterns_come_from_either_form() {
    let list = Workspaces::Patterns(vec!["apps/*".to_string()]);
    assert_eq!(list.patterns(), ["apps/*".to_string()]);
    let config = Workspaces::Config {
        packages: vec!["packages/*".to_string(), "tools".to_string()],
    };
    assert_eq!(config.patterns().len(), 2);
}

#[test]
fn manifest_packages_merge_every_kind() {
    let manifest = PackageJSON {
        dependencies: packages(&["react"]),
        dev_dependencies: packages(&["typescript", "react"]),
        peer_dependencies: packages(&["next"]),
        workspaces: None,
    };
    let merged = manifest.into_packages();
    let mut keys: Vec<_> = merged.keys().cloned().collect();
    keys.sort();
    assert_eq!(keys, vec!["next", "react", "typescript"]);
}

#[test]
fn peer_entries_win_over_dev_entries_over_plain_ones() {
    let versioned = |entries: &[(&str, &str)]| -> Packages {
        entries
            .iter()
            .map(|(name, version)| (name.to_string(), Value::String(version.to_string())))
            .collect()
    };
    let manifest = PackageJSON {
        dependencies: versioned(&[("react", "1"), ("next", "1"), ("zod", "1")]),
        dev_dependencies: versioned(&[("react", "2"), ("next", "2")]),
        peer_dependencies: versioned(&[("next", "3")]),
        workspaces: None,
    };
    let merged = manifest.into_packages();
    assert_eq!(merged["zod"], "1");
    assert_eq!(merged["react"], "2");
    assert_eq!(merged["next"], "3");
}

#[test]
fn dependencies_are_sorted_and_unique() {
    let imports = handle_dependencies(Dependencies {
        packages: packages(&["next", "astro"]),
        valid_deps: vec![
            ("next".to_string(), "eslintConfigNext".to_string()),
            ("astro".to_string(), "eslintConfigAstro".to_string()),
            ("elysia".to_string(), "eslintConfigElysia".to_string()),
            ("react".to_string(), "eslintConfigBase".to_string()),
        ],
        default_deps: vec!["eslintConfigBase".to_string(), "eslintConfigBase".to_string()],
    });
    assert_eq!(
        imports,
        vec!["eslintConfigAstro", "eslintConfigBase", "eslintConfigNext"]
    );
}
