use vstd::prelude::*;

use crate::packages::{package_entries, package_names, packages_contain, packages_extend};
pub use crate::packages::Packages;

verus! {

/// The oxlint and oxfmt packages installed next to this one.
pub const OX_DEPENDENCIES: [&'static str; 2] = ["oxlint@latest", "oxfmt@latest"];

/// The Solid.js lint plugin, installed only for Solid projects.
pub const SOLID_PLUGIN_DEPENDENCY: &'static str = "eslint-plugin-solid@latest";

/// A JavaScript package manager, recognised by its lockfile.
#[derive(Debug, Clone, Copy, PartialEq, Eq, Structural)]
pub enum PackageManager {
    Bun,
    BunOld,
    Deno,
    Npm,
    Pnpm,
    Yarn,
}

/// How a manager's lockfile is read for its dependency map.
#[derive(Debug, Clone, Copy, PartialEq, Eq, Structural)]
pub enum LockfileFormat {
    /// JSON with comments and trailing commas, holding a `packages` map.
    Jsonc,
    /// A `package.json` manifest, whose dependency maps are merged.
    PackageJson,
    /// Plain JSON holding a `packages` map.
    Json,
}

/// A program to run and its arguments.
#[derive(Debug)]
pub struct CommandLine {
    pub program: String,
    pub args: Vec<String>,
}

impl PackageManager {
    pub const ALL: [PackageManager; 6] = [
        PackageManager::Bun,
        PackageManager::BunOld,
        PackageManager::Deno,
        PackageManager::Npm,
        PackageManager::Yarn,
        PackageManager::Pnpm,
    ];

    /// The file name of the manager's lockfile.
    pub open spec fn spec_lockfile(self) -> Seq<char> {
        match self {
            PackageManager::Bun => "bun.lock"@,
            PackageManager::BunOld => "bun.lockb"@,
            PackageManager::Deno => "deno.lock"@,
            PackageManager::Npm => "package-lock.json"@,
            PackageManager::Yarn => "yarn.lock"@,
            PackageManager::Pnpm => "pnpm-lock.yaml"@,
        }
    }

    /// The manager's command-line program.
    pub open spec fn spec_cli(self) -> Seq<char> {
        match self {
            PackageManager::Bun | PackageManager::BunOld => "bun"@,
            PackageManager::Deno => "deno"@,
            PackageManager::Npm => "npm"@,
            PackageManager::Yarn => "yarn"@,
            PackageManager::Pnpm => "pnpm"@,
        }
    }

    pub fn lockfile(self) -> (r: &'static str)
        ensures
            r@ == self.spec_lockfile(),
    {
        match self {
            PackageManager::Bun => "bun.lock",
            PackageManager::BunOld => "bun.lockb",
            PackageManager::Deno => "deno.lock",
            PackageManager::Npm => "package-lock.json",
            PackageManager::Yarn => "yarn.lock",
            PackageManager::Pnpm => "pnpm-lock.yaml",
        }
    }

    /// How this manager's lockfile is read; `None` for the managers whose
    /// lockfiles cannot be read.
    pub fn lockfile_format(self) -> (r: Option<LockfileFormat>)
        ensures
            r == match self {
                PackageManager::Bun => Some(LockfileFormat::Jsonc),
                PackageManager::BunOld => Some(LockfileFormat::PackageJson),
                PackageManager::Npm => Some(LockfileFormat::Json),
                _ => None::<LockfileFormat>,
            },
    {
        match self {
            PackageManager::Bun => Some(LockfileFormat::Jsonc),
            PackageManager::BunOld => Some(LockfileFormat::PackageJson),
            PackageManager::Npm => Some(LockfileFormat::Json),
            PackageManager::Deno | PackageManager::Yarn | PackageManager::Pnpm => None,
        }
    }

    pub fn cli(self) -> (r: &'static str)
        ensures
            r@ == self.spec_cli(),
    {
        match self {
            PackageManager::Bun | PackageManager::BunOld => "bun",
            PackageManager::Deno => "deno",
            PackageManager::Npm => "npm",
            PackageManager::Yarn => "yarn",
            PackageManager::Pnpm => "pnpm",
        }
    }
}

/// The manager whose lockfile carries this file name, if any.
pub open spec fn is_lockfile_name(name: Seq<char>) -> bool {
    exists|m: PackageManager| m.spec_lockfile() == name
}

/// The arguments of the install command, for the case with or without the
/// Solid.js plugin.
pub open spec fn install_args(m: PackageManager, solid: bool) -> Seq<Seq<char>> {
    if m == PackageManager::Deno {
        seq![
            "add"@,
            "npm:@hiddenability/opinionated-defaults@latest"@,
            "npm:"@ + OX_DEPENDENCIES@[0]@,
            "npm:"@ + OX_DEPENDENCIES@[1]@,
            "npm:oxlint-tsgolint"@,
            "npm:@types/node"@,
        ] + (if solid {
            seq!["npm:"@ + SOLID_PLUGIN_DEPENDENCY@]
        } else {
            seq![]
        })
    } else {
        let subcommand = if m == PackageManager::Npm {
            "i"@
        } else {
            "add"@
        };
        let dev_flag = if m == PackageManager::Npm {
            "-D"@
        } else if m == PackageManager::Bun || m == PackageManager::BunOld {
            "-d"@
        } else {
            "-D"@
        };
        seq![
            subcommand,
            "@hiddenability/opinionated-defaults@latest"@,
            OX_DEPENDENCIES@[0]@,
            OX_DEPENDENCIES@[1]@,
            "oxlint-tsgolint"@,
        ] + (if solid {
            seq![SOLID_PLUGIN_DEPENDENCY@]
        } else {
            seq![]
        }) + seq!["@types/node"@, dev_flag] + (if m == PackageManager::BunOld {
            seq!["--save-text-lockfile"@]
        } else {
            seq![]
        })
    }
}

/// The argument that installs the Solid.js plugin with this manager.
pub open spec fn solid_plugin_arg(m: PackageManager) -> Seq<char> {
    if m == PackageManager::Deno {
        "npm:"@ + SOLID_PLUGIN_DEPENDENCY@
    } else {
        SOLID_PLUGIN_DEPENDENCY@
    }
}

pub(crate) fn push_arg(args: &mut Vec<String>, arg: &str)
    ensures
        crate::text::strs_view(final(args)@) == crate::text::strs_view(old(args)@).push(arg@),
{
    let s = String::from_str(arg);
    args.push(s);
    proof {
        assert(crate::text::strs_view(args@) =~= crate::text::strs_view(old(args)@).push(arg@));
    }
}

fn push_npm_arg(args: &mut Vec<String>, arg: &str)
    ensures
        crate::text::strs_view(final(args)@) == crate::text::strs_view(old(args)@).push(
            "npm:"@ + arg@,
        ),
{
    let mut s = String::from_str("npm:");
    s.append(arg);
    args.push(s);
    proof {
        assert(crate::text::strs_view(args@) =~= crate::text::strs_view(old(args)@).push(
            "npm:"@ + arg@,
        ));
    }
}

impl PackageManager {
    /// The manager whose lockfile has this name.
    pub fn from_lockfile(lockfile_path: &str) -> (r: Self)
        requires
            is_lockfile_name(lockfile_path@),
        ensures
            r.spec_lockfile() == lockfile_path@,
    {
        if crate::text::str_eq(lockfile_path, "bun.lock") {
            PackageManager::Bun
        } else if crate::text::str_eq(lockfile_path, "bun.lockb") {
            PackageManager::BunOld
        } else if crate::text::str_eq(lockfile_path, "deno.lock") {
            PackageManager::Deno
        } else if crate::text::str_eq(lockfile_path, "package-lock.json") {
            PackageManager::Npm
        } else if crate::text::str_eq(lockfile_path, "yarn.lock") {
            PackageManager::Yarn
        } else {
            proof {
                let m = choose|m: PackageManager| m.spec_lockfile() == lockfile_path@;
                assert(m == PackageManager::Pnpm);
            }
            PackageManager::Pnpm
        }
    }

    /// The command that installs this package, the ox tools, the Node.js
    /// types and, when `solid`, the Solid.js lint plugin as development
    /// dependencies.
    pub fn command(self, solid: bool) -> (r: CommandLine)
        ensures
            r.program@ == self.spec_cli(),
            crate::text::strs_view(r.args@) == install_args(self, solid),
    {
        let program = String::from_str(self.cli());
        let mut args: Vec<String> = Vec::new();
        if self == PackageManager::Deno {
            push_arg(&mut args, "add");
            push_arg(&mut args, "npm:@hiddenability/opinionated-defaults@latest");
            push_npm_arg(&mut args, OX_DEPENDENCIES[0]);
            push_npm_arg(&mut args, OX_DEPENDENCIES[1]);
            push_arg(&mut args, "npm:oxlint-tsgolint");
            push_arg(&mut args, "npm:@types/node");
            if solid {
                push_npm_arg(&mut args, SOLID_PLUGIN_DEPENDENCY);
            }
            proof {
                assert(crate::text::strs_view(args@) =~= install_args(self, solid));
            }
            return CommandLine { program, args };
        }
        let (subcommand, dev_flag) = match self {
            PackageManager::Npm => ("i", "-D"),
            PackageManager::Bun | PackageManager::BunOld => ("add", "-d"),
            _ => ("add", "-D"),
        };
        push_arg(&mut args, subcommand);
        push_arg(&mut args, "@hiddenability/opinionated-defaults@latest");
        push_arg(&mut args, OX_DEPENDENCIES[0]);
        push_arg(&mut args, OX_DEPENDENCIES[1]);
        push_arg(&mut args, "oxlint-tsgolint");
        if solid {
            push_arg(&mut args, SOLID_PLUGIN_DEPENDENCY);
        }
        push_arg(&mut args, "@types/node");
        push_arg(&mut args, dev_flag);
        if self == PackageManager::BunOld {
            push_arg(&mut args, "--save-text-lockfile");
        }
        proof {
            assert(crate::text::strs_view(args@) =~= install_args(self, solid));
        }
        CommandLine { program, args }
    }
}

/// Whether the packages name a Solid.js framework.
pub open spec fn spec_has_solid(names: Set<Seq<char>>) -> bool {
    names.contains("solid-js"@) || names.contains("@solidjs/start"@) || names.contains(
        "@tanstack/solid-start"@,
    )
}

/// True when the map lists `solid-js`, `@solidjs/start` or `@tanstack/solid-start`.
pub fn has_solid(packages: &Packages) -> (r: bool)
    ensures
        r == spec_has_solid(package_names(*packages)),
{
    packages_contain(packages, "solid-js") || packages_contain(packages, "@solidjs/start")
        || packages_contain(packages, "@tanstack/solid-start")
}

/// A lockfile's dependency map.
pub struct JSONLockfile {
    pub packages: Packages,
}

/// The `workspaces` field of a `package.json`: a list of patterns, or an
/// object with a `packages` list.
#[derive(Debug)]
pub enum Workspaces {
    Patterns(Vec<String>),
    Config { packages: Vec<String> },
}

impl Workspaces {
    pub open spec fn spec_patterns(&self) -> Seq<String> {
        match self {
            Workspaces::Patterns(patterns) => patterns@,
            Workspaces::Config { packages } => packages@,
        }
    }

    /// The workspace patterns, whichever form they were written in.
    pub fn patterns(&self) -> (r: &[String])
        ensures
            r@ == self.spec_patterns(),
    {
        match self {
            Workspaces::Patterns(patterns) => patterns.as_slice(),
            Workspaces::Config { packages } => packages.as_slice(),
        }
    }
}

/// The parts of a `package.json` that this tool reads.
pub struct PackageJSON {
    pub dependencies: Packages,
    pub dev_dependencies: Packages,
    pub peer_dependencies: Packages,
    pub workspaces: Option<Workspaces>,
}

impl PackageJSON {
    /// Every package the manifest lists, of whatever kind. For a package
    /// listed more than once, the peer entry wins over the dev entry, which
    /// wins over the plain one.
    pub fn into_packages(self) -> (r: Packages)
        ensures
            package_entries(r) == package_entries(self.dependencies).union_prefer_right(
                package_entries(self.dev_dependencies),
            ).union_prefer_right(package_entries(self.peer_dependencies)),
            package_names(r) == package_names(self.dependencies).union(
                package_names(self.dev_dependencies),
            ).union(package_names(self.peer_dependencies)),
    {
        let PackageJSON { dependencies, dev_dependencies, peer_dependencies, workspaces: _ } =
            self;
        let mut packages = dependencies;
        packages_extend(&mut packages, dev_dependencies);
        packages_extend(&mut packages, peer_dependencies);
        proof {
            let a = package_entries(self.dependencies);
            let b = package_entries(self.dev_dependencies);
            let c = package_entries(self.peer_dependencies);
            assert(a.union_prefer_right(b).union_prefer_right(c).dom() =~= a.dom().union(
                b.dom(),
            ).union(c.dom()));
        }
        packages
    }
}

/// A project's packages and the manager it uses.
pub struct ProjectData {
    pub packages: Packages,
    pub manager: PackageManager,
}

/// Law: different package managers have different lockfiles, so a lockfile
/// name picks out one manager, and `from_lockfile` undoes `lockfile`.
pub proof fn law_lockfile_names_distinct(a: PackageManager, b: PackageManager)
    ensures
        a.spec_lockfile() == b.spec_lockfile() ==> a == b,
{
    reveal_strlit("bun.lock");
    reveal_strlit("bun.lockb");
    reveal_strlit("deno.lock");
    reveal_strlit("package-lock.json");
    reveal_strlit("yarn.lock");
    reveal_strlit("pnpm-lock.yaml");
    if a.spec_lockfile() == b.spec_lockfile() && a != b {
        let x = a.spec_lockfile();
        let y = b.spec_lockfile();
        assert(x.len() == y.len());
        assert(x[0] == y[0]);
        assert(x[x.len() - 1] == y[y.len() - 1]);
        assert(x[4] == y[4]);
    }
}

/// Law: the install command names the Solid.js plugin exactly when asked
/// to: without it the plugin is absent, and with it the arguments are the
/// same with the plugin inserted once.
pub proof fn law_solid_plugin_only_when_requested(m: PackageManager)
    ensures
        !install_args(m, false).contains(solid_plugin_arg(m)),
        exists|j: int|
            0 <= j <= install_args(m, false).len() && install_args(m, true) == install_args(
                m,
                false,
            ).insert(j, solid_plugin_arg(m)),
{
    reveal_strlit("eslint-plugin-solid@latest");
    reveal_strlit("oxlint@latest");
    reveal_strlit("oxfmt@latest");
    reveal_strlit("npm:");
    reveal_strlit("add");
    reveal_strlit("i");
    reveal_strlit("-D");
    reveal_strlit("-d");
    reveal_strlit("npm:@hiddenability/opinionated-defaults@latest");
    reveal_strlit("@hiddenability/opinionated-defaults@latest");
    reveal_strlit("npm:oxlint-tsgolint");
    reveal_strlit("oxlint-tsgolint");
    reveal_strlit("npm:@types/node");
    reveal_strlit("@types/node");
    reveal_strlit("--save-text-lockfile");
    let without = install_args(m, false);
    let with = install_args(m, true);
    let plugin = solid_plugin_arg(m);
    assert forall|k: int| 0 <= k < without.len() implies without[k] != plugin by {
        if without[k].len() == plugin.len() {
            let w = without[k];
            if m == PackageManager::Deno {
                assert(w[4] != plugin[4] || w[5] != plugin[5] || w[12] != plugin[12]);
            } else {
                assert(w[0] != plugin[0] || w[1] != plugin[1] || w[8] != plugin[8]);
            }
        }
    }
    if m == PackageManager::Deno {
        assert(with =~= without.insert(6, plugin));
    } else {
        assert(with =~= without.insert(5, plugin));
    }
}

/// The flag with which a manager installs development dependencies: `-d`
/// for bun, `-D` for npm, pnpm and yarn; Deno has none.
pub open spec fn dev_flag_of(m: PackageManager) -> Option<Seq<char>> {
    match m {
        PackageManager::Bun | PackageManager::BunOld => Some("-d"@),
        PackageManager::Npm | PackageManager::Pnpm | PackageManager::Yarn => Some("-D"@),
        PackageManager::Deno => None,
    }
}

/// Law: every manager but Deno installs the packages as development
/// dependencies: its development flag stands in the install arguments right
/// after `@types/node`, with or without the Solid.js plugin.
pub proof fn law_install_is_a_dev_install(m: PackageManager, solid: bool)
    requires
        m != PackageManager::Deno,
    ensures
        exists|i: int|
            0 <= i && i + 1 < install_args(m, solid).len() && #[trigger] install_args(m, solid)[i]
                == "@types/node"@ && Some(install_args(m, solid)[i + 1]) == dev_flag_of(m),
{
    let args = install_args(m, solid);
    let i: int = if solid {
        6
    } else {
        5
    };
    assert(args[i] == "@types/node"@);
    assert(Some(args[i + 1]) == dev_flag_of(m));
}

} // verus!
