# opinionated_defaults

A command-line tool that installs `@hiddenability/opinionated-defaults` with
the project's package manager and writes `oxlint.config.ts` and
`oxfmt.config.ts` for a project or a whole workspace.

- `src/` is the library, verified with Verus:
  - `types.rs`: package managers, their lockfiles, install commands and the
    manifest types;
  - `monorepo.rs`: which shared oxlint configurations each project calls
    for, the override groups for the rest, the rendering of both
    configuration files, and which walked `package.json` files are the
    workspace's projects (matched with `ignore`'s override globs, in path
    order); `monorepo/laws.rs` proves what every project ends up with;
  - `dependencies.rs`: import lists;
  - `generate_config.rs`: the formatter command and the edit that adds the
    scripts to `package.json`;
  - `text.rs`, `packages.rs`: string order, sorting, trimming and JSON
    string arrays, and the calls into `std` and `serde_json` whose
    contracts are trusted.
- `app/` is the program around it: reading manifests and lockfiles, walking
  the workspace, running the package manager and the formatter, writing
  files.
- `tests/` runs the library on concrete workspaces.
