# requiem-core

A library for managing requirements kept as markdown files with YAML
frontmatter, and a `req` command line around it. Each requirement has a
stable UUID and a human-readable ID (HRID) such as `CORE-USR-001`, and links
to the parents it satisfies; a link remembers the parent's content
fingerprint so that a changed parent shows up as a suspect link until the
link is reviewed.

The library is written in Verus and proved against its contracts.

## Layout

- `src/` — the verified library.
  - `hrid.rs`, `paths.rs`: HRIDs, how they are shown and parsed, and where a
    requirement's file lives.
  - `requirement.rs`, `fingerprint.rs`, `markdown.rs`: a requirement, its
    fingerprint, and the markdown document it is stored as.
  - `graph.rs`, `tree.rs`: the requirement graph (over `petgraph`), links,
    suspect links and cycle detection.
  - `directory.rs`: a store of requirements, its edits and what is pending
    for the disk.
  - `config.rs`: the store's configuration.
  - `listing.rs`, `rows.rs`, `render.rs`, `list.rs`: the `list` command's
    filters, relationship views and output formats.
  - `review.rs`, `validation.rs`: suspect-link review and health checks.
  - `summary.rs`: the mdBook summary export.
  - `mcp.rs`: the operations the server offers its tools.
- `tests/` — tests of the library.
- `app/` — the `req` program: arguments, files on disk, prompts and
  printing.

Calls into outside crates (`petgraph`, `regex`, `sha2`, `uuid`, `chrono`,
`unicode-width`) go through small trusted wrappers whose contracts state what
those crates document.
