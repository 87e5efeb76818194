# kusara

Cross-reference graph tooling for Markdown and HTML specs and docs: front
matter (`type:` + `kusara:`, or the legacy `refs:` block) declares each doc's
id, kind and links; `kusara` checks the graph and answers impact,
dependency, doc-of-record and index queries.

## Layout

- `src/` — the library, verified with Verus:
  - `text.rs` — text helpers and their specifications (ordering, search,
    whitespace, decimal and hex rendering);
  - `extract.rs` — locating metadata: Markdown front matter, the fenced YAML
    block of `kinds.md`, the HTML `<script type="application/kusara+yaml">`
    block;
  - `model.rs` — ids, kinds, the kinds manifest, the two front matter shapes
    and their normalization, document classes;
  - `graph.rs` — admitting documents and building the edge relations;
  - `traverse.rs` — distances in the graph (`impact`, `deps`, `touched`);
  - `report.rs` — the exact output of `list`, `show`, `impact`/`deps` and
    `touched`;
  - `render.rs` — generated INDEX files, `map.md`, `ai/modules.md`;
  - `validate.rs` — everything `validate` reports;
  - `scan.rs` — which files are read, scan roots, migration of legacy front
    matter;
  - `stale.rs` — reading `git log` output and picking stale docs;
  - `hook.rs` — the edit journal and the end-of-turn hook's answer;
  - `paths.rs` — path text, `modules:` coverage, and the `std::path`
    operations the library relies on.
- `app/` — the command line: arguments, file system, `git`, stdin payloads
  and YAML/JSON (de)serialization around the library.
- `tests/` — tests of the library on concrete values.
