# codex_prompts

Verified core of custom prompts and output styles for a coding assistant.

- `src/arguments.rs`: expansion of `$ARGUMENTS` and `$1..$n` placeholders.
- `src/frontmatter.rs`: optional YAML frontmatter (`description`,
  `argument_hint`, `model`) at the top of a prompt file; YAML itself is
  parsed by `serde_yaml` behind one trusted function.
- `src/discovery.rs`: which directory entries are prompts, model presets,
  the metadata of one prompt, sorting a directory's prompts.
- `src/aggregate.rs`: the merge of project and user prompts (one per name,
  project first, sorted by name) with its laws.
- `src/paths.rs`: paths as component lists; prompt directories and the
  project root.
- `src/style.rs`: output styles applied to a base system prompt by heading,
  and selection of sections.
- `src/text.rs`, `src/protocol.rs`, `src/cli.rs`: character helpers, the
  client-facing prompt types, configuration overrides.
- `app/`: a command-line program that walks directories, reads files,
  parses style YAML with serde, warns about ignored frontmatter and
  unknown models, and prints results. The library models path components
  as strings; the app maps every path the library hands back to the real
  path it came from, so that names that are not valid UTF-8 still reach
  the right files.
