# brainwares

A verified library for Brainwares vaults: directories of Obsidian-style
markdown memory notes whose YAML frontmatter records code files together with
the hash they had when the note was last synchronised with them. The library
holds the rules of the `bw` command line (what a check finds, what a command
changes, which files to observe and to write); the program around it reads
and writes the files, walks directories and runs processes.

## Layout

- `src/` — the library, written in Verus and verified:
  - `text.rs`, `path.rs`: the string and path operations the rest is stated
    over (trimming, searching, replacing, sorting; Unix path components,
    parents, file stems, joining, prefix stripping).
  - `parser.rs`: the frontmatter framing of memory files, inline-code
    stripping and the wiki-link grammar.
  - `models.rs`, `vault.rs`: notes, references, backlinks and configuration;
    name normalisation, the backlink index, configuration merging and the
    vault layout.
  - `engine.rs`, `reports.rs`: the status check of a vault against
    observations of the workspace files, and the report lines.
  - `hash.rs`: the content hash that references store (MD5, lowercase hex).
  - `commands.rs`: linking and refreshing references, new notes, queries,
    prompt compilation and memory-name resolution.
  - `index.rs`, `setup.rs`, `integrate.rs`, `ui.rs`, `cli.rs`: folder-note
    scaffolding, the initial vault content, agent-rule installation, the
    explorer's data and the commands.
- `tests/` — tests of the library on concrete values.
- `app/` — the `bw` program: argument parsing, file I/O,
  YAML and JSON (de)serialisation, directory walks and the explorer assets.

The library never touches the file system: the program hands it the file
contents it read and a `FileProbe` of observations (whether a file exists,
its hash or the error hashing gave), and writes back what the library
returns.
