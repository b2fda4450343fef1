# envsubst

A minimal alternative to the GNU `envsubst` utility: it substitutes
environment variables written `$VAR`, `${VAR}` or `${VAR:-default}` in files
matched by glob patterns, with values from the process environment or, with
`--env-file`, from `.env` files only. Unknown variables are left as they are.

The library under `src/` is verified with Verus:

- `var_map` — maps from variable names to values, kept in insertion order;
- `text` — Unicode white space, trimming, and strings as vectors of characters;
- `env_file` — the `.env` format;
- `env_context` — the lookup context: values found, names missing with their
  counts, and the optional scope of names that are substituted;
- `expand` — template expansion through the `shellexpand` crate, and the
  rendering of one file;
- `paths` — Unix path arithmetic: the directory a glob pattern's matches lie
  under and where a rendered file is written below an output directory;
- `run` — how a run ends;
- `laws` — properties of the lookup context across calls.

`app/main.rs` is the command: options (`getopts`), globbing (`glob`), reading
and writing files, and reading the process environment.
