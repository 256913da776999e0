# server

The verified core of an agent server: the rules and algorithms it runs on,
each stated as a contract and proved with Verus.

- `src/` is the library. Every function in it is verified; the few calls
  into other crates go through small trusted wrappers whose contracts say
  what those crates document.
  - `shell/`: a bash subset (lexer, parser, builtins, evaluator) run over a
    file system that answers requests, with the proof that a run can be
    replayed against a growing log of answers (`shell::replay`).
  - `skill_store`, `store_replay`, `migration`, `skills`, `static_skills`,
    `skill_render`, `embedded`: agent skills, their manifests, the store of
    user skills and the migration of the old skills table.
  - `vfs/`, `grants`, `parts`: paths, mounts and grants of the virtual file
    system.
  - `turn`, `runner`, `inbox`, `memory`, `titles`, `telegram`, `ocr`,
    `webhook`, `dates`: the bookkeeping of agent turns and runs, and the
    text each tool produces.
  - `text`, `sorting`: the string and ordering lemmas the rest builds on.
- `tests/` runs the library on concrete values, with in-memory stand-ins
  for the storage the evaluators talk to.
- `app/` holds what Verus does not check: serde codecs, clocks and
  randomness, and the loops that perform the requests the evaluators make.
