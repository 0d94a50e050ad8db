# sennit

The verified core of a dotfiles manager that places files by symlink, renders templates,
and detects drift between configurations and declared packages.

- `src/` is the library. Its functions have contracts that Verus proves: what is
  placed, moved aside, pruned and restored; how templates expand and which secrets they
  need; what configurations depend on; which packages are to be installed, and what two
  machines have in common. It works on plain values and touches neither files nor
  processes. A few short wrappers, around calls of `toml` and of the standard library, are
  believed instead of proved; the comment above each says what is believed.
- `app/` is the command line program around it: it reads and writes files, runs programs
  and prints.
- `tests/` runs the library, the scenarios of `apply` and `rollback` on a small file system
  made of texts.

The modules of the library, from the ground up:

| module | |
|---|---|
| `text`, `order`, `table`, `path` | texts as sequences of characters, stable sorting, ordered tables, paths by components |
| `template`, `render`, `provider`, `vars` | what a template means, its expansion, the secrets it refers to, the variables it sees |
| `manifest`, `packages` | what a repository declares |
| `encrypted`, `hooks`, `modes`, `generate` | decryption, hooks, file modes, generated files |
| `plan`, `state`, `apply`, `rollback` | links to place, the record of earlier runs, what is done and undone |
| `dry` | what a dry run leaves undone |
| `disk` | what placing and restoring do to a file system, and what they keep |
| `detect`, `check`, `verify`, `audit`, `sync` | what configurations require, whether it is declared, present, used, installed |
