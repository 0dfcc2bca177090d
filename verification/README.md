# fsx_tools

Two command-line tools that work on file trees, built on a verified library:

- `copy` copies, moves and synchronises files and directories, locally or
  through rsync. It shows what it is going to change, asks, and keeps a journal
  of operations that are under way.
- `tree` lists a directory as a tree, with sizes, counts, times and Git
  statuses. It runs under the name `tree`, or as `copy tree ...`.

## Layout

- `src/` is the library. It decides: where a transfer goes and what it
  replaces, which files a plan copies or deletes, which step follows which
  result, how frames, tables and trees are written. Every function has a
  contract, and Verus proves the function against it. Functions named `law_...`
  state what holds across functions.
- `app/` is the program around the library: arguments, files, processes,
  threads and the terminal. It asks the library what to do, does it, and tells
  the library how it went. Rates and estimates are floating point and are
  computed there.
- The library knows paths as text. `names` writes a path as text and reads it
  back byte for byte, so that names which are no UTF-8 are kept exactly.
- `tests/` runs the library on concrete values.

## What is not proved

The library calls a few functions of other crates. Each of these calls stands
in a small function of its own, with a contract that is taken on trust and a
comment that names the function behind it: hash tables (`rustc-hash`), the tables
of a scan and the sets of inodes that it has counted (`dashmap`), SHA-256
(`sha2`), the pattern of a progress line (`regex`), device numbers (`nix`), and
three functions of the standard library on strings.
