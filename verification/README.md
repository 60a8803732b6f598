# repoctx

The verified core of `ctx`, a local-first command that turns a Git
repository into a prompt-ready context digest: a header, the directory tree,
and the contents of each text file.

- `src/` is the library, verified with Verus: include/exclude filters over
  `globset` (`filter`), the choice and order of the files (`walk`), the
  directory tree and its drawing (`tree`), the digest text (`render`), the
  repository root and name (`repo`), and text helpers (`text`, `path`).
- `app/` is the command around it: option parsing, walking the file system
  with `ignore`, reading files, and printing or copying the digest.
- `tests/` exercises the library on concrete inputs.
