# regrate

Migration management where each migration is named by hashing its
predecessor: the name of the next migration is the base58 text of the
SHA-256 digest of the previous name followed by the previous migration's
files (relative path, a zero byte, the size as 8 little-endian bytes, the
contents). Two people committing "the next migration" therefore collide in
the same store path, and `regrate resolve` untangles the git conflict.

Layout:

- `src/` — the library, verified with Verus:
  - `hashing.rs`: the SHA-256 (`sha2`) and base58 (`bs58`) calls;
  - `names.rs`: migration names, the name chain through a store, the store
    directories the chain does not reach, and the laws of the chain (it is
    linked, its names are distinct, a commit extends it by one, an edit
    cuts it after the edited migration, file framing is injective, and
    files listed in walk order give a name that does not depend on the
    order in which the filesystem returns them);
  - `run.rs`: which steps `run` executes and the command line and
    environment of each;
  - `resolve.rs`: parsing git's list of unmerged paths and the two sides'
    tree listings, and deciding what `resolve` writes, removes and stages;
  - `commands.rs`: the decisions of `init`, `create` (a copy of the
    template), `commit`, `valid`;
  - `paths.rs`, `text.rs`, `types.rs`: locations under `regrate/`, string
    helpers, arguments and errors.
- `app/` — the command line: clap, the file system (walkdir), git, child
  processes, `toml` files.
- `tests/` — tests of the library on concrete values.
