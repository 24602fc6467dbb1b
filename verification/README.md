# gcan

Analyse, filter and prune Nix garbage-collector roots. For every root it reports the size of its
transitive closure, where its indirect symlink lives and how old it is. Roots of one direnv project
are one group. The listing is restricted to roots that the current user can delete, and never holds
protected (`current-*` / `booted-*`) ones, so it doubles as a safe deletion preview.

The logic is a library verified with [Verus](https://github.com/verus-lang/verus), under `src/`:

- `format`, `scaled`, `number`: sizes and ages as texts, and command-line values. Sizes are read the
  way double precision reads them, in integer arithmetic.
- `text`, `paths`, `sort`: strings, file paths and a stable merge sort.
- `walk`: the tree of roots, what the file system says of each of them, and their groups.
- `nix`, `cache`, `size`: the questions that are put to the store, what its answers mean, what is
  remembered of them, and the closure size of each group.
- `list`, `output`: which groups are listed, in what order, and how they are shown or deleted.
- `summary`: store-wide figures.
- `tui`: the state of the interactive browser.
- `laws`: what holds of sizes and figures as a whole, with a store that answers truly. A warm cache
  asks the store nothing; no cache of which all is true shows in a listing or in a summary; and any
  other cache shows in the same way in every run that starts from it.
- `answers`: what is found out depends on the answers of the store to the questions that are put,
  and on nothing else of it.

What needs the outside world is a state machine: it says which question is pending, takes in the
answer, and in the end gives its result. Its contract says, for every way in which a store may
answer, which questions are put and what comes of them.

The program under `app/` runs these machines: it reads directories, runs `nix-store`, keeps the cache
in `${XDG_CACHE_HOME:-~/.cache}/gcan/cache.json`, prints, deletes and draws.

## Usage

```
gcan [OPTIONS] [GCROOTS_DIR]            # default GCROOTS_DIR: /nix/var/nix/gcroots

  -s, --min-size <SIZE>   only roots whose closure is >= SIZE  (500M, 2G, bytes)
  -a, --min-age  <AGE>    only roots at least AGE old           (30d, 12h, 2w)
      --all               also list protected/undeletable roots (table/JSON only)
      --sort <COLUMN>     size, name or age
      --reverse           reverse the natural direction of the column
      --tui               interactive terminal UI (browse, sort, toggle, delete)
      --json              structured JSON output
  -p, --print-links       print indirect symlink paths (pipe into `xargs rm`)
  -d, --delete            delete matching roots after confirmation
  -y, --yes               skip the confirmation (with --delete)
      --no-cache          bypass the cache (no read, no write)

gcan summary [--collectable] [--format json] [GCROOTS_DIR]
```

Deleting a root only unlinks its indirect symlink; run `nix-collect-garbage` afterwards to reclaim
the disk space.
