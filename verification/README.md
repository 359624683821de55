# spacewise_core

The storage-intelligence engine of Spacewise, verified with Verus: what is
using the disk, what is safe to remove, and exactly what happens on removal.

Pipeline: scanner -> storage model -> classification -> safety ->
recommendation -> cleanup plan -> user approval -> cleanup executor -> history.
No stage skips forward: the scanner never decides what to delete, and a
recommendation never deletes anything.

## Layout

- `src/` -- the verified library. Every stage's decisions live here with
  their contracts: directory roll-ups (`aggregate`), the scan's cycle
  protection, batching and totals (`scanner`), duplicate grouping
  (`duplicates`), cleanup candidates and ranking inputs (`recommend`), the
  per-path cleanup state machine (`cleanup`), growth diagnostics (`history`),
  app/storage association (`uninstall`), the platforms' protected roots and
  application lists (`platform`), and the desktop scan session (`session`).
- `app/` -- the unverified shell: walking and stat-ing the filesystem,
  reading and hashing files, the trash, the Windows registry, SQLite,
  serialisable copies of the library's types, and the floating-point score
  that orders recommendations.
- `tests/` -- tests of the library on concrete values.
