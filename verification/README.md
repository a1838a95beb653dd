# tab_groups

Tab groups for a vertical tab sidebar, verified with Verus.

- `src/tab_settings.rs`: tab groups and directory assignments. A directory
  resolves to the assignment of the longest assigned directory that contains
  it, and that assignment is interpreted only then, so an excluded child
  directory shadows a grouped parent. Directories are matched as strings: a
  key covers a directory when it is a prefix of it ending at a `/`; paths are
  not normalised (no folding of `//`, `.` or a trailing `/`), so keys and
  directories must be given in the same canonical form. Two assignment tables
  are `==` when they send the same directories to the same places, whatever
  their entry order.
- `src/grouping.rs`: the partition of the visible tabs into ungrouped tabs,
  one bucket per tab group, and the top-level render order, with its
  mathematical model.
- `src/grouping_laws.rs`: properties of the partition proved for all inputs.
- `app/lib.rs`: the filesystem edge (canonical directory keys from `Path`s).
- `tests/`: scenario tests.
