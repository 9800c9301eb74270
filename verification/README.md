# dispatch_lab

Verified building blocks of a columnar work-unit dispatch engine, written in
Verus. Every function under `src/` carries a `requires`/`ensures` contract and
is proved by Verus; the laws that span several functions are public proof
functions next to the code they speak of.

## Layout

- `src/` — the verified library, one module per concern:
  - records and cores: `morsel` (morsel ranges, per-core record slices and
    chunks, all proved to tile the record range), `asym` (equal and
    speed-proportional splits that hand out every record once), `pool`
    (the persistent worker pool's frame protocol), `convergence` (two cores
    claiming records from both ends of a packed cursor, each record exactly
    once), `oracle` (N-core results equal the serial result), `accum`
    (per-core accumulator regions compacted into the single-core order);
  - ordering and grouping: `topo` (Kahn order from read/write masks),
    `grouping` (longest-dependency phases and within-phase trunks),
    `unionfind` (trunks as the connected components of column sharing),
    `waist` (adjacency rows, waist phases and dependency depths), `renumber`,
    `pairs`, `fiber`, `carrier`;
  - control: `barrier`, `gate`, `dirty`, `adapt` (hysteresis), `meta`,
    `pass_select`, `shapes`, `walks`, `facade`, `fusion`, `bump`,
    `topology`, `alloc_vec`, `bundle`, `kernels`.
- `tests/` — executable tests of the library on concrete values.
- `app/` — a small program that runs the library on real threads (worker
  pool, convergence cursor, generation barrier), probes the core topology of
  the machine and times the asymmetric split.
