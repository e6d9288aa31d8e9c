# cache_latency

A pointer-chasing cache latency benchmark for `x86_64`, with its logic verified by Verus.

The benchmark links the 64-byte nodes of a buffer into one ring in a random order,
pins itself to a core, warms the ring up, and times dependent loads along it with the
time-stamp counter.

- `src/` is the verified library:
  - `pointer_chasing`: the node type, linking a shuffled order into a ring, walking it
    (plainly and in unrolled batches), and the timed sampling loop. Proved: the ring
    visits every node once per lap and returns to its start; the batched walk follows
    exactly the requested number of links, and each timed sample is a start read, a walk
    of exactly the requested links, and an end read, in that order.
  - `timed_run`: `TimedRun`, which holds a counter and the ring it times; while it holds
    them, the counter is read and the ring walked only through it, and it records every
    read and every walk, in order.
  - `util`: the time-stamp counter interface and the measurement of its overhead: the
    value at index `m / 2` of the sorted differences of `m = max(n, 500)` start/end
    pairs, stated as a function of the readings, which are handed back.
  - `order`: sorting and the upper median (the value at index `len / 2` once sorted).
  - `cli`: the checks on command-line values (positive counts, buffer sizes, core choice).
  - `topo`: which NUMA node to bind memory to.
  - `benchmark`, `benchmark_ptr`: the pieces of the single-size variants of the benchmark.

The ring is linked by node index: the measured loads read a successor index out of a
`Vec` of nodes rather than following raw pointers, which the library does not use. For
the same reason the nodes are 64 bytes long but only 8-byte aligned (no `repr(align)`).

- `app/` is the program around it: argument parsing with clap, core pinning, the
  `rdtsc`/`rdtscp` readings, frequency readings, floating-point statistics and output.
- `tests/` runs the library on concrete values.
