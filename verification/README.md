# rudo_gc

The verified core of a generational, non-moving mark-sweep garbage collector
that lays its heap out as a Big Bag of Pages: every small-object page holds
objects of one size class, large objects get spans of pages of their own.

`src/` holds the collector's bookkeeping as plain values, each operation with
a contract over a mathematical model, proved with Verus:

- `bits`, `bitmap`, `page`: page headers with mark, dirty and allocation
  bitmaps and page flags.
- `size_class`, `class_alloc`: size classes and small-object allocation from
  the TLAB, the slot buffer and the free lists of a class's pages.
- `sweep`, `generations`: eager and lazy sweeping, free lists threaded through
  page slots, promotion and per-collection resets.
- `large`, `orphan`, `lookup`, `segments`: the large-object space, pages
  left behind by ended threads, resolution of interior pointers for
  conservative scanning, and the false-root check on fresh mappings.
- `worklist`, `marker`, `mark`, `incremental`, `collect`, `barrier`: mark
  queues and work stealing, tracing from the roots, the remembered set and
  the worklist (with the proof that a drained marking is closed under
  tracing), the incremental-marking state machine, collection policy and
  write barriers.
- `collector`: whole minor and major collections of a heap (clear, mark,
  sweep, promote), a major collection of every heap marked together, and
  the laws that what the roots reach survives a major collection and that
  what neither the roots nor, in a minor collection, the remembered set
  reach is freed; the handshake around a collection is a
  step function in `collect`, and one slice of incremental marking is
  `incremental::mark_slice`.
- `sync`, `threads`, `tcb`, `local_heap`, `handles`, `async_scope`,
  `metrics`, `young_history`: lock ordering, thread handshakes and
  cross-thread roots, each thread's control block, the thread's heap and its
  buffers, handle scopes, metrics and history.

`app/` is the ordinary Rust around it: process-wide state behind locks,
clocks, running the collection handshake, and giving memory back to the
operating system.
