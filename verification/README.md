# immix_rust

A mark-region garbage collector in the Immix style, verified with Verus.

The heap has two spaces. Small objects live in the Immix space: blocks of
64 KiB cut into lines of 256 bytes, from which each mutator bump-allocates
through windows of free lines. Large objects live in a free-list space. A
collection traces the objects reachable from the roots, marking each object
and the lines it lies in, and then sweeps the Immix space: every line that no
traced object holds becomes free again, and each block goes back to the
usable or the full blocks.

## Layout

- `src/common`: addresses, object references, and the side tables indexed by
  word (`Bitmap`, `AddressBitmap`, `AddressMap`).
- `src/objectmodel`: the mark state and the encoding byte of each object,
  which says which of its words are references.
- `src/heap/immix`: the Immix space (`ImmixSpace`, blocks, the line mark
  table, the sweep) and the thread-local allocator (`ImmixMutatorLocal`).
- `src/heap/freelist`: the large object space.
- `src/heap/gc`: tracing, with one local queue or with a shared queue, the
  collection, the conservative scan that keeps the words of a stack and of
  the registers that start objects, and the step of the allocation loop
  (allocate, collect when the space is exhausted, retry or give up).
- The registry of mutators is a vector of slots, one flag each: a mutator
  registers in the next slot, a collector raises every flag, and a mutator
  reads its own slot at its yieldpoint.
- `src/gcbench.rs`: the tree-building side of the GCBench benchmark.
- `app/`: the benchmark driver: heap configuration from the environment,
  timing, printing, and the memory of large objects.

The memory of the Immix space is a byte vector owned by the space; addresses
are its offsets shifted to start at `SPACE_ALIGN`, so that every access is
checked against the space's bounds by the verifier.

## Running

`HEAP_SIZE=<n>M` sets the heap size; `N_GCTHREADS` is read as the number of
collector threads, though every trace here runs on the calling thread. The
first argument names the benchmark: `gcbench`, `trace`, or `mt-trace`, which
traces with the shared queue.
