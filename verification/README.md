# bionic_graph

The storage engine of a block-based knowledge graph, verified with Verus.

- `src/` — the verified library: block and chunk allocation, block headers
  and index records, the allocation bitmap's free list, the sharded LRU block
  cache with dirty write-back, the in-memory indexes (ID trees, token map,
  rank, access time, adjacency, names), the subgraph indexes and vertex
  placement, the redo log and write-ahead log formats and their replay, the
  version log format with its sparse index, lock striping, the neurons'
  firing history, Levenshtein distance, the ranking of search results, and
  which replicated operation a successful write request stands for.
- `app/` — what stands around it: files, the background redo-log writer,
  locks, serialization of the indexes, and the floating-point neuron
  activation.
- `tests/` — tests of the library.
