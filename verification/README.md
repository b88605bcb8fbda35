# axolotl_rs

A property-graph store with EdgeBlock adjacency storage and graph
algorithms, written in Verus: the data structures, file formats, logs and
algorithms in `src/` carry `requires`/`ensures` contracts that Verus proves.

- `src/` — the verified library: EdgeBlock stores (`edge_store`,
  `gpu_edge_block`, `edge_block`), the property graph with its indexes,
  queries and transactions (`persistent_graph`, `index`, `graph_query`,
  `transaction`), the binary formats (`persistence`, `edgeblock_format`,
  `axol_format`, `compact_storage`, `mmap_graph`), the write-ahead log and
  recovery (`wal`, `recovery`), the combined handle (`graph_db`) and the
  integer algorithms (`incremental_cc`, `incremental_tc`, `scc`,
  `wave_core`, `gpu_bfs`, `louvain` relabelling).
- `app/` — plain Rust around it: files and memory maps, JSON, the HTTP
  server, and the floating-point algorithms (PageRank, betweenness,
  Louvain modularity, weighted shortest paths).
- `tests/` — tests run against the compiled library.
