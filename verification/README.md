# subvol_core

The B-tree core of a copy-on-write volume, verified with Verus: trees of keys in fixed-size nodes,
iterators over them with snapshot visibility, the node cache, the packed form of nodes on disk, and
garbage collection of buckets.

- `src/` is the library. Every function has a contract over a mathematical model: a node is a
  sequence of entries, a tree is what lookups find by rank, the cache is a map with a queue of
  clean nodes, a packed node is a list of cells. What relates several functions is stated as a
  public proof function whose name begins with `law_`.
- `tests/` runs the library on concrete values.
- `app/` is ordinary Rust around it: devices, JSON, locks and waiting.

| Modules | Subject |
| --- | --- |
| `key`, `entries`, `btree_id`, `bset`, `bset_walk` | positions, keys, values, sorted runs of entries |
| `node`, `node_cache`, `shape`, `contents`, `tree`, `sound`, `mend` | nodes and what makes them a tree |
| `lookup`, `path`, `iter`, `iter_update`, `visible`, `snapshot`, `listing` | finding and walking |
| `split`, `insert`, `update`, `transaction`, `key_cache`, `writer` | inserting |
| `runs`, `merge_shape`, `merge`, `delete` | deleting and merging |
| `interior`, `interior_updates`, `volume` | roots, pending updates, all trees of a volume |
| `cache`, `cache_ops`, `cache_use`, `cache_fill`, `cache_limits`, `evicted`, `meminfo` | cache |
| `bytes`, `packed`, `node_buffer`, `sort_iter`, `node_io`, `node_write`, `node_flags` | disk form |
| `bucket`, `extent_io`, `accounting` | buckets, extents, counters |
| `gc`, `gc_mark`, `gc_check`, `gc_alloc_info`, `gc_sweep`, `topology` | garbage collection |
| `report`, `text` | reports of the checks and numbers as text |
