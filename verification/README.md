# fastvect

An embedded vector store: points with optional metadata, tenant filters, an
exact scan for small segments and a hierarchical navigable small-world graph
for larger ones.

Layout:

- `src/` is the library, written and proved with Verus. Embeddings are of a
  type chosen by the caller; distances and scores reach the library as
  closures that return order keys (`score::order_key`), so every ranking
  decision is made on integers.
  - `metric`, `payload`, `filter`: metrics, metadata and tenancy.
  - `point`, `score`, `ranking`: points, order keys and stable ranking.
  - `hnsw`: the graph, its greedy walks, insertion and beam search.
  - `exact`: the exact scan.
  - `segment`: the storage segment, its invariants and laws.
  - `simd`: the integer kernel of the 8-bit dot product.
- Graph vertices, payloads and tenant counts live in rustc-hash maps, each
  held in a small type whose few trusted methods state what the map does.
  The stored points live in std's `HashMap`: their value type is generic
  (the caller's embedding), and the contents of a map of a generic type
  cannot be named for the trusted methods; vstd's specification of
  `HashMap` covers only its default hasher.
- Point identifiers index the tombstone list directly, so upserts and
  snapshots require identifiers that fit a `usize` (every one does on a
  64-bit machine).
- `tests/` exercises the library on concrete values.
- `app/` is the Python module: floating-point distances and quantization,
  random levels, locking, snapshots on disk and the bindings.
