# pvec

A persistent vector in verified Rust (Verus). Elements live in a 32-way trie
of `Arc`-shared nodes plus a tail buffer of up to 31 elements; cloning a
vector shares the trie, and writes copy the shared nodes on their path
(`Arc::make_mut`).

Layout of `src/`:

- `index.rs`: `Shift` and `Index`, the base-32 digit arithmetic and its lemmas.
- `shared.rs`: the two calls into `std::sync::Arc` (`clone`, `make_mut`), with
  the contracts they are trusted to meet.
- `node.rs`: trie nodes, their well-formedness (`wf`), what a position reads
  (`lookup`), and the recursive operations `get`, `get_mut`, `push_tail` and
  `pop_tail`.
- `pvec.rs`: `PVec`, its invariant and its view as a `Seq<T>`, and the public
  operations `new`, `len`, `get`, `get_mut`, `index`, `index_mut`, `push`,
  `pop` and `clone`.
- `compare.rs`: `Shift` and `Index` compared with plain numbers.
- `laws.rs`: properties relating the operations (a pop undoes a push, a read
  gives back a write, any sequence of pushes and pops gives the lengths of a
  `Vec`, and, for element types whose clones are equal, its elements).

When nodes are shared, `Arc::make_mut` clones them, so `get_mut` and `pop`
are specified up to `cloned` for the elements of the leaf they copy; for
element types whose clones are equal values (`clone_exact`), the laws in
`laws.rs` give exact results.
