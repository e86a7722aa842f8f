# betula

Streamable data clustering with numerically stable cluster features kept in
a CF-tree (BETULA, an improved BIRCH), written in Verus.

## Layout

- `src/` — the verified library.
  - `types.rs`: the number type the library is generic in (`Float`,
    `FromIndex`). Each operation has a spec counterpart and is assumed only to
    return what that counterpart gives: no algebraic law and no order axiom,
    so every contract about numbers is stated as the exact composition of
    these operations that the code performs.
  - `cluster_feature/`: the `VII`, `VVI` and `VVV` cluster features; the
    packed layout of the `VVV` cross-product matrix is proved injective and in
    range.
  - `distance/`: the six distances between cluster features and points, and
    the lane-wise squared Euclidean and Manhattan distances they build on,
    each with its value stated.
  - `cf_tree/`: the CF-tree. Its invariant (`wf`) covers the shape (parents,
    heights, ownership of leaf entries, capacity) and the sizes (every node
    holds exactly the points of its children). Insertion, splitting,
    rebuilding and the depth-first order of the leaf entries are proved to keep
    it; the public proof functions in `lemmas.rs` state its consequences. The
    decisions are stated too: the descent to the nearest child, absorption by
    the nearest entry within the threshold, the seeds and assignment of a
    split, the estimated threshold, the order in which a rebuild reinserts
    the entries, and that no sequence of rebuilds lowers the threshold (each
    step keeps it or raises it). What an insertion does to the features is
    stated exactly: the absorbing entry takes the point in by the feature's
    own update formula; every node on the way down either does the same or,
    where the insertion split it, is a node whose feature is the merge of its
    children's features, as are the nodes a split adds; every other node keeps
    its feature.
  - `names.rs`, `python.rs`, `betula.rs`: selecting features and distances by
    name, and the models behind the Python interface.
- `tests/` — tests against the library, with `f64` as the number type.
- `app/` — the command-line tool, the macro benchmarks and the Python module
  (pyo3), which read and write data and call the library.
