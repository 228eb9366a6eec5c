# lib

Data structures whose behaviour is stated in Verus contracts and proved:

- `bst` — a binary search tree of `IoTDevice`s keyed by id (`DeviceRegistry`);
  its in-order sequence (the view) lists devices by descending id, and a search finds the device of
  that id added first.
- `btree` — a B-tree of devices (`DeviceDatabase`). The node operations, the
  insertion with its splits, the search and the validity check are verified;
  the proofs are grouped by topic under `src/btree/`:
  `position` (where a key falls in a node), `walk` (what a subtree holds and
  the shape every node keeps), `validity` (what `validate` checks), `order`
  (search order, and insertions that keep it), `insertion` (the steps of
  an insertion) and `shape` (the tree an insertion builds, node by node).
- `double_list` — a transaction log kept as a doubly linked list in a vector
  of nodes, with a cursor that walks it both ways.
- `dynamic_array` — a growable array of timestamps.
- `phone` — a phone that can be switched on.

`app/main.rs` holds the programs around the library: threads sharing a
vector, and a transaction log printed both ways.
