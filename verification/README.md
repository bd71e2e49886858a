# daglib

A DAG library generic over the node type, the node identifier type and the backend that stores
the nodes, written in Verus.

`src/` is the verified library:

* `node_id.rs`, `id.rs`, `node.rs`, `dag_backend.rs`, `repository.rs`: the traits that users
  implement for their identifiers, nodes and storage backends. A backend is specified by the map
  of nodes it holds (`DagBackend::nodes`): `get` answers from it, `put` inserts into it, and nodes
  are never deleted. A backend is described as a value: backends whose clones share storage
  (so that one clone sees another's puts) go beyond what the contracts describe.
* `async_dag.rs`: `AsyncDag` (HEAD plus backend) with `new`, `load`, `has_id`, `stream`,
  `update_head`, `update_head_unchecked`, `branch` and `merge`, and `Stream`, the depth-first walk
  from HEAD.
* `rebase.rs`: the rebase builder (`rebase().onto(base).doing(rewriter).run()`).
* `graph.rs`: the model of the stored graph (reachability, acyclicity, the depth-first walk) and
  the laws about it. A walk from HEAD (`has_id`, a rebase) asks only that the part of the store
  reachable from HEAD be acyclic; what else the backend holds does not matter.
* `error.rs`: the error type.

The backend operations are plain calls. `app/` holds what Verus does not take: a bridge that lets
a backend with asynchronous operations serve as a backend, the walk as a `futures` stream, and the
error type with `Display` and `std::error::Error`.
