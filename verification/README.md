# cyclic_graph

A directed cyclic graph with one input node and one output node, verified with Verus.

In the initial state the graph holds only the input and output nodes, the input
linked to the output. Nodes are appended (linked from given parents and to given
children) or inserted into an existing link; a removed node's parents are linked
to its children, so the connections continue through the remaining nodes. The
input and output nodes cannot be removed, nothing links into the input node and
nothing leaves the output node. New identifiers come from a counter through an
`IdGenerator` (`usize` ids, or `String` ids of the form `ML_<n>`).

## Layout

- `src/` — the verified library.
  - `graph_view.rs`: the mathematical model of a graph (`GraphView`: contents by
    identifier, the set of links, the input and output identifiers, the counter),
    the effect of each operation on it, and walks and reachability.
  - `cyclic_graph.rs`: `CyclicGraph`, its invariant, and the operations, each
    specified over the model (`new`, `append_node`, `insert_between`, `remove`,
    linking, `get`, `traverse_from_input_node`, `bfs`, `successor_ids`,
    `predecessor_ids`).
  - `node.rs`, `content.rs`, `error.rs`, `identifier.rs`, `id_generator.rs`.
  - `laws.rs`: properties relating several operations, proved over the model.
- `tests/` — tests of the library on concrete graphs.
- `app/` — the asynchronous surroundings: a graph shared between tasks behind a
  tokio lock, the error type with its messages, and the asynchronous traits
  implemented by layer contents and link handlers.
