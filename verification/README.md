# workspace_state_graph

Typed workspace dependency DAG for infrastructure state boundaries, verified with
Verus. Workspaces (Terraform states) produce typed outputs and consume typed
inputs from each other; the library builds such graphs, checks them
(connectivity, type compatibility, acyclicity, unique output names), orders
deployments and computes the impact of a change.

## Layout

- `src/types.rs` — workspaces, ports, edges, the graph; `WorkspaceMap`, workspaces
  kept in increasing identity order; the trusted items around `iac_forge::ir::IacType`.
- `src/text.rs` — the lexicographic order of identities.
- `src/builder.rs` — `WorkspaceGraphBuilder`, specified by the graph it builds.
- `src/dependency.rs` — the dependency relation, Kahn's algorithm and its order.
- `src/verify.rs` — the four checks and `verify_graph`, with laws saying what each proves.
- `src/analysis.rs` — `deployment_order` and `affected_workspaces` (breadth-first
  discovery order).
- `src/composition.rs` — `CompositionBuilder` and `CompositionPlan`, with the laws of
  PID assignment, naming, and soundness by construction.
- `src/pleme.rs` — the real topologies, each stated exactly over the port type that
  stands for strings; the `_typed` variants take that type as a parameter.
- `app/lib.rs` — serde/thiserror copies of the types, JSON reading and writing.
- `tests/` — scenario tests.
