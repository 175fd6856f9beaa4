# synunitary

Architecture-aware synthesis of unitaries by the block-ZXZ decomposition,
with its routing logic verified in Verus.

- `src/graph.rs`: the graph model (walks, distances) and graph laws.
- `src/cluster_finding.rs`: breadth-first distances, cluster costs and
  orderings, and the exact and greedy closest-cluster searches.
- `src/utils.rs`: induced subgraphs and shortest paths inside them.
- `src/routing.rs`: the routed multiplexer: long-range CNOTs, gate
  cancellation, parity resets and the routing of a whole multiplexer.
- `src/placement.rs`: placing the qubits on a cluster and routing paths.
- `src/gray_code.rs`: the Gray-code sweep and its cost, and the proof that
  the sweep visits every parity term once.
- `src/block_zxz.rs`: the per-level routing plan with its swap search, SWAP
  chains, and the bookkeeping of gates between the blocks.
- `src/basis.rs`: how CNOT and SWAP act on basis states.
- `src/cluster_symmetry.rs`: a cluster's cost does not depend on the order
  of its nodes when distances are symmetric.
- `src/swap_round_trip.rs`: SWAP chains there and back leave every basis
  state in place.
- `src/level_blocks.rs`: the three blocks of gates of one synthesis level
  and the order in which each is emitted between the level's SWAPs.
- `src/relay_laws.rs`: what a long-range CNOT can add to the circuit.
- `app/`: the floating-point matrix work (two-qubit decomposition,
  demultiplexing, unitaries of gate lists) and the command-line program.
- `tests/`: tests of the library.
