# anneal_model

The verified core of a toy simulated-annealing modeller.

- `src/perturbation.rs`: `Index`, the lexicographic enumeration of the
  `k`-subsets of `0..n` that a perturbation series sums over, with proofs
  that the enumeration visits every subset once, in increasing order, and
  that the powers of each term add up to the number of steps.
- `src/ising.rs`: `Lattice`, the periodic lattice of an Ising model: site
  coordinates in mixed radix, neighbours, the bond list and the placement of
  bond weights, with proofs that coordinates round-trip, that bonds pair up,
  and that each bond weight is read once and stored at both of its ends.
- `src/config.rs`: bit encodings of spin configurations and the hypercube of
  configurations one spin flip apart.
- `src/text.rs`, `src/graph_file.rs`, `src/ising_file.rs`: the readers of the
  graph and Ising model formats, specified line by line.
- `src/eigentools.rs`: the column-normalisation trait.

`app/` holds the command-line program: the floating-point Markov-chain
analysis (built on `faer`), the random annealing runs (`rand`), file I/O and
argument handling (`clap`).
