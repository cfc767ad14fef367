# genesis

A neuroevolution toolkit: a small register machine whose programs are bred
by a genetic search, and a maze in which agents with small neural networks
learn to find the exit. The logic is a Verus library whose functions carry
contracts that Verus proves; the interactive trainer around it is ordinary
Rust.

## Layout

- `src/vm.rs` — the register machine: instruction set, a mathematical model
  of its state, single-step and run semantics, and runs under random bit
  flips.
- `src/encoder.rs` — the textual program format (four hexadecimal digits
  per instruction) with its round-trip laws.
- `src/darwin.rs` — fitness tasks, genotypes, and one generation of the
  evolutionary search: ranking, elitism, tournament selection, crossover
  and mutation. Each tournament starts from the first genotype and lets an
  entrant win only when it is strictly fitter, so on a population ranked
  best first every tournament is won by the best genotype.
- `src/ranking.rs` — the stable ranking of a population by fitness.
- `src/maze.rs` — the seeded generator, depth-first maze carving and the
  wall segments of a maze.
- `src/route.rs` — breadth-first search for the shortest route from the
  entrance to the exit, and the checkpoints along it.
- `src/passages.rs` — what carving guarantees: the reached cells are
  exactly the cells a walk from the entrance reaches, and the passages form
  a tree.
- `src/training.rs` — uniform crossover of gene vectors, and breeding the
  next population of networks from a ranking: the two best kept, every other
  child crossed from two parents, each the best-ranked of three entrants
  drawn from the top of the ranking.
- `src/random.rs` — the thread-local random number generator.
- `app/` — the command-line trainer: menu, self-update, the floating-point
  agent simulation, parallel scoring, and the files for the web visualizer.
- `tests/` — tests of the library on concrete values.
