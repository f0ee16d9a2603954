# halo2_gpu_prover

A prover for halo2 circuits that leaves the heavy work (multi-scalar multiplications, number
theoretic transforms, polynomial evaluations) to a GPU. What the prover decides and computes on the
host is verified with Verus.

- `src/` is the verified library. `field` and `fp` hold the field arithmetic; `expression`,
  `circuit` and `lookup_columns` evaluate the columns of a circuit; `lookup`, `lookup_product`,
  `grand_product`, `permutation` and `products` make the permuted columns and the product columns
  of the lookup and permutation arguments; `commitments` and `opening` fix the order of commitments,
  evaluations and queries; `prover` is the course of a proof as a state machine, and `replay`
  states that a proof is determined by its columns and the answers it gets.
- `app/` drives a proof: it performs the actions that the state machine asks for on a device and a
  transcript, and hands back what came of them.
- `tests/` runs the library on small circuits.

The functions that call outside crates, and whose contracts are taken on trust, are in `fp`
(`halo2_proofs`, `ff`), `parallel` (`rayon`) and `lookup` (the sort of the standard library).
