# cloakkchain

A chain of private coins. Coins are commitments; a spend publishes nullifiers and new
commitments on an append-only board, with the transaction encrypted for its recipients. Spends
and receipts are proved by Groth16 circuits over MNT4-753 that verify each other's proofs
recursively, through wraps over MNT6-753.

- `src/` is the library, verified with Verus: the data model, the two relations, the circuits
  over an abstract constraint system, the verification of proofs, and whole chains as a state
  machine. `src/lib.rs` lists the modules. Calls into other crates stand behind functions
  marked `external_body`, each with a comment that says what is relied on.
- `tests/` runs the library with those crates linked. Proofs of the full circuits take minutes,
  so the tests evaluate the circuits, check their constraints in arkworks, and verify proofs of
  small circuits with the same public inputs.
- `app/` is the program around the library: the constraint systems of arkworks, setup and
  proving, one process per proof, the zkVM's guest programs, and the command line.
