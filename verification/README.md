# gsw

GSW and Ring-GSW homomorphic encryption with toy parameters, blind-rotation
bootstrapping, CRT slot packing and the embedding basis of a lattice attack on
the LWE public key. The library in `src/` is written in Verus: every function
carries a contract, and the properties of the schemes are proved as lemmas.

## Layout

- `src/params/`: the parameters of both schemes.
- `src/arith.rs`: Euclidean remainders, finite sums and their lemmas.
- `src/matrix.rs`: integer matrices; products, sums, transposes and scalings
  are computed by `nalgebra`.
- `src/rng.rs`: the draws from `rand`'s thread generator.
- `src/gsw/`: GSW over LWE. `correctness.rs` proves that decryption inverts
  encryption and that addition and multiplication act as XOR and AND (and as
  `+` and `*` on small integers); `equality.rs` proves that the equality circuit
  decides equality of bit vectors of up to four bits.
- `src/rgsw/`: Ring-GSW over `Z_q[X]/(X^N + 1)`. `poly.rs` holds polynomials and
  polynomial matrices (products in parallel with `rayon`; transposing twice is
  the identity), `ring.rs` the algebra of the negacyclic product (commutative,
  associative, distributive, with unit), `correctness.rs` the decryption, XOR and
  AND properties and the recomposition `G G^-1(c) = c mod q`, `crt.rs` and
  `slots.rs` the CRT slot packing: decoding and encoding invert each other
  modulo `T`, and decoding is a ring homomorphism onto the slots; `fermat.rs`
  proves Fermat's little theorem, so `pow_mod(x, p - 2, p)` inverts `x` modulo
  any prime `p`.
- `src/bootstrapping/`: blind rotation and sample extraction; `correctness.rs`
  proves that blind rotation turns the encrypted test polynomial by
  `X^(b - sum_i a_i s_i)`, with noise growing linearly in the number of steps;
  `lwe.rs` holds the test polynomial, the extracted LWE key and LWE decryption,
  and proves that bootstrapping gives the message back.
- `src/attack.rs`: Kannan's embedding basis for an LWE public key.
- `app/main.rs`: the demonstration program, which also writes the SageMath
  lattice-reduction script.
- `tests/`: tests on concrete values.
