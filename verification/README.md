# spartan2

Verified number-theoretic transforms, polynomial arithmetic and circuit
gadgets over the scalar field of the Pallas curve, written in Verus.

## Layout

- `src/field.rs`: the field element type `Fe` and the `ff`/`pasta_curves`
  arithmetic it uses, each call stated over the integer value of its operands.
- `src/sum.rs`, `src/poly.rs`, `src/dft.rs`: finite sums, polynomials as
  integer coefficient sequences, the discrete Fourier transform and roots of
  unity.
- `src/ntt.rs`: in-place radix-2 transforms, bit-reversal, polynomial
  multiplication (schoolbook, transform-based, adaptive, with reusable
  workspaces) and polynomials built from their roots.
- `src/gadgets/`: rank-1 constraint systems under construction (`circuit.rs`,
  `r1cs.rs`), small gadgets (`utils.rs`), the comparison with a constant
  (`less_than.rs`), elliptic-curve point gadgets (`ecc.rs`), scalar
  multiplication (`scalar_mul.rs`), algebraic facts about the values they
  compute (`curve_laws.rs`) and the run of scalar multiplication on the
  point at infinity (`identity.rs`).
- `app/`: the bridge to `bellpepper`'s `ConstraintSystem`, which replays a
  circuit built by the library (binding existing numbers as its inputs), and
  the error type with its message.

Every gadget states the values it records, completeness (its constraints hold
on the honest assignment) and soundness (any assignment satisfying them gives
its result the intended value, assuming the field has no zero divisors).
