# butterfly-fft

Additive FFTs over binary fields and number-theoretic transforms over prime
fields, written in Rust and verified with Verus.

The library under `src/` states what every transform computes and proves it:

- `field/`: binary fields as towers, with their elements as plain integers.
- `transform/`: additive transforms. A plan evaluates a polynomial given in the
  novel basis at the points of a subspace or an affine coset, whole, over a
  range, over selected rows or for a zero-padded prefix, and interpolates back.
- `basis/`: the bit basis, Cantor bases, coordinates, and conversion between
  monomial and novel coefficients.
- `ntt/`: multiplicative transforms in natural order, with their inverses and
  the four-step variant.
- `rs/`: generator rows and small dense inverses for erasure recovery.
- `kernel.rs`, `tables.rs`: butterflies over packed rows, by field arithmetic
  and by lookup tables.

Functions whose names begin with `law_` state what holds across calls: that the
inverse undoes the forward transform, that a transform evaluates, that
restricted transforms agree with the full one, and so on.

`tests/` runs the library on concrete values. `app/` adds what stands outside:
process-wide caches, the standard error traits, and adapters to native
libraries for benchmarks.
