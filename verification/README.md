# adjoint_core

A reverse-mode adjoint algorithmic differentiation engine, with its tape and
backward sweep verified in Verus.

- `src/tape.rs`: the tape (parent links in a `bumpalo` arena vector, partials
  beside them), recording, reset, the backward sweep and adjoint lookup, with
  the sweep's specification and its laws.
- `src/dual.rs`: the `Dual` handle and the `Gradient` handle over a tape.

Both are generic over the scalar carried; the sweep receives the scalar's
zero test and its multiply-and-add from the caller.

`app/` is the `f64` face: a thread-local tape, the operator overloads and math
functions on `Dual`, the normal distribution kernels, the Monte Carlo pricer
and the Python binding.
