# integral

Gaussian integrals over contracted Cartesian and real-spherical shells, written in
Verus.

The library is generic over its scalars. A contract states a result as the expression
that is evaluated, operation by operation, so it holds of rounded arithmetic as well; the
laws that hold only without rounding say what the arithmetic must keep.

| Directory | Contents |
|---|---|
| `src/math` | components, Boys function, Rys and Gauss quadrature, normalization, solid harmonics |
| `src/engine` | overlap, kinetic, dipole, attraction and operator kernels; the two repulsion engines and their four-lane forms |
| `src` | shells and bases, one-electron matrices, repulsion tensors and builders, density fitting, direct contraction, grids |
| `src/grad` | first derivatives and their contractions |
| `src/ecp` | effective core potentials and their gradients |
| `tests` | closed forms, agreement of the engines, finite differences, errors |
| `app` | double-precision scalars, tables, error messages and the C interface |
