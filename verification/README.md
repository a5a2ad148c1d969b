# sundial

A linear-programming toolkit whose exact, float-free core is verified with
Verus.

- `src/` is the verified library:
  - `mps`: the MPS format. Parsing yields a model that keeps every number as
    the literal that spells it; the contract of `parse_str` states the whole
    grammar, every error message and the line it is reported on. Gzipped
    input is decompressed with `flate2`.
  - `csr`: sparse matrices and their transpose (a counting sort), with the
    law that transposing twice gives each row back ordered by column.
  - `transport`: optimal-transport instances: presets, names and the
    incidence matrix.
  - `matching`: the integer side of rounding a transport plan to a
    matching: candidate cabs, the residual graph of the min-cost flow and
    the uncrossing sweep.
  - `report`: the benchmark CSV (quoting and splitting), the known-optima
    file and the markdown report.
  - `gpu`: dispatch geometry, the binding-size guard and error messages.
  - `problem`: solver outcomes and dimension checks.
- `app/` is the command-line tool around it: file I/O, argument parsing, and
  everything that computes in floating point (the PDHG solver, scaling,
  residuals, certificates, masses and costs, matching costs).
- `tests/` runs the library on concrete inputs.

What Verus takes on trust is three small wrappers: `String::from_iter`,
`std::str::from_utf8` and `flate2`'s gzip decoder.
