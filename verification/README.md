# concorde

Units of measure with exact rational exponents, two readers of unit
expressions (`kg * m^2 / s^2`, `m^(3/2)`, `kg s`), a registry of defined
units, and Python bindings for units, quantities and values with correlated
uncertainties.

- `src/` is the library, verified with Verus: natural numbers of any size
  and rationals over them, the unit algebra and
  its laws (products, quotients, powers, dimensions), the tokenizer and Pratt
  parser, the combinator reader, the registry and the resolution of entries
  of a unit definition file.
- `app/` is the Python extension module `_concorde` (pyo3, numpy): the
  floating-point parts (scale factors, conversions, quantities, uncertain
  values), TOML loading, and the bindings.
- `tests/` holds the tests of the library.
