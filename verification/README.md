# dsuni

A modular constraint solver — SAT, SMT (QF_UF, with an LRA theory), LP,
MILP, CP and MINLP — whose core is verified with Verus.

## Layout

- `src/` — the verified library.
  - `common` — variables, sorts, configuration, errors, statistics.
  - `linear` — exact rationals, linear expressions, bounds, constraints,
    linear systems and their text forms.
  - `lp` — the two-phase simplex method on an exact tableau.
  - `cp` — integer domains, propagators and backtracking search.
  - `sat` — literals, clauses, the trail, watch lists and the CDCL core
    (propagation, conflict analysis, backtracking).
  - `smt` — theory literals and formulas, the Boolean abstraction,
    congruence closure for uninterpreted functions, the LRA theory, and the
    Boolean side of CDCL(T).
  - `parser` — DIMACS, the LP text format, SMT-LIB and the CP text format.
- `tests/` — tests of the library.
- `app/` — the command-line program and the parts that work on floating
  point: the VSIDS branching loop of the SAT and SMT searches, branch and
  bound for MILP, the MINLP relaxation, float-valued models and results, and
  the Python bindings.
