# libsstadex

A library for describing analog circuits from primitive blocks and macros,
rendering them as SPICE netlists and small-signal netlists, and building the
symbolic modified nodal analysis (MNA) of a netlist. Every function in `src/`
is verified by Verus, except three small wrappers around the standard
library (upper-casing a character, lower-casing a string, displaying a
path), whose bodies Verus takes on trust; the first two state their result
through a named function, the third states nothing of it.

Layout:

- `src/text.rs`: string helpers with their specifications (trimming,
  splitting, joining, decimal numbers, a total order on text).
- `src/primitive/`, `src/catalog/`: primitive manifests and the primitive
  catalog.
- `src/circuit/`: circuits, instances, connections and their validation.
- `src/netlist/`: circuit netlists and small-signal netlists.
- `src/macro_model/`: macros, the macro catalog, macro validation (with the
  search for dependency cycles), subcircuit and small-signal rendering.
- `src/mna/`: symbolic MNA of a netlist, SPICE node numbering, the solver's
  input and output, printing of the system.
- `src/analysis/`: transfer functions and the structured output of an
  analysis.
- `src/exploration/`: testbenches, the depth-first exploration of the macro
  hierarchy (against an oracle that evaluates and resolves), the plans by
  which sub-macro conditions and candidate columns are named, and the
  shape of candidates and tables (grids, combinations, rows from columns,
  masks), generic over the values they carry.
- `app/`: the command-line program, file and process work, the JSON
  formats, and the floating-point side of exploration (candidates, tables,
  conditions, expressions), which the library does not hold.
- `tests/`: tests of the library.
