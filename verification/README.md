# unipn

A library of Petri-net models and analyses, written in Verus: every function
in `src/` carries a `requires`/`ensures` contract that Verus proves.

## Models

- `pt`, `model`, `marking`: place/transition nets with arc weights and
  capacities, their builder and markings.
- `timed`: priority-timed nets (firing intervals, priorities, clocks).
- `cvn`, `color`, `guard`: colored verification nets with typed tokens,
  token multisets, guards and arc expressions.
- `ids`, `bug`, `text`, `error`, `export`, `netmodel`: identifiers, node
  kinds, string helpers, errors and the exported net description.

## Analyses (`src/analysis`)

- `pt_graph`, `pt/reachability`, `state_space`, `generic`: explicit
  reachability graphs, with state limits, deadlock detection, shortest
  paths and partial-order reduction with sleep sets.
- `boundness`: Karp–Miller coverability with ω-acceleration, reporting
  bounded nets, unbounded places with a pumping witness, or a state limit.
- `pt/reduce`: structural reduction (intermediate places, simple loops)
  on a graph that records which original nodes each node stands for.
- `timed`: difference-bound matrices (closure, future, reset, freeze,
  intersection, normalisation) and the state-class graph of a timed net.
- `invariants`: place and transition invariants, the integer kernel of
  the incidence matrix, computed with arbitrary-precision integers.
- `cvn`: deadlock search on colored nets.

Each module states its laws as public proof functions beside the code.

## Layout

- `src/`: the verified library.
- `tests/`: tests of the library on concrete nets.
- `app/`: unverified glue for what Verus does not take (serialisation
  derives, error display, DOT output, floating-point helpers).
