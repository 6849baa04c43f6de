# tla_studio

A verified library for modelling business processes as small TLA+ state
machines: it parses a stakeholder-readable subset of TLA+, lays the machine
out as a layered diagram, and holds the logic of a studio around it (walking
transitions, collecting comments, bundling source and comments for a
language model or an agent). Verus verifies everything in `src/`; every
public function carries a contract, and the laws of the library are public
proof functions.

## Layout

- `src/chars.rs`, `src/text.rs`, `src/grammar.rs`, `src/prose.rs` — character
  classes, text scanning, the recognisers of the grammar, comment stripping
  and white-space normalisation.
- `src/parser.rs`, `src/model.rs`, `src/order.rs`, `src/laws.rs` — the parser
  (`parse_tla`), the parsed model, sorting, and properties of every parse.
- `src/layout.rs`, `src/maps.rs`, `src/sweep.rs` — transitions grouped by pair
  of states, the preferred level width, spilling wide levels downward, and
  the barycentric ordering of states within levels.
- `src/graph.rs`, `src/ranking.rs` — the state graph in petgraph's
  `StableGraph` (the calls into petgraph are the trusted edge of the library),
  the depth-first edge classification, longest-path ranks and the
  breadth-first fallback.
- `src/dag_laws.rs` — why breaking cycles works: the walk's finish order,
  reversed, is a topological order of the graph with its backward edges
  turned around, so the longest-path ranks can always be had.
- `src/fit_laws.rs` — spilling leaves a layering that already fits as it
  is, and edges that go up or loop never pull a state down.
- `src/diagram.rs`, `src/layout_laws.rs` — the whole ranking pipeline and the
  properties of the layout.
- `src/studio.rs`, `src/session.rs` — hashes, decimal and timestamp text,
  comment bundles, walking the machine, comments, versions and themes.
- `app/` — a command-line front end: reads a specification and optional
  comments, prints the parse, the diagram geometry (in floating point) and
  the bundles, and can write the diagram as SVG.
- `tests/` — tests of the library on concrete values.
