# fleet_spread

Analysis of a fleet's trust graph: agents are vertices, trust links are
edges. The library computes the graph's topology (components, the Betti
number β₁ = E − V + C, a cycle basis, Laman's rigidity counts), states the
topological and systems findings on it, selects which specialist to consult,
and applies the claim logic of the synthesis layer and of the captain
(contradictions, tensions, blind spots, robust claims, safe actions, the kind
of a decision).

## Layout

- `src/` — the verified library. Every function carries a `requires` /
  `ensures` contract over spec models (`GraphView`, `Seq`, `Set`) and is
  proved by Verus. Public `law_*` proof functions state properties that hold
  across operations.
  - `graph`, `connectivity`, `cycles`, `betti` — the graph model, depth-first
    components, the cycle basis (one cycle per edge that closes one, β₁ of
    them when every node is listed once) and redundant edges, β₁ ≥ 0.
  - `topological`, `systems`, `report` — the two graph specialists' findings.
  - `text`, `claims`, `synthesis`, `quality`, `captain` — claim text and the
    rules that compare, group and judge claims.
  - `gate` — specialist selection; `bridge` — conversion from and checks on
    a `fleet_coordinate` graph, through trusted wrappers; `tiles`,
    `algebraic` — names and settings.
- `app/` — the command-line program around the library: input and output,
  JSON, the floating-point scores and confidences, and the specialists whose
  analysis is floating point throughout.
- `tests/` — tests of the library on concrete graphs and claims.
