# coverage_gap

A topological test-coverage analyzer: it reads `llvm-cov export` coverage,
turns functions into points of a six-dimensional feature space, joins close
points into a Vietoris-Rips complex and reports its Betti numbers (β₀
components, β₁ holes, β₂ voids) with a prioritized list of uncovered
features. Beside it live the editing-style tracker (ternary edit signals and
style species) and the CAPABILITY.toml reader of the agent-assisted coding
tools.

Layout:

- `src/` — the library, verified with Verus:
  - `text` — character-level string helpers (trimming, splitting, decimal
    numbers);
  - `parse` — coverage data, function and region extraction from segments;
  - `gf2` — column rank over GF(2);
  - `components` — connected components with union-find;
  - `simplicial` — feature vectors, the complex, Betti numbers, the median
    distance behind the adaptive threshold;
  - `report` — gap entries, priorities and the rendered gap list;
  - `plugin` — coverage file discovery and inline annotations;
  - `ternary` — edit signals, the sliding-window tracker, style species;
  - `agent_assist` — CAPABILITY.toml reading, workspace scanning, import
    degrees and dependency lists;
  - `suggest` — context keywords and where they occur in a manifest;
  - `conservation` — budget annotations in source code and their value
    texts.
- `tests/` — tests of the library.
- `app/` — the command line and everything that does I/O, JSON, or
  floating-point scoring (coverage percentages, gap score, adaptive
  threshold, edit ratios and entropy, relevance scores, reading budget values as
  numbers, spectral ranking).
