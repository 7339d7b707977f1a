# hari_core

The verified core of Hari, an epistemic substrate for autoresearch systems:
the ledgers, scorers and protocol decisions around its belief tracking,
written in Verus with every public function specified and proved.

## Layout

- `src/` — the library:
  - `text`, `keymap`, `json` — string order, a sorted string-keyed map, and
    JSON values with the observable path syntax.
  - `forecast`, `chronology` — canonical UTC timestamps (and the proof that
    their string order is time order), forecast resolution, the ledger's
    last-record-per-id rule, version-7 ids.
  - `operator_model` — the operator-signal registry folded from its log.
  - `research` — research events, actions and recommendations.
  - `metrics`, `unassisted`, `divergence` — replay metrics, the no-policy
    baseline arm, and action divergence between arms.
  - `paired_eval`, `bootstrap`, `corpus` — paired decision scoring against
    authored ground truth, the trace-clustered bootstrap tallies, and the
    corpus and kill/keep rules.
  - `reliability`, `source_reliability`, `calibration` — agent, source and
    forecast-calibration tallies.
  - `protocol`, `session`, `lineage` — the streaming session state machine
    and small session and lineage helpers.
- `tests/` — scenario tests and concrete checks of the laws.
- `app/` — the `hari-core` command line: file ledgers, reading files and
  writing JSON, and the floating-point arithmetic of the reports (their
  ratios and the Brier scores). Artifact text is handed to the library as
  read; the library parses it with `serde_json`.

Numbers that are ratios in the reports are kept as exact integer tallies
in the library; the command line divides them.

The cognitive loop (the belief network, swarm messaging, and the `replay`,
`compare` and `serve` commands and the substrate demo built on them) is in
neither the library nor the command line: it rests on the `hari_lattice`
and `hari_swarm` crates, which are not available to this build. The command
line refuses `replay` and `serve` for that reason. The library holds the
decisions around the loop (scoring, bootstrap tallies, corpus checks, the
kill/keep rule and its rationale, the session protocol) and takes the loop's
outcomes as plain values. The floating-point parts that only the loop's
replay would reach (the subjective-logic arm's opinion fusion, the
Lie-algebra model, the bootstrap interval and p-value, the rendered
kill/keep narrative) are not carried, since nothing here could call them.
