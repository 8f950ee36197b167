# cuelight

A deterministic discrete-event simulator for distributed systems, written in Verus. The harness is
the network: nodes are separate processes speaking JSON lines, and the harness owns logical time,
routes every message, injects faults and writes a journal of everything that happened. A run
replays exactly from its scenario.

## Layout

- `src/` is the library, verified. Four small functions there call the standard library and are
  trusted, not proved: appending a character to a string, a path's file stem, joining two paths,
  and quoting a string as `{:?}` writes it. Each states what it claims in its doc comment.
  - `rng`: the SplitMix64 stream the draws come from.
  - `scenario`, `draw`, `render`, `validate`: spaces, spans and scenarios; the draw of a scenario
    from a seed and a space (`draw_plan`, then `resolve`), stimulus templates, and what makes a
    space meaningful.
  - `sim` and `machine`: the simulator, and the state machine over values it is held to. `Sim::next`
    takes one decision and says what the caller must do; `Sim::stepped` and `Sim::failed` hand back
    what a node did.
  - `journal`, `proto`, `node`, `json`: the journal's lines, the envelope, a node's failures, and
    JSON values with their canonical form.
  - `suite`, `checkers`, `viz`: reading a journal back, the lab checkers, the suite's options and
    verdicts, and the sequence diagram.
  - `text`, `words`: strings, decimal and hexadecimal text, lines and words.
- `app/` is the command line around the library: processes, files, JSON text through serde, the
  floating-point placement of roots in time, and printing.
- `tests/` drives the library from outside, the simulator included, with stand-in nodes.
