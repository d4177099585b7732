# Terrarium

A deterministic, replayable synthetic-world simulation core, verified with Verus.

> An event says **what happened**. Effects say **what changed because it happened**.

A `Simulation` coordinates a `WorldState` (latent truth) and a `Run` (durable
history: events, observations, agent actions and snapshots). Every meaningful
change is an event carrying explicit `StateEffect`s, so any recorded state can be
rebuilt from a snapshot by applying recorded effects in order, and a
counterfactual branch can fork from an exact event cursor.

## Layout

- `src/` — the verified library.
  - `simulation.rs`: the lifecycle (advance, scheduled events, observations,
    agent steps, branching), each operation specified as a function of the
    simulation's mathematical value.
  - `world.rs`, `effect.rs`, `event.rs`, `person.rs`, `person_map.rs`: the latent
    world and what effects do to it.
  - `replay.rs`: the run, reconstruction by time and by cursor, causal chains,
    branching of histories, the unified timeline and its validation.
  - `consistency.rs`: the replay guarantee — every operation keeps the history
    consistent with the world, and replaying a consistent history at the
    current time (applying the recorded effects to the latest snapshot's
    world) gives exactly the current people, locations and time, for any
    sequence of calls; branches are consistent too.
  - `sequencing.rs`: every record takes the next trace sequence, so runs (and
    the branches forked from them) stay valid for export.
  - `time.rs` (durations and their syntax), `rng.rs` (the deterministic
    generator), `binary32.rs` (psychological quantities held as IEEE-754
    binary32 encodings; addition is done by `rustc_apfloat`), `experiment.rs`.
- `tests/` — executable tests, including concrete instances of the laws.
- `app/` — the demonstration program: runs a small scenario, prints the trace,
  and writes the run as versioned JSON (`terrarium-run.json`) through serde
  copies of the history types.
