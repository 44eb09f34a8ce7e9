# atemporal

The rules of a deterministic, turn-planned robot strategy game, written in Verus and proved
against their contracts.

Players plan turns against a published revision of the world. A turn is a draft of commands
that may address ticks in the past of the current history; the server admits it, and the
simulation applies each command at its tick, where future-order locks decide whether an older
round may still overwrite an order that a newer round gave.

## Layout

- `src/` — the verified library.
  - `types.rs`, `safe.rs`, `text.rs`: interchange records, bounded integers, string helpers.
  - `locks.rs`: future-order locks — which writes a lock blocks, their canonical stored form
    and installing a new lock.
  - `draft.rs`, `commit.rs`, `admission.rs`: a turn draft's structure and local references,
    the checks before admission, and admission against the locked world.
  - `orders.rs`: applying committed commands — order delivery under locks, control groups,
    factory settings and production queues, placing, configuring and cancelling blueprints.
  - `identity.rs`: causal identities of blueprints, structures, queue items and births, and
    the round's player precedence.
  - `lobby.rs`: slots, profiles, teams, connections and the roster that pins the mode.
  - `scoring.rs`, `scoreboard.rs`, `timed.rs`: sides, round scoring and timed adjudication.
  - `timeline.rs`: the coarse per-player activity index.
  - `geometry.rs`, `map.rs`, `distance.rs`, `cave.rs`, `corridor.rs`, `terrain.rs`, `ore.rs`:
    map symmetry, start layouts, distance fields, cave smoothing, connecting corridors, terrain
    assembly and ore placement.
  - `guide.rs`, `missiles.rs`: rules-guide text and missile launch plans.
  - `config.rs`, `content.rs`: match configuration checks and content normalization.
  - `fields.rs`: the pieces movement is built from — legal steps, distance fields and their
    cache, descending a field, local detours, committing and failing a move, line of sight,
    move ranks, choosing a blueprint and the nearest ore.
  - `motion.rs`: the movement step of a tick — each unit's next step, the steps tried in rank
    order, displacement of friendly units and refused moves.
  - `survival.rs`: elimination and its transitions.
  - `history.rs`: which stored snapshots and statistics samples answer a range request.
  - `resume.rs`: resuming a match from its round records — refusing other content, and the
    phase, round, boundary, winners and planning-time totals taken back — and the bookkeeping
    a published round leaves.
- `tests/` — tests of the library.
- `app/` — a command-line map generator: the floating-point noise and caving, the float
  score weighting and missile flight, and serialisation.
