# clubbench

A deterministic, headless football-management benchmark environment: an
agent manages one club through a season, deciding at every matchday,
transfer offer and transfer-window market day.

The decision logic is a Verus library (`src/`), proved against contracts:

- `rng` — FNV-1a sub-stream seeds and the episode generator's state, with
  the laws that selecting a sub-stream ignores history and does nothing
  without an episode seed.
- `model` — the plain snapshot of the game state the logic reads.
- `env` — observation of the managed club, league-table position, lineup
  and play-style changes, scenario budgets, ages from dates.
- `episode` — the decision-cadence episode: when the environment stops,
  what the agent sees (offers, market shortlist, scout reports), how an
  action changes the game, and the loop that runs a policy to the horizon.
- `agents`, `episode_agents` — the baseline agents and policies (greedy
  best XI, group-filling random XI, the offer rule of the automated
  manager).
- `world` — club strength ranking, club picking, and the per-nation
  division plan.
- `run`, `score`, `text` — episode results, scoring dimensions, and the
  text sorting behind world fingerprints.

`app/` is the command line (`gate0`, `cadence`, `headless`) around the
library: it builds worlds with the game engine, runs engine days, performs
transfers and scouting, and prints reports. The engine crates are part of
the wider game and are not vendored here.

`tests/` exercise the library on concrete values.
