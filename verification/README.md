# gamerobotfactory

A factory game server in which four-legged robots work a conveyor line.
The simulation core is written in Verus: every tick, path, job assignment
and client delta is computed by verified code whose contracts state the
result exactly.

## Layout

- `src/` — the verified library.
  - `cells`, `grid`: cells, cell sets and maps, the factory floor.
  - `pathfind`: shortest paths around walls and occupied cells.
  - `sim`: robots, wear and repair, planning, move resolution, and `tick`.
  - `belt`: products moving along the conveyor through assembly stations.
  - `logistics`: the helpers' job queue and deliveries.
  - `game_state`: the operator's commands (conveyor, helper count,
    selection, arm actions, repairs) and snapshots.
  - `protocol`, `delta`: the wire vocabulary and per-tick deltas.
  - `session`: reconnect grace periods. `config`, `events`, `gait`: runtime
    configuration, failure events, leg identifiers.
- `tests/` — tests of the library.
- `app/` — the server program: the 20 Hz tick loop, axum WebSocket and REST
  endpoints, JSON encoding, SQLite persistence, Prometheus metrics, and the
  floating-point rendering helpers (arm IK, posture, gait phases).

## Running

The server binds to `GAMEROBOTFACTORY_BIND_ADDR` (default `127.0.0.1:0`),
prints `LISTENING_PORT=<port>`, and keeps its history in the SQLite file
named by `GAMEROBOTFACTORY_DB_PATH` (default `gamerobotfactory.sqlite3`).
It serves the client's files from `GAMEROBOTFACTORY_STATIC_DIR` (default
`client/dist`); a missing directory only makes those requests 404.
