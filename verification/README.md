# zeroclaw

The agent task queue of zeroclaw and the logic around it, verified with
Verus: the per-agent queue (pending → processing → done | failed), the
`queue_enqueue` hand-off tool, the drain loop's prompt and steps, the
`tasks.md` reader, patcher and drift audit, workspace identity hydration,
Mission Control signals, and the chat WebSocket's decisions.

## Layout

- `src/` — the verified library.
  - `queue.rs`: the queue table and every query and update on it;
    `queue_laws.rs`: laws tying those operations together.
  - `tasks.rs`: `tasks.md` parsing, patching and the audit against the
    queue; `tasks_laws.rs`: what a patched file reads back, that `--sync`
    removes drift, and that a hand-off is found and guarded.
  - `drain.rs`: the drain prompt and the drain run's state machine.
  - `enqueue_tool.rs`: the `queue_enqueue` tool.
  - `identity.rs`: which files seed which memory entries, and the plan of a
    hydration pass.
  - `mission_control.rs`: endpoints, payloads and the event → signal map.
  - `ws.rs`: sub-protocol, model routes and chat frames.
  - `text.rs`: text operations (trimming, lines, splitting, searching)
    stated over `Seq<char>`.
  - `clock.rs`: item ids and timestamp text, taken from `chrono`
    and `uuid` behind trusted wrappers.
- `tests/` — tests of the library on concrete values.
- `app/` — the runtime around it: the clock, the SQLite store, the CLI commands, the
  HTTP client and observer, the WebSocket framing, hydration over the file
  system and the tool's JSON interface.
