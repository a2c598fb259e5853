# spyglass

The verified core of an incident-evidence engine, of the terminal-shaped
baseline tools it is measured against, and of the deployer that guards the
one mutating action (rollback). The functions under `src/` are proved by
Verus against their `requires` / `ensures`, except the small trusted
wrappers around outside calls (marked `external_body`), whose contracts are
taken as given; the laws the library promises are public proof functions
named `law_*`.

## Layout

- `src/` — the library, one module per concern:
  - `events`, `store`, `ingest`, `lines`, `drain`, `identity` — tailing log
    files line by line, reading a line as an event, template identity;
  - `search`, `tools`, `deploys`, `recovery`, `checks`, `changepoints` —
    the evidence tools and the recovery check;
  - `bundle`, `rank` — evidence bundles (cascades, origins, coverage, the
    onset estimate, the kind-diverse head);
  - `replay`, `sanitize`, `body` — choosing, sanitizing and planning the
    replay of a captured request;
  - `investigation`, `digest` — per-investigation budgets, evidence ids,
    the result digest that ignores them, and the per-item size cap;
  - `rawtools` — what the baseline's tail / grep / metrics / journal tools
    return;
  - `deployer` — proposals, approval and rollback with their journal;
  - `text`, `time`, `config` — shared text helpers, time and configuration.
- `tests/` — tests of the library on concrete values.
- `app/` — the deployer's command line and MCP server, a one-shot log
  ingest, file I/O, the JSON conversions, and the scoring arithmetic on
  floating point numbers.

Calls into `regex`, `sha2`, `chrono`, `uuid` and std's Unicode tables stand
behind small trusted wrappers whose contracts name what the outside code
returns.
