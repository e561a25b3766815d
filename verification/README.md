# logwise_runtime (verified core)

The verified core of the logwise observability runtime, written in Verus.

- `src/` — the library, every item verified:
  - `model` — the facade data model (privacy and detail tiers, severities,
    call-site metadata, borrowed values, context and span tokens, interest
    masks);
  - `text` — UTF-8 boundary arithmetic and small string helpers;
  - `wire` — the `logwise_v1` binary envelope encoder and transport;
  - `parser`, `lformat`, `macros`, `legacy_macros`, `dlog` — the logging
    macros' front end: token model, `key = value` arguments, format-string
    scanning and code generation;
  - `sinks` — owned copies of projected events, the bounded in-memory sink
    and the state machine of the asynchronous sink;
  - `flight` — the sharded flight recorder and its reads;
  - `runtime` — context storage, TTL activations and span timing;
  - `foreign`, `compat` — foreign-text quarantine and the `log`/`tracing`
    bridges.
- `tests/` — executable tests of the library.
- `app/` — the unverified shell: locks, threads, clocks, standard streams,
  panic hooks, and the `log`, `tracing` and proc-macro entry points.
