# opencrab

The decision logic of the opencrab agent host, verified with Verus.

- `src/` is the library: alarms that agents set for themselves (`alarm`), the
  memory of one agent from rollout files to search (`ingest`, `render`,
  `distiller`, `prompts`, `embedder`, `search`, `consolidate`, `schema`), and the
  evaluation of both (`runner`, `rpc`, `fixture`, `assertions`, `corpus`,
  `scenario`, `cli`). `text`, `json` and `bignat` hold what the others share.
- `app/` is ordinary Rust around it: files, processes, SQLite, HTTP, web sockets
  and everything that computes with floating point.
- `tests/` runs the library on concrete values.

Functions state in `requires` and `ensures` what they take and give. What holds
of several functions together stands in public proof functions at the end of the
part of a module that it belongs to.
