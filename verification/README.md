# codexmanager

The routing, bookkeeping and protocol logic of the CodexManager gateway and
desktop shell, written in Verus with its contracts proved.

- `src/` is the verified library: conversation-to-account binding and
  candidate rotation, request concurrency gates, the table of requests in
  flight and its dashboard snapshot, the websocket history rebase after an
  account switch, the account test protocol (ids, events, SSE decoding,
  redaction), the account test event stream, request-log parameters, cost
  estimation, session affinity headers, client IP attribution, backend
  routing and updater bookkeeping. Calls into `sha2`, `semver`, `url`,
  `rand` and `reqwest` stand behind small trusted wrappers whose contracts
  are stated next to them.
- `tests/` runs the library on concrete values.
- `app/` is the service around it: locks and process-wide state, HTTP
  servers, threads, files, and the serialized forms of the library's values.
