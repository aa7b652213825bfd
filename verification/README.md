# apaseh

A pre-forking HTTP server with static files, a response cache and a reverse
proxy. The request-handling logic is a Verus library whose behaviour is stated
in `requires` / `ensures` contracts and proved.

- `src/` — the verified library: text utilities, ordered headers, HTTP request
  and response handling, configuration parsing, proxy rules and backend
  request/response handling, the LRU response cache, the buffer pool, file
  path resolution and the master's and workers' decisions.
- `app/` — the program around it: command line, logging, sockets, `fork`,
  signals, file reads and the async event loop, which call the library for
  every decision.
- `tests/` — tests of the library on concrete values.

Headers are held in `headers::Headers`, a vector of name/value pairs in
insertion order in which `insert` replaces the value of a present name, in
place of a `HashMap<String, String>`; the set of header names already
forwarded by the proxy is likewise a `Vec<String>`. Verus proves nothing of
a `HashMap` or `HashSet` keyed by `String` (its specifications need a key type
whose hashing and equality it knows), and a map whose order depends on a
per-process hasher could not be stated exactly; the vector keeps one entry per
name, which is the map's contract, and fixes the order that headers are sent in.
