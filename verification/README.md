# evade-proxy

A DNS proxy for networks whose operator cuts off single IP addresses. Addresses
of an anycast range are shared by many sites, so that a blocked one takes down
sites that nobody meant to block. The proxy stands between clients and a
validating resolver and rewrites the answers: a blocked address of a rewritable
range becomes a free neighbour of the same range, in A and AAAA records as in the
address hints of HTTPS and SVCB records. Domains outside these ranges can be
pinned to a verified address by a redirect.

`src/` is the library. It is written in Verus, and what its functions do is stated
in their contracts and proved. `app/` is the program around it: sockets, files,
the environment and the clock. `tests/` holds tests of the compiled library.

| Module | What it holds |
|:---|:---|
| `bytes`, `text` | big-endian fields; characters, lines, words and decimal numbers |
| `address`, `ranges` | IP addresses and prefixes as text; merged ranges and lookup |
| `wire`, `slots` | names, questions and records of a message; the addresses in it |
| `evasion`, `lists` | blocklists, rewritable ranges and free neighbours; the list files |
| `redirects` | domain rules, with expiry for those that the probe sets |
| `rewrite`, `effects` | how a message is rewritten; what that does and does not touch |
| `proxy` | the state of the proxy and what becomes of each answer |
| `counters`, `metrics`, `http` | the totals, the metrics page and the response around it |
| `config`, `limits` | command line and environment; bounds on the queries in flight |
| `exchange`, `maintenance` | when a TCP query is retried; what happens every second |

Functions whose name starts with `law_` state what holds of the library as a
whole: that rewriting is in place, that it never raises a TTL, that no blocked
address with a free neighbour is left, that a redirect ends with its expiry.

Points in time are kept as the bits of a double (`Timestamp`), since expiries and
counters are doubles in the files; reading and writing these as text is left to
`app/`.
