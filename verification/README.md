# rustgate

A web application firewall: a reverse proxy that looks at every request by a set of
rules, and passes it on to a backend or refuses it.

The library under `src/` holds what the firewall decides. It is written in Verus: each
function states in its contract what it returns, and the proofs are checked. The program
under `app/` is ordinary Rust around it: sockets, TLS, files, JSON and the dashboard.

| module | what it decides |
|---|---|
| `config` | rules and limits |
| `decode` | URL decoding, control bytes |
| `matcher` | the pattern matchers, through `aho-corasick` and `regex` |
| `engine` | normalisation, matching, scores, verdicts |
| `headers` | framing of requests, headers of one connection |
| `forward` | what goes to the backend |
| `addr`, `proxy` | addresses, networks, trusted proxies, the address of the client |
| `limiter` | token buckets |
| `block` | blocked addresses |
| `bus` | alerts and counts |
| `gate` | the way of a request from its arrival to its answer |
| `body` | the start of a body |
| `api` | the management API |
| `cli`, `settings` | command line and settings |
| `tls` | the certificate and the key to listen with, through `rustls-pemfile` |
| `audit`, `reload` | the audit log, new rules while the program runs |
| `clock`, `table`, `text` | moments, a table by text, text |

Functions that need the time come in pairs: `check_at` takes the moment as an argument
and is stated exactly, `check` reads the clock and calls it.

Laws that relate several functions are public proof functions whose names start with
`law_`.

Calls into other crates, and into parts of `std` that Verus does not know, stand behind
functions marked `external_body` or `assume_specification`, in `matcher`, `headers`,
`tls`, `text` and `clock`; the comment above each says what is believed of it.
