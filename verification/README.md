# ollamux

A key-rotating reverse proxy for the Ollama Cloud API, with its decisions
verified in Verus. Several API keys serve behind one local endpoint: requests
go to the least loaded key that is up, each key runs no more requests at once
than it may, and a request whose key is rate-limited, rejected or failing moves
to another key before anything reaches the client.

## Layout

`src/` is the library. It does no I/O: times come in as nanoseconds, and bytes
come in and go out as values.

| Module     | What it decides                                                      |
| ---------- | -------------------------------------------------------------------- |
| `pool`     | Slots, queues and health of the keys; admission, with affinity       |
| `model`    | The same as mathematics: states of a pool and how they follow        |
| `laws`     | What holds of every pool and every history of one                    |
| `exchange` | One proxied request: attempts, failover, verdicts on upstream errors |
| `affinity` | Conversation identities, and the bounded map that pins them to keys  |
| `usage`    | Usage figures: rows, snapshots, and when to fetch new ones           |
| `config`   | The keys file: where it is and what it says                          |
| `cli`      | The command line                                                     |
| `proxy`    | Routing, error bodies, addresses and sizes                           |
| `headers`  | Which headers cross the proxy, and which it adds                     |
| `framing`  | Heads and chunks of streamed responses                               |
| `json`     | JSON, through `serde_json`                                           |
| `text`     | Strings and numbers as text                                          |

`app/` is the program around it: sockets (`tiny_http`, `ureq`), threads,
signals, the clock, files, and the JSON that `serde` derives. `tests/` runs the
library, with a scripted upstream where a whole request is at stake.

## What is trusted

The functions marked `external_body` in `json` and `text`, which call
`serde_json`, `format!` and `String::from_utf8_lossy`, and the specification of
`String::push` in `text`. Each says in its comment what is claimed of the
function that it calls.
