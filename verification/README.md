# tunnel_core

The decision logic of an edge tunnel node, a Cloudflare Worker that takes
VLESS, Trojan and Shadowsocks streams over WebSocket, written in Verus with
its behaviour stated in contracts and proved. The library frames the
protocols' request headers and decides where each stream goes; the stream
processor that reads a connection and relays it is not part of this crate,
so `app/` accepts the WebSocket and stops there.

- `src/` — the verified library:
  - `decimal`, `text`: number and string handling with the meaning std gives
    `parse`, `to_string`, `trim`, `split_once`, `rsplit_once`, `split`,
    `replace`, `eq_ignore_ascii_case`;
  - `relay_kv`: the relay list (country code → `host:port` entries), its JSON
    form, lookups and the round-robin selection of a liveness sweep;
  - `tunnel`: which relay a tunnel request ends up with;
  - `check`: the `/check` and `/check/single` query handling and probe verdicts;
  - `routing`: request routing and relay-list caching decisions;
  - `config`: the tunnel settings and the node UUID;
  - `proxy`: protocol header framing and relay probe results.
- `tests/` — tests of the library on concrete values.
- `app/` — the Worker around it: HTTP, KV, sockets, timers, JSON; no
  stream relaying.
