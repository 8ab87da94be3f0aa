# open_runo

The core of the open-runo gateway and view layer, written in Verus: the
functions under `src/` carry `requires`/`ensures` contracts that Verus
proves, and the laws the library keeps are public proof functions.

## Layout

- `src/` — the verified library.
  - `rustjson` — the lenient JSON dialect (comments, trailing commas,
    unquoted keys, single quotes): a byte-level grammar, the parser proved
    equal to it, the strict writer, and path extraction. `strict_law`
    states RFC 8259's grammar and proves that every strict JSON text parses
    to the same value; `key_order` proves that parsed objects hold their
    members in key order; `json_law` proves that written text is strict
    JSON and parses back to the value it was written from.
  - `vdom`, `diff`, `patch_law`, `render`, `ssr`, `hooks` — virtual DOM
    nodes, the reconciling diff, the laws that its patches fit and rebuild
    the new page and that an unchanged tree needs none, HTML rendering and page templates, and the decisions of the hook
    runtime.
  - `http`, `route`, `multipart`, `ws`, `grpc`, `middleware` — percent and
    query decoding, SSE and WebSocket handshakes, route matching, RFC 7578
    multipart bodies, WebSocket frames, gRPC framing, varints and the
    health/reflection messages, CORS, compression and rate-limit gates.
  - `mcp`, `validation`, `openapi` — the JSON-RPC decisions of the MCP
    endpoint, request-body validation against the JSON Schemas the
    library holds (with `jsonschema`), and the OpenAPI document of the REST
    surface.
  - `store`, `session`, `security`, `auth`, `acme` — string-keyed tables,
    sessions with CSRF tokens, API keys, the fixed-window rate limiter,
    authentication decisions, and ACME helpers (challenge store,
    key authorizations, JWK thumbprints, TLS-ALPN-01 certificate content
    and the choice of certificate per connection).
  - `text`, `buf` — string and byte-buffer helpers, and the trusted
    specifications of the std and `bytes` calls they make.
- `tests/` — tests of the library on concrete values.
- `app/` — the server around the library: hyper/tokio plumbing, Redis and
  JWT backends, the ACME client, the browser DOM mount and the hook
  runtime.

Times inside the library are microseconds since the Unix epoch (`i64`);
the callers in `app/` read the clock and hand the value in.
