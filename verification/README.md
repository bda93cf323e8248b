# custom_tcp_listener

A small HTTPS request router. Routes are registered under path templates such as
`/users/:id:/posts/*`; each template becomes a regular expression with one named group per
`:name:` parameter. A request is routed to the matching route whose template has the most
segments (the first registered one on a tie), and handed to its handler with its method,
path, body, headers and path parameters.

Layout:

- `src/` — the library, verified with Verus:
  - `method.rs` — request methods and the helpers that pair a handler with one;
  - `template.rs` — turning a template into its pattern and parameter names;
  - `pattern.rs` — compiled patterns (the `regex` crate);
  - `router.rs` — the routing table and route selection;
  - `request.rs` — parsing a request head (`httparse`), headers (`http`), body length;
  - `dispatch.rs` — routing one request from the bytes read;
  - `response.rs` — writing a response out as bytes;
  - `decoration.rs`, `text.rs` — the shared decoration value and string helpers.
- `app/` — the TLS server (`tokio`, `tokio-rustls`, `rustls`): accepting connections,
  reading requests and running handlers.
- `tests/` — tests of the library on concrete values.
