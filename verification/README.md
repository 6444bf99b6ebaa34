# http_server

A small HTTP/1.1 server library whose request parsing, request reading and
response formatting are verified with Verus, and a program around it.

- `src/` is the verified library:
  - `text.rs`: character-level rules (Unicode whitespace, words, CRLF
    pieces, lines, ": " splitting, ASCII case-insensitive comparison,
    decimal numbers).
  - `headers.rs`: header maps with one entry per name.
  - `request.rs`: parsing a raw request into method, path, version and
    headers, with `parse_request` as its specification.
  - `written.rs`: requests written out as text parse back to their parts.
  - `response.rs`: formatting responses.
  - `reader.rs`: deciding, line by line, how much of a connection makes up
    one request (header lines, then the Content-Length body).
  - `server.rs`: routing, the answer to refused requests, and whether a
    connection is read on.
  - `stdcalls.rs`: the few standard-library calls whose contracts are taken
    from its documentation.
- `app/` is the program: it listens on `127.0.0.1:8080`, does the reading,
  writing and waiting, and serves each connection on a Tokio runtime.
- `tests/` runs the library on concrete requests.
