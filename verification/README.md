# tunnel

A small toolkit for an HTTP tunnel: a proxy server that parses one request per TCP
connection, a port scanner, a round-robin reverse proxy and a test client.

- `src/` is the library, verified with Verus:
  - `text.rs`: whitespace, splitting on `"\r\n"`, on a character and on whitespace,
    trimming and searching, each specified over `Seq<char>`;
  - `proxy/http.rs`: HTTP versions and methods, request parsing from bytes, and the
    request rewritten for the backend (hop-by-hop headers removed);
  - `proxy/error.rs`: the errors of parsing and I/O;
  - `proxy/laws.rs`: properties across functions, among them that the request sent to
    the backend parses back into the request it came from;
  - `port_scanner.rs`: the port-list syntax (`22,80,8000-8010`) and the report figures;
  - `reverse_proxy.rs`: round-robin backend choice and the forwarded request's address.
- `app/` is the executable: sockets, timeouts, the HTTP client and server, command-line
  parsing and JSON output. `tunnel` runs the proxy server; `tunnel client`,
  `tunnel port-scanner HOST PORTS` and `tunnel reverse-proxy --backend ADDR` run the
  other tools.
- `tests/` exercises the library on concrete inputs.
