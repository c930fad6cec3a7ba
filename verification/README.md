# http_server

A small HTTP server library with verified contracts.

- `src/text.rs`: searching, splitting, trimming, line breaking, decimal numbers
  and UTF-8 byte lengths over character sequences.
- `src/request.rs`: parsing a request (request line, `%`-escapes in the path,
  `Host:` and other headers), header lookup, matching a path against a route.
- `src/response.rs`: status, headers, route variables and the framed text sent.
- `src/file.rs`: the files the server serves, with their text where UTF-8.
- `src/lib.rs`: methods, statuses, and the server: routes, handlers and the
  choice of route for the bytes read from a client.
- `app/main.rs`: the program that reads files, listens on TCP and runs handlers.
