# dns_blocker

A DNS sinkhole. It answers queries for blocked domains itself, with the
unspecified address, and forwards all other queries to upstream resolvers.
The list of blocked domains is fetched from a published blocklist and
refreshed on a schedule; domains can be blocked or let through by hand, and
those overrides hold across refreshes. An HTTP interface on port 3000 changes
the overrides and the list sources and reports query statistics.

Layout:

- `src/` is the verified library:
  - `dns`: parsing a query's header and first question, and building the
    blocked and SERVFAIL answers.
  - `resolver`: what to do with one incoming query.
  - `blocklist`, `list_text`, `domain_set`: the blocklist, the list text
    format, and the sets of overrides.
  - `server`: the decisions behind the HTTP requests.
  - `analytics`: day boundaries and batching of the query statistics.
  - `text`: UTF-8 decoding, string building and string order.
- `app/` is the program around it: sockets, HTTP, the SQLite statistics and
  the configuration file.
- `tests/` holds the tests.
