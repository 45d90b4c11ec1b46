# ukuma

An uptime agent: it pings the configured hosts on an interval and reports one
aggregated heartbeat (status, message, latency) to a push endpoint, while
serving a small health endpoint.

- `src/` is the verified library (Verus): the configuration types, the
  meaning of a probe's outcome, the failure summary and its truncation, the
  status word, the push URL and query, and the JSON reply for a panicking
  request. Contracts are stated over character sequences (`String@`), with
  UTF-8 byte lengths modelled in `src/text.rs`.
- `app/` is the executable around it: YAML loading, logging, ICMP and DNS,
  the HTTP push and the HTTP server.
- `tests/` exercises the library on concrete values.
