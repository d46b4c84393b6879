# thttpd

A small, single-process HTTP server (thttpd) and its migration proxy
logic, written as a library whose behaviour is stated in Verus contracts
and proved, plus a thin program around it.

## Layout

- `src/` — the verified library. Every function carries a `requires` /
  `ensures` contract, and the laws that span several calls are public
  proof functions (`law_*`).
  - HTTP: request parsing (`parse`, `parse_state`, `method`), URL decoding
    and path normalization (`url`), header and range handling
    (`request`, `serving`), responses and error pages (`response`,
    `error`), dates (`tdate`), MIME types (`mime`), directory listings
    (`dirlist`), CGI environments and output (`cgi`), basic
    authentication (`auth`), the access log line (`logging`),
    configuration and command-line options (`config`, `startup`),
    per-connection state (`conn`, `connection`), bandwidth throttles
    (`throttle`) and timers (`timers`). `answer` holds the decision
    sequences of a request: reading its head into facts, the order of its
    refusals and its route, the answer of a static file, the refusals and
    environment of a CGI program, and the throttle check when sending
    starts.
  - Migration proxy: configuration checks (`migrate`, `proxy_config`),
    backend health (`health`), circuit breakers (`circuit`), routing and
    shadow mirroring (`router`), the proxy hop's headers (`forwarder`),
    response comparison (`diff`) and live weight changes and rollback
    (`live`).
- `tests/` — tests that run the library.
- `app/` — the server program: argument handling, sockets, files,
  processes, signals and the serving loop. It gathers the facts the
  library's decisions need (file metadata, canonical paths, the password
  check, the clock), carries out the answers, and checks each `requires`
  before a call. One poll loop multiplexes the connections: requests are
  read and answers written without blocking, throttled sends pause and
  resume on the library's schedule; the file and CGI work of a single
  request is done in place.

## Outside code

Calls into outside crates and into the parts of `std` that Verus has no
specification for go through small trusted wrappers whose contracts
state what the crate's source or documentation promises: base64 decoding,
SHA-256, URI parsing, the random draw of weighted routing, lossy UTF-8,
lower-casing and `Path::file_name`.

The one floating-point comparison of the proxy logic, a breaker's
error-rate threshold, is left to the caller of `Breaker::record`, which
passes it as a closure. The proxy program itself is not part of this
crate.
