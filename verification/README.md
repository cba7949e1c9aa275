# rusty_request

An HTTP/1.1 client whose logic is verified with
[Verus](https://github.com/verus-lang/verus).

The library in `src/` does no I/O. It decides what is sent and what the bytes
that come back mean; whoever drives it moves the bytes. `app/` drives it over
sockets, TLS and timers, and the tests drive it over a network in memory.

| Modules | What they hold |
| --- | --- |
| `url`, `header`, `method`, `status`, `body` | the parts of a request |
| `client`, `request`, `response`, `streaming` | clients, requests under construction, responses |
| `wire`, `http1` | requests as bytes, and responses read as their bytes arrive |
| `exchange`, `hop`, `redirect`, `retry` | the course of a request: its hops, and the attempts at it |
| `cookie`, `date` | a cookie jar and the dates in it |
| `proxy`, `pool`, `tls` | where connections lead, which are kept, whom to trust |
| `json`, `multipart`, `base64` | encodings of bodies and credentials |
| `text`, `platform`, `rand`, `error` | what the others share |
| `cookie_laws`, `exchange_laws`, `json_laws`, `url_laws` | longer proofs |

Contracts are stated over mathematical views: texts are sequences of
characters, header maps are sequences of pairs, a reader's result is a function
of all the bytes that will ever arrive. Public proof functions whose names
start with `law_` state what holds across functions: that parsing undoes
rendering, that a chunked body reads back as it was written, that credentials
stay with their origin, that a cookie marked `Secure` never goes out in the
clear, and so on.

What is taken on trust stands in `platform` and `tls`: short statements about
functions of `std` and of `rustls-pki-types`.

JSON numbers are kept as the literals that spell them. `app/json.rs` reads
them as floats.
