# squawk

A partyline intercom: a server mixes, endpoints talk and listen. Each endpoint has up to
ten keys, and each key is an AES67 stream of its own that carries either a partyline minus
the endpoint's own voice, or a direct path to one other endpoint.

The library under `src/` is verified with Verus. It does no I/O: it takes bytes, times and
blocks of samples, and gives back decisions.

| Module | What it holds |
|---|---|
| `config` | The data model, its validation, and when a configuration is coherent |
| `engine` | The mix-minus engine and its limiter |
| `ptp` | PTP messages, best master selection, the servo, the slave port and a test grandmaster |
| `rtp` | RTP and L24, session descriptions, addressing, the jitter buffer, stream ends |
| `server` | Edits, the host's state, talk intent, the media clock and the streams in and out |
| `sample` | The arithmetic that signals and the servo are computed with |
| `bytes`, `text` | Big-endian numbers, and text as characters |

Signals and the servo are generic over the `Sample` trait, of which nothing is assumed.
Every contract says which operation gave which value and in which order; what holds of
real numbers is stated under `sample::exact`, and the silence of a lone talker under what
binary floating point keeps (`engine::laws::cancels`). Laws that relate several functions are public
proof functions whose names begin with `law_`.

Trusted, and not proved: that `String::push` appends its character, and that a `Duration`
holds no more nanoseconds than its fields can say. Of the clock nothing is claimed.

`app/` is the program around the library: sockets, threads, the HTTP interface, files and
floating point. `tests/` runs the library.
