# coppa

A verified library for digital radio links: framing, MAC and AX.25 packets,
forward error correction, selective-repeat ARQ, negotiation of the cyclic
prefix, rate control, text compression, and the host interfaces of a modem.

- `src/` holds the library. Every function has a contract that Verus proves.
  Public proof functions named `law_...` state what holds across functions:
  round trips, uniqueness of codewords, in-order delivery, convergence.
- `tests/` holds tests that run the compiled library.
- `app/` holds what the library leaves to its surroundings: TCP and WebSocket
  servers, and everything computed in floating point (soft decoding,
  round-trip estimation, spectrum sensing).

Measured quantities reach the library as bit patterns of single-precision
floats, which it compares as floats are compared; times are nanoseconds.
