# srt_protocol

The protocol core of SRT (Secure Reliable Transport) as a verified library: a
state machine that opens no socket, reads no clock and draws no random numbers.
Datagrams, instants and key bytes go in; datagrams, timers and events come out.

- `src/` is the library. Every function carries a contract that Verus proves,
  except for the wrappers around outside calls, whose contracts it believes.
  - `seq`, `timestamp`, `time`: numbers on a circle, and time.
  - `packet`, `control`, `handshake`, `loss_list`, `wire`: the wire formats.
  - `send_buffer`, `recv_buffer`, `fec`, `rtt`, `rate`, `drift`, `live_cc`: the
    parts of a connection; `double` rounds the average of the pacer.
  - `crypto`: key material, key wrapping, the key slots and the ciphers.
  - `connection`: the state machine. `connection::model` says what every step
    does, `connection::laws` what holds across steps, `connection::runs` what
    holds of whole runs, and `connection::shift` that only elapsed time counts.
  - `listener`: the side that answers callers.
  - `buffer`, and the wrappers in `crypto`: what the library trusts about the
    crates it calls (`bytes`, `aes`, `aes-gcm`, `aes-kw`, `ctr`, `pbkdf2`,
    `sha1`).
- `tests/` runs the library, end to end over a simulated network in
  `tests/simulation.rs`.
- `app/` puts standard-library clocks, addresses and error messages around it.
