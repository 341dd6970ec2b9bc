# ruwasm

The verified core of a browser front end for a software-defined radio, and
of `ws_stdout`, a small websocket server that streams a command's standard
output to each client.

## Layout

- `src/` is the library, written in Verus; every function in it carries a
  contract that Verus proves, except a few wrappers (marked
  `verifier::external_body`) around single calls into std, whose contracts
  are trusted.
  - `sha1`, `base64`, `http`, `websocket`, `command`: the server's request
    parsing, handshake answer, accept key, frame encoding and decoding, and
    the command line shown at start-up.
  - `data_stream`: the worker's side of the data stream protocol (version
    handshake, one request in flight per receiver).
  - `wasm_source`, `wasm_graph`: the graph's byte source and the scheduling
    rounds of the graph runner.
  - `mainthread`: the UI thread's choice of input, file requests, RTL-SDR
    tuning and gain checks, and routing of float streams.
  - `series`: sample history of the plots and the Y scale of the time plot.
  - `logging`, `domlogger`, `workerlogger`: log levels, line formatting and
    the two loggers' state.
- `app/` is ordinary Rust: the `ws_stdout` binary (sockets, threads, the
  child process), the floating-point plot and filter helpers, and the
  `log::Log` implementations.
- `tests/` runs the library on concrete values.
