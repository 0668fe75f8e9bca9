# sol_dap

A Debug Adapter Protocol (DAP) server for Foundry Solidity projects. It runs
a test under `forge test --debug --dump`, loads the recorded EVM trace, and
lets an editor step through it (forwards and backwards), set breakpoints,
inspect the stack, memory, calldata, storage variables, locals, events and
`console.log` output, and evaluate expressions in the debug console.

The library in `src/` is written in Verus: each function states its result
in `requires`/`ensures` over a mathematical model, and Verus proves it.

## Layout

- `src/trace.rs`, `src/word.rs`: the recorded trace as plain values; 256-bit
  words and their arithmetic and text forms.
- `src/session.rs`: the position in the trace and the moves through it
  (step, step back, over, into, out, continue, breakpoints), with the laws
  that relate them.
- `src/variables.rs`, `src/locals.rs`: the variables views (stack, memory,
  calldata, storage, events, console logs, context, locals).
- `src/expr_parser.rs`, `src/evaluate.rs`: the debug-console expression
  language, its parser and its evaluator.
- `src/handler.rs`: the answers to the DAP requests (stack trace, scopes,
  variables, memory reads, console echo).
- `src/launch.rs`, `src/config.rs`, `src/source_map.rs`: what a session is
  started from, the launch configuration, source positions.
- `src/adapter.rs`: registration of the adapter in an editor.
- `src/text.rs`, `src/fmt.rs`: text helpers.
- `app/`: the server program: DAP I/O, running `forge`, reading artifacts,
  and the source-map lookup done with the Foundry crates.
- `tests/`: tests of the library.
