# sherlock

A live heap profiler for C and C++ programs, with its logic verified by Verus.

The target runs with an allocator hook preloaded. The hook records every allocation with its call
stack into a ring in shared memory; the analyzer takes the events from there, keeps a ledger of the
live blocks, and shows it in the terminal: recent events and the heaviest call sites, a flame
graph, a heatmap over time, and leaks. A fatal signal leaves a last event with the call stack of
the crash.

- `src/` is the library. Its contracts are stated over mathematical models: a `Ledger` of live
  blocks for the tracker, memory as a function for the stack walk, the lines of a maps file for the
  resolver, shapes of text for the dashboard. The public proof functions whose names start with
  `law_` state what holds of the whole: that the ledger stays sound, that a malloc and its free
  cancel out, that survivors are leaks, that folded stacks add up to the live bytes.
- `app/` holds the programs around it: the preloaded hooks, the analyzer with its terminal user
  interface, a headless drain, and the launcher.
- `tests/` runs the library on concrete values.
