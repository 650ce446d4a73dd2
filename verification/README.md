# ic-laya-core

Typed decision primitives and the fail-closed workflow of the decision-engine
canisters, written in Verus: every function in `src/` carries a contract that
Verus proves.

## Layout

- `src/` — the verified library.
  - `types`, `math`, `schema`, `sdk`, `demo`: decision values, probability
    distributions in parts per million, schema compilation and rendering, typed
    results, and the deterministic test fixture.
  - `engine`, `workflow`, `billing`, `cost`: the decision engine (callers,
    calibrations, cache), the executor's request lifecycle with grants and
    reservations, caller-funded execution and the instruction-budget guard.
  - `icrc`, `mock_ledger`, `reconcile`: ICRC-1 transfer values, the mock
    ledger and the reconciliation of unknown outcomes.
  - `storage`, `snapshot`, `upload`, `entropy`: sealed snapshot blocks, the
    two-slot stable layout, chunked pack upload and the random-stream key.
  - `pack`, `config`, `prompt`, `batch`, `kernel`, `hf`, `ordered`, `profile`:
    the int8 pack format, the checkpoint architecture, the prompt contract,
    batched questions, the integer core of the int8 matrix product, the
    Hugging Face tokenizer adapter, sorted literal sets and profiled runs.
  - `tetris`, `text`, `upload_cli`, `upload_plan`, `pack_cli`: the tetris
    placement query and the two command-line tools' option handling.
- `tests/` — the test suite, run against the compiled library.
- `app/` — the host side that Verus does not see: floating-point conversion
  and kernel scaling, the inference backend, serde and candid copies of the
  library's types, stable-memory and IC system calls, and the tools' command
  lines.
