# flow_ir

A small workflow language and its interpreter, written in Verus.

A flow is a tree of nodes. Steps are carried out by a host; sequences, branches, fanouts, loops,
tries and lets put them together. A flow runs on a context, a JSON value: expressions read it and
nodes write to it, by paths such as `$.a.b` or `ctx.a["p.md"]`.

## The library (`src/`)

| Module | What it holds |
|---|---|
| `path` | paths: parsing, canonical form, reading, writing |
| `value`, `text`, `float`, `decimal`, `render` | JSON values, strings, doubles held as their bits, and values as text |
| `expr`, `externs` | expressions and the pure functions that they may call |
| `error` | what evaluation can fail with |
| `node`, `storage`, `dispatch` | flows, where their context is kept, and what carries out their steps |
| `semantics`, `runs`, `requests` | which ends a run may have, how it leads its dispatcher from state to state, and which steps it may ask for |
| `eval` | the evaluator that runs a flow from start to end |
| `flow` | the evaluator that runs a flow in turns with a host that needs time |
| `bridge` | what is said of scripts that are called in place of a dispatcher or a function |
| `path_laws`, `expr_laws`, `float_laws`, `flow_laws`, `parity`, `determinism`, `run_laws`, `run_steady`, `run_ends` | what holds of all this |

Contracts speak of mathematical values: `Json` for a `Value`, `PathView` for a `Path`, `Term` for
an `Expr`, `Tree` for a `Node` and `Fault` for an `EvalError`. The meaning of a flow is the
relation `may`: which ends a run that starts in a state of the storage may have, given what the
dispatcher may reply and what others may write while the run waits. The relation `runs` follows a
run from start to end through the states of the dispatcher, which changes with each step that it
carries out; the relation `asks` says which steps it may be asked for on the way.

Two functions are trusted: `Debug` and `Display` of `serde_json::Value`, which error messages show
values with. Besides, `String::push` is given the contract that its documentation states.

## Around it (`app/`)

The wire format (`wire`), a context that tasks share (`shared`), dispatchers that need time
(`asynchronous`) and the Lua module (`lua`).
