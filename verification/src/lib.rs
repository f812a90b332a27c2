//! A small workflow language and its interpreter.
//!
//! A flow is a tree of nodes: steps that a host carries out, and the ways to put them together
//! (sequences, branches, fanouts, loops, tries and lets). It runs on a context, a JSON value that
//! expressions read and nodes write to by paths such as `$.a.b`.
//!
//! - [`path`] parses, shows, reads and writes paths.
//! - [`expr`] evaluates expressions, with doubles from [`float`].
//! - [`semantics`] says which ends a run may have, [`runs`] how a run leads its dispatcher from
//!   state to state, and [`requests`] which steps it may ask for.
//! - [`eval`] runs a flow from start to end.
//! - [`flow`] runs a flow in turns with a host that needs time for its steps.
//!
//! What holds of all this is stated and proved in the modules whose names end in `_laws`, and in
//! [`parity`], [`determinism`], [`run_steady`] and [`run_ends`]:
//!
//! - of texts and messages in [`text_laws`] and [`message_laws`];
//! - of paths in [`path_laws`] and [`grammar_laws`];
//! - of numbers in [`float_laws`], [`rounding_laws`] and [`arith_laws`];
//! - of expressions in [`expr_laws`], [`operator_laws`] and [`registry_laws`];
//! - of flows in [`flow_laws`], [`node_laws`], [`fanout_laws`], [`loop_laws`] and [`turn_laws`];
//! - of what runs do to their dispatcher in [`run_laws`] and [`run_node_laws`];
//! - of what evaluation returns in [`eval_laws`].

pub mod arith_laws;
pub mod bridge;
pub mod decimal;
pub mod determinism;
pub mod dispatch;
pub mod error;
pub mod eval;
pub mod eval_laws;
pub mod expr;
pub mod expr_laws;
pub mod externs;
pub mod fanout_laws;
pub mod float;
pub mod float_laws;
pub mod flow;
pub mod flow_laws;
pub mod grammar_laws;
pub mod loop_laws;
pub mod message_laws;
pub mod node;
pub mod node_laws;
pub mod operator_laws;
pub mod parity;
pub mod path;
pub mod path_laws;
pub mod registry_laws;
pub mod render;
pub mod requests;
pub mod rounding_laws;
pub mod run_ends;
pub mod run_laws;
pub mod run_node_laws;
pub mod run_steady;
pub mod runs;
pub mod semantics;
pub mod storage;
pub mod text;
pub mod text_laws;
pub mod turn_laws;
pub mod value;

pub use crate::dispatch::Dispatcher;
pub use crate::error::EvalError;
pub use crate::eval::{eval, eval_externs, eval_with_storage, eval_with_storage_externs};
pub use crate::expr::{eval_expr, eval_expr_with_externs, is_truthy, Expr};
pub use crate::externs::{ExternMap, Externs, NoExterns};
pub use crate::float::Float;
pub use crate::node::{write_path, JoinMode, Node};
pub use crate::path::{Path, PathParseError};
pub use crate::storage::{read_path, CtxStorage, MemoryCtx};
pub use crate::value::{Number, Object, Value};
