//! Flows: the nodes that a run goes through.

use crate::error::{value_outcome, EvalError, Fault};
use crate::expr::{Expr, Term};
use crate::path::{write_at, Path, PathView};
use crate::value::{Json, Value};
use vstd::prelude::*;

verus! {

/// A node of a flow.
#[derive(Debug, PartialEq)]
pub enum Node {
    /// Has a step carried out, and writes its output.
    Step {
        /// What the dispatcher knows the step by.
        ref_: String,
        /// The input, evaluated before the step.
        in_: Expr,
        /// The path that the output is written to.
        out: Expr,
    },
    /// Runs its children one after the other.
    Sequence {
        /// The children.
        children: Vec<Node>,
    },
    /// Runs one of two nodes.
    Branch {
        /// The condition, which has to be a boolean.
        cond: Expr,
        /// What runs if the condition is true.
        then_: Box<Node>,
        /// What runs if the condition is false.
        else_: Box<Node>,
    },
    /// Runs a node for each item of an array, each on a context of its own.
    Fanout {
        /// The array.
        items: Expr,
        /// The path that each branch finds its item at.
        bind: Expr,
        /// What runs in each branch.
        body: Box<Node>,
        /// How the results of the branches are joined.
        join: JoinMode,
        /// The path that the joined result is written to.
        out: Expr,
    },
    /// Runs a node again and again.
    Loop {
        /// The path that the number of finished rounds is written to.
        counter: Expr,
        /// The condition for another round.
        cond: Expr,
        /// What runs in each round.
        body: Box<Node>,
        /// The most rounds that there can be.
        max: u32,
    },
    /// Runs a node, and another one if the first fails.
    Try {
        /// What runs first. If it fails, what it wrote is undone.
        body: Box<Node>,
        /// What runs if it fails.
        catch: Box<Node>,
        /// The path that the message of the failure is written to.
        err_at: Option<Expr>,
    },
    /// Writes the value of an expression.
    Let {
        /// The path that it is written to.
        at: Path,
        /// The expression.
        value: Expr,
    },
}

/// How the results of the branches of a fanout are joined.
#[derive(Debug, Clone, Copy, PartialEq, Eq, Structural)]
pub enum JoinMode {
    /// Every branch has to succeed; the result is the array of their contexts.
    All,
    /// The first branch that succeeds gives the result; all failing is a failure.
    Any,
    /// The first branch that ends gives the result, or the failure.
    Race,
    /// Every branch ends; the result is an array of records of how each did.
    AllSettled,
}

/// What a [`Node`] stands for.
pub enum Tree {
    Step { ref_: Seq<char>, input: Term, out: Term },
    Sequence(Seq<Tree>),
    Branch { cond: Term, yes: Box<Tree>, no: Box<Tree> },
    Fanout { items: Term, bind: Term, body: Box<Tree>, join: JoinMode, out: Term },
    Loop { counter: Term, cond: Term, body: Box<Tree>, max: u32 },
    Try { body: Box<Tree>, catch: Box<Tree>, err_at: Option<Term> },
    Let { at: PathView, value: Term },
}

impl Node {
    /// What the node stands for.
    pub open spec fn view(&self) -> Tree
        decreases *self, 0nat,
    {
        match *self {
            Node::Step { ref_, in_, out } => Tree::Step { ref_: ref_@, input: in_@, out: out@ },
            Node::Sequence { children } => Tree::Sequence(trees(children@)),
            Node::Branch { cond, then_, else_ } => Tree::Branch {
                cond: cond@,
                yes: Box::new(then_@),
                no: Box::new(else_@),
            },
            Node::Fanout { items, bind, body, join, out } => Tree::Fanout {
                items: items@,
                bind: bind@,
                body: Box::new(body@),
                join,
                out: out@,
            },
            Node::Loop { counter, cond, body, max } => Tree::Loop {
                counter: counter@,
                cond: cond@,
                body: Box::new(body@),
                max,
            },
            Node::Try { body, catch, err_at } => Tree::Try {
                body: Box::new(body@),
                catch: Box::new(catch@),
                err_at: match err_at {
                    Some(at) => Some(at@),
                    None => None,
                },
            },
            Node::Let { at, value } => Tree::Let { at: at@, value: value@ },
        }
    }
}

/// What each of a sequence of nodes stands for.
pub open spec fn trees(s: Seq<Node>) -> Seq<Tree>
    decreases s, s.len(),
{
    if s.len() == 0 {
        Seq::empty()
    } else {
        trees(s.drop_last()).push(s.last()@)
    }
}

/// [`trees`] maps each item, and keeps its place.
pub broadcast proof fn lemma_trees(s: Seq<Node>)
    ensures
        (#[trigger] trees(s)).len() == s.len(),
        forall|i: int| 0 <= i < s.len() ==> #[trigger] trees(s)[i] == s[i]@,
    decreases s.len(),
{
    if s.len() > 0 {
        lemma_trees(s.drop_last());
    }
}

/// The path that an expression is, where a path to write to is expected.
pub open spec fn target(t: Term) -> Result<PathView, Fault> {
    match t {
        Term::Path(p) => Ok(p),
        _ => Err(Fault::InvalidPath("expected Path expr for write target"@)),
    }
}

/// The context with a value written where an expression says.
pub open spec fn written(out: Term, ctx: Json, value: Json) -> Result<Json, Fault> {
    match target(out) {
        Ok(p) => write_at(p, ctx, value),
        Err(f) => Err(f),
    }
}

/// The path that an expression is, where a path to write to is expected.
pub fn path_of(expr: &Expr) -> (r: Result<&Path, EvalError>)
    ensures
        match target(expr@) {
            Ok(p) => r matches Ok(x) && x@ == p,
            Err(f) => r matches Err(e) && e@ == f,
        },
{
    match expr {
        Expr::Path { at } => Ok(at),
        _ => Err(EvalError::InvalidPath("expected Path expr for write target".to_owned())),
    }
}

/// Writes a value where an expression says, and returns the new context.
pub fn write_path(out: &Expr, ctx: Value, value: Value) -> (r: Result<Value, EvalError>)
    ensures
        value_outcome(r) == written(out@, ctx@, value@),
{
    let path = match path_of(out) {
        Ok(p) => p,
        Err(e) => return Err(e),
    };
    let mut root = ctx;
    match path.write(&mut root, value) {
        Ok(_) => Ok(root),
        Err(e) => Err(e),
    }
}

impl Clone for Node {
    fn clone(&self) -> (r: Self)
        ensures
            r@ == self@,
        decreases self,
    {
        match self {
            Node::Step { ref_, in_, out } => Node::Step {
                ref_: ref_.clone(),
                in_: in_.clone(),
                out: out.clone(),
            },
            Node::Sequence { children } => {
                let mut copies: Vec<Node> = Vec::new();
                proof {
                    assert(trees(copies@) =~= trees(children@).take(0));
                }
                let mut i: usize = 0;
                while i < children.len()
                    invariant
                        *self == (Node::Sequence { children: *children }),
                        i <= children@.len(),
                        trees(copies@) == trees(children@).take(i as int),
                    decreases children@.len() - i,
                {
                    proof {
                        lemma_trees(children@);
                        assert(decreases_to!(*self => self->Sequence_children));
                        assert(decreases_to!(*children => children@));
                        assert(decreases_to!(children@ => children@[i as int]));
                    }
                    let item = children[i].clone();
                    proof {
                        assert(copies@.push(item).drop_last() =~= copies@);
                        assert(trees(children@).take(i + 1) =~= trees(children@).take(
                            i as int,
                        ).push(item@));
                    }
                    copies.push(item);
                    i = i + 1;
                }
                proof {
                    lemma_trees(children@);
                    assert(trees(children@).take(i as int) =~= trees(children@));
                }
                Node::Sequence { children: copies }
            },
            Node::Branch { cond, then_, else_ } => Node::Branch {
                cond: cond.clone(),
                then_: Box::new((**then_).clone()),
                else_: Box::new((**else_).clone()),
            },
            Node::Fanout { items, bind, body, join, out } => Node::Fanout {
                items: items.clone(),
                bind: bind.clone(),
                body: Box::new((**body).clone()),
                join: *join,
                out: out.clone(),
            },
            Node::Loop { counter, cond, body, max } => Node::Loop {
                counter: counter.clone(),
                cond: cond.clone(),
                body: Box::new((**body).clone()),
                max: *max,
            },
            Node::Try { body, catch, err_at } => Node::Try {
                body: Box::new((**body).clone()),
                catch: Box::new((**catch).clone()),
                err_at: match err_at {
                    Some(at) => Some(at.clone()),
                    None => None,
                },
            },
            Node::Let { at, value } => Node::Let { at: at.clone(), value: value.clone() },
        }
    }
}

} // verus!
