//! Flows that are run in turns with a host.
//!
//! A run goes on until it needs something that takes time: a step carried out, or the branches
//! of a fanout run. It is then suspended, and goes on with the host's reply. What the host does
//! in between, and how, is its own matter.

use crate::determinism::{
    delivered, law_runs_have_one_end, lemma_private_replies, one_reply, replied, some_all,
    some_branches, some_catch, some_loop, some_reply, taken,
};
use crate::error::{fault_text, unit_outcome, value_outcome, EvalError, Fault};
use crate::eval::{counted, deliver, join_unbound, lemma_bind_alike, no_items, noted};
use crate::expr::{eval_expr_with_externs, is_truthy, truthy, value_of, Expr, Term};
use crate::externs::{registry, Externs};
use crate::node::{lemma_trees, path_of, trees, write_path, written, JoinMode, Node, Tree};
use crate::path::shown;
use crate::render::debug;
use crate::semantics::{
    calm, count, delivers, delivers_later, empty_fault, may, may_all, may_branches, may_catch,
    may_join, may_loop, private, records, results, starts, step_result, successes, through,
    unbound, undisturbed, Host,
};
use crate::storage::{CtxStorage, MemoryCtx};
use crate::value::{lemma_views, lemma_views_push, views, Json, Value};
use vstd::prelude::*;

verus! {

/// What is left to do when a node has ended.
#[derive(Debug)]
pub enum Frame<'a> {
    /// Run the next children of a sequence.
    Children { children: &'a Vec<Node>, next: usize },
    /// Count a round of a loop and run the next.
    Rounds { counter: String, cond: &'a Expr, body: &'a Node, max: u32, n: u32 },
    /// Catch a failure.
    Guard { snap: Value, catch: &'a Node, err_at: &'a Option<Expr> },
}

/// What a suspended run waits for.
#[derive(Debug)]
pub enum Wait<'a> {
    /// The output of a step.
    Step { ref_: &'a String, out: &'a Expr },
    /// The joined result of a fanout.
    Join { out: &'a Expr },
}

/// A run that waits for a reply.
#[derive(Debug)]
pub struct Suspended<'a> {
    frames: Vec<Frame<'a>>,
    wait: Wait<'a>,
}

/// How far a run has come.
#[derive(Debug)]
pub enum Progress<'a> {
    /// The run has ended.
    Done(Result<(), EvalError>),
    /// A step has to be carried out; the reply is what the dispatcher replied.
    Dispatch {
        /// The step.
        ref_: &'a String,
        /// Its input.
        input: Value,
        /// The run.
        rest: Suspended<'a>,
    },
    /// Branches have to be run; the reply is the joined result.
    Fanout {
        /// How the results are joined.
        join: JoinMode,
        /// What runs in each branch.
        body: &'a Node,
        /// The context that each branch starts with.
        contexts: Vec<Value>,
        /// The run.
        rest: Suspended<'a>,
    },
}

/// Whether a frame may lead from the end of a node to an end.
pub open spec fn frame_may<S: CtxStorage>(
    f: Frame,
    h: Host<S::State>,
    r0: Result<(), Fault>,
    s0: S::State,
    r: Result<(), Fault>,
    s1: S::State,
) -> bool {
    match f {
        Frame::Children { children, next } => match r0 {
            Ok(_) => may_all::<S>(trees(children@).skip(next as int), h, s0, r, s1),
            Err(_) => r == r0 && s1 == s0,
        },
        Frame::Rounds { counter, cond, body, max, n } => match r0 {
            Ok(_) => exists|ra: Result<(), Fault>, sa: S::State| #[trigger]
                S::takes(s0, counter@, count(n as nat + 1), ra, sa) && match ra {
                    Err(_) => r == ra && s1 == sa,
                    Ok(_) => may_loop::<S>(
                        counter@,
                        cond@,
                        body@,
                        max,
                        n as nat + 1,
                        h,
                        sa,
                        r,
                        s1,
                    ),
                },
            Err(_) => r == r0 && s1 == s0,
        },
        Frame::Guard { snap, catch, err_at } => match r0 {
            Ok(_) => r == r0 && s1 == s0,
            Err(f) => may_catch::<S>(catch@, noted(*err_at), f, snap@, h, s0, r, s1),
        },
    }
}

/// Whether frames, the last one first, may lead from the end of a node to an end.
pub open spec fn frames_may<S: CtxStorage>(
    frames: Seq<Frame>,
    h: Host<S::State>,
    r0: Result<(), Fault>,
    s0: S::State,
    r: Result<(), Fault>,
    s1: S::State,
) -> bool
    decreases frames.len(),
{
    if frames.len() == 0 {
        r == r0 && s1 == s0
    } else {
        exists|ra: Result<(), Fault>, sa: S::State| #[trigger]
            through(ra, sa) && frame_may::<S>(frames.last(), h, r0, s0, ra, sa) && frames_may::<S>(
                frames.drop_last(),
                h,
                ra,
                sa,
                r,
                s1,
            )
    }
}

/// Whether a reply may lead to the end of the node that waited for it.
pub open spec fn wait_may<S: CtxStorage>(
    w: Wait,
    reply: Result<Json, Fault>,
    s0: S::State,
    r: Result<(), Fault>,
    s1: S::State,
) -> bool {
    match w {
        Wait::Step { ref_, out } => delivers::<S>(out@, step_result(ref_@, reply), s0, r, s1),
        Wait::Join { out } => delivers::<S>(out@, reply, s0, r, s1),
    }
}

/// Whether a reply may lead a run with frames to an end.
pub open spec fn reply_may<S: CtxStorage>(
    frames: Seq<Frame>,
    w: Wait,
    h: Host<S::State>,
    reply: Result<Json, Fault>,
    s0: S::State,
    r: Result<(), Fault>,
    s1: S::State,
) -> bool {
    exists|ra: Result<(), Fault>, sa: S::State| #[trigger]
        through(ra, sa) && wait_may::<S>(w, reply, s0, ra, sa) && frames_may::<S>(
            frames,
            h,
            ra,
            sa,
            r,
            s1,
        )
}

impl<'a> Suspended<'a> {
    /// Whether a run that gets a reply in state `s0` may end with `r` in state `s1`.
    pub closed spec fn may_end<S: CtxStorage>(
        &self,
        h: Host<S::State>,
        reply: Result<Json, Fault>,
        s0: S::State,
        r: Result<(), Fault>,
        s1: S::State,
    ) -> bool {
        reply_may::<S>(self.frames@, self.wait, h, reply, s0, r, s1)
    }
}

impl<'a> Progress<'a> {
    /// Whether a run that has come this far, in state `s0`, may end with `r` in state `s1`: it
    /// gets some reply that the dispatcher may give, or some result that the branches may give, in
    /// some state that others may have led the storage to.
    pub open spec fn may_end<S: CtxStorage>(
        &self,
        h: Host<S::State>,
        s0: S::State,
        r: Result<(), Fault>,
        s1: S::State,
    ) -> bool {
        match *self {
            Progress::Done(x) => r == unit_outcome(x) && s1 == s0,
            Progress::Dispatch { ref_, input, rest } => exists|
                reply: Result<Json, Fault>,
                sm: S::State,
            |
                #[trigger] (h.replies)(ref_@, input@, reply) && #[trigger] (h.meanwhile)(s0, sm)
                    && rest.may_end::<S>(h, reply, sm, r, s1),
            Progress::Fanout { join, body, contexts, rest } => exists|
                reply: Result<Json, Fault>,
                sm: S::State,
            |
                #[trigger] may_branches(join, body@, private(h), views(contexts@), reply)
                    && #[trigger] (h.meanwhile)(s0, sm) && rest.may_end::<S>(h, reply, sm, r, s1),
        }
    }
}

impl<'a> Progress<'a> {
    /// Whether there are branches where one of them has to give the result.
    pub open spec fn has_branches(&self) -> bool {
        self matches Progress::Fanout { join, body, contexts, rest } ==> contexts@.len() > 0 || join
            == JoinMode::All || join == JoinMode::AllSettled
    }
}

/// Whether a host has the given external functions, and no one has to write to the storage.
pub open spec fn fits<T, X: Externs>(h: Host<T>, x: &X) -> bool {
    calm(h) && h.registry == registry(x)
}

/// What a run does next.
enum Todo<'a> {
    /// Run a node.
    Enter(&'a Node),
    /// Go on after a node that has ended.
    Leave(Result<(), EvalError>),
}

/// What a run needs.
enum Need<'a> {
    /// A step carried out.
    Dispatch { ref_: &'a String, input: Value },
    /// Branches run.
    Fanout { join: JoinMode, body: &'a Node, contexts: Vec<Value> },
}

impl<'a> Need<'a> {
    spec fn has_branches(&self) -> bool {
        self matches Need::Fanout { join, body, contexts } ==> contexts@.len() > 0 || join
            == JoinMode::All || join == JoinMode::AllSettled
    }
}

impl<'a> Turn<'a> {
    spec fn has_branches(&self) -> bool {
        self matches Turn::Pause(need, _) ==> need.has_branches()
    }
}

/// What comes of running a node.
enum Turn<'a> {
    /// The run goes on.
    On(Todo<'a>),
    /// The run waits.
    Pause(Need<'a>, Wait<'a>),
}

spec fn todo_may<S: CtxStorage>(
    t: Todo,
    h: Host<S::State>,
    s0: S::State,
    r: Result<(), Fault>,
    s1: S::State,
) -> bool {
    match t {
        Todo::Enter(node) => may::<S>(node@, h, s0, r, s1),
        Todo::Leave(x) => r == unit_outcome(x) && s1 == s0,
    }
}

/// Whether a run may end in a way, from what it does next and its frames.
spec fn run_may<S: CtxStorage>(
    frames: Seq<Frame>,
    t: Todo,
    h: Host<S::State>,
    s0: S::State,
    r: Result<(), Fault>,
    s1: S::State,
) -> bool {
    exists|ra: Result<(), Fault>, sa: S::State| #[trigger]
        through(ra, sa) && todo_may::<S>(t, h, s0, ra, sa) && frames_may::<S>(
            frames,
            h,
            ra,
            sa,
            r,
            s1,
        )
}

spec fn need_met<T>(n: Need, h: Host<T>, reply: Result<Json, Fault>) -> bool {
    match n {
        Need::Dispatch { ref_, input } => (h.replies)(ref_@, input@, reply),
        Need::Fanout { join, body, contexts } => may_branches(
            join,
            body@,
            private(h),
            views(contexts@),
            reply,
        ),
    }
}

spec fn turn_may<S: CtxStorage>(
    frames: Seq<Frame>,
    t: Turn,
    h: Host<S::State>,
    s0: S::State,
    r: Result<(), Fault>,
    s1: S::State,
) -> bool {
    match t {
        Turn::On(todo) => run_may::<S>(frames, todo, h, s0, r, s1),
        Turn::Pause(need, wait) => exists|reply: Result<Json, Fault>, sm: S::State|
            #[trigger] need_met(need, h, reply) && #[trigger] (h.meanwhile)(s0, sm)
                && reply_may::<S>(frames, wait, h, reply, sm, r, s1),
    }
}

/// How many turns a node can take at most, and more.
spec fn weight(t: Tree) -> nat
    decreases t, 0nat,
{
    match t {
        Tree::Step { ref_, input, out } => 1,
        Tree::Sequence(children) => 1 + weights(children),
        Tree::Branch { cond, yes, no } => 1 + weight(*yes) + weight(*no),
        Tree::Fanout { items, bind, body, join, out } => 1,
        Tree::Loop { counter, cond, body, max } => 1 + (max as nat) * (weight(*body) + 2),
        Tree::Try { body, catch, err_at } => 3 + weight(*body) + weight(*catch),
        Tree::Let { at, value } => 1,
    }
}

spec fn weights(s: Seq<Tree>) -> nat
    decreases s, s.len(),
{
    if s.len() == 0 {
        0
    } else {
        weight(s[0]) + 2 + weights(s.drop_first())
    }
}

spec fn frame_weight(f: Frame) -> nat {
    match f {
        Frame::Children { children, next } => 1 + weights(trees(children@).skip(next as int)),
        Frame::Rounds { counter, cond, body, max, n } => if n < max {
            (1 + (max - n - 1) * (weight(body@) + 2)) as nat
        } else {
            1
        },
        Frame::Guard { snap, catch, err_at } => 2 + weight(catch@),
    }
}

spec fn load(frames: Seq<Frame>) -> nat
    decreases frames.len(),
{
    if frames.len() == 0 {
        0
    } else {
        load(frames.drop_last()) + frame_weight(frames.last())
    }
}

spec fn todo_weight(t: Todo) -> nat {
    match t {
        Todo::Enter(node) => 1 + weight(node@),
        Todo::Leave(_) => 0,
    }
}

/// Whether every loop frame is in a round that it has, and every sequence frame in range.
spec fn sound(frames: Seq<Frame>) -> bool {
    forall|i: int|
        0 <= i < frames.len() ==> match #[trigger] frames[i] {
            Frame::Rounds { counter, cond, body, max, n } => n < max,
            Frame::Children { children, next } => next <= children@.len(),
            Frame::Guard { snap, catch, err_at } => true,
        }
}

/// Whether a run may end in a way, from an end of a node among the given ones and its frames.
spec fn ends_may<S: CtxStorage>(
    frames: Seq<Frame>,
    ends: spec_fn(Result<(), Fault>, S::State) -> bool,
    h: Host<S::State>,
    r: Result<(), Fault>,
    s1: S::State,
) -> bool {
    exists|ra: Result<(), Fault>, sa: S::State| #[trigger]
        through(ra, sa) && ends(ra, sa) && frames_may::<S>(frames, h, ra, sa, r, s1)
}

/// Doing one thing in place of another is right if its ends are among those of the other.
proof fn lemma_instead<S: CtxStorage>(
    frames: Seq<Frame>,
    t: Todo,
    ends: spec_fn(Result<(), Fault>, S::State) -> bool,
    h: Host<S::State>,
    s: S::State,
    r: Result<(), Fault>,
    s1: S::State,
)
    requires
        run_may::<S>(frames, t, h, s, r, s1),
        forall|ra: Result<(), Fault>, sa: S::State| #[trigger]
            todo_may::<S>(t, h, s, ra, sa) ==> ends(ra, sa),
    ensures
        ends_may::<S>(frames, ends, h, r, s1),
{
    let (ra, sa) = choose|ra: Result<(), Fault>, sa: S::State| #[trigger]
        through(ra, sa) && todo_may::<S>(t, h, s, ra, sa) && frames_may::<S>(
            frames,
            h,
            ra,
            sa,
            r,
            s1,
        );
    assert(todo_may::<S>(t, h, s, ra, sa));
}

/// Doing a part of a thing, and the rest in a frame, is right if their ends are among those of
/// the thing.
proof fn lemma_pushed<S: CtxStorage>(
    frames: Seq<Frame>,
    f: Frame,
    t: Todo,
    ends: spec_fn(Result<(), Fault>, S::State) -> bool,
    h: Host<S::State>,
    s: S::State,
    r: Result<(), Fault>,
    s1: S::State,
)
    requires
        run_may::<S>(frames.push(f), t, h, s, r, s1),
        forall|ra: Result<(), Fault>, sa: S::State, rb: Result<(), Fault>, sb: S::State|
            #[trigger] todo_may::<S>(t, h, s, ra, sa) && #[trigger] frame_may::<S>(
                f,
                h,
                ra,
                sa,
                rb,
                sb,
            ) ==> ends(rb, sb),
    ensures
        ends_may::<S>(frames, ends, h, r, s1),
{
    let all = frames.push(f);
    let (ra, sa) = choose|ra: Result<(), Fault>, sa: S::State| #[trigger]
        through(ra, sa) && todo_may::<S>(t, h, s, ra, sa) && frames_may::<S>(all, h, ra, sa, r, s1);
    assert(frames_may::<S>(all, h, ra, sa, r, s1));
    let (rb, sb) = choose|rb: Result<(), Fault>, sb: S::State| #[trigger]
        through(rb, sb) && frame_may::<S>(all.last(), h, ra, sa, rb, sb) && frames_may::<S>(
            all.drop_last(),
            h,
            rb,
            sb,
            r,
            s1,
        );
    assert(all.drop_last() =~= frames);
    assert(todo_may::<S>(t, h, s, ra, sa) && frame_may::<S>(f, h, ra, sa, rb, sb));
    assert(through(rb, sb));
}

/// Waiting for a reply is right if its ends are among those of the thing that is waited for.
proof fn lemma_paused<S: CtxStorage>(
    frames: Seq<Frame>,
    need: Need,
    wait: Wait,
    ends: spec_fn(Result<(), Fault>, S::State) -> bool,
    h: Host<S::State>,
    s: S::State,
    r: Result<(), Fault>,
    s1: S::State,
)
    requires
        turn_may::<S>(frames, Turn::Pause(need, wait), h, s, r, s1),
        forall|reply: Result<Json, Fault>, sm: S::State, ra: Result<(), Fault>, sa: S::State|
            #[trigger] need_met(need, h, reply) && #[trigger] (h.meanwhile)(s, sm)
                && #[trigger] wait_may::<S>(wait, reply, sm, ra, sa) ==> ends(ra, sa),
    ensures
        ends_may::<S>(frames, ends, h, r, s1),
{
    let (reply, sm) = choose|reply: Result<Json, Fault>, sm: S::State|
        #[trigger] need_met(need, h, reply) && #[trigger] (h.meanwhile)(s, sm) && reply_may::<S>(
            frames,
            wait,
            h,
            reply,
            sm,
            r,
            s1,
        );
    let (ra, sa) = choose|ra: Result<(), Fault>, sa: S::State| #[trigger]
        through(ra, sa) && wait_may::<S>(wait, reply, sm, ra, sa) && frames_may::<S>(
            frames,
            h,
            ra,
            sa,
            r,
            s1,
        );
    assert(need_met(need, h, reply) && (h.meanwhile)(s, sm) && wait_may::<S>(
        wait,
        reply,
        sm,
        ra,
        sa,
    ));
    assert(through(ra, sa));
}

/// The ends of a node.
spec fn node_ends<S: CtxStorage>(node: Node, h: Host<S::State>, s0: S::State) -> spec_fn(
    Result<(), Fault>,
    S::State,
) -> bool {
    |ra: Result<(), Fault>, sa: S::State| may::<S>(node@, h, s0, ra, sa)
}

/// The ends of a frame.
spec fn frame_ends<S: CtxStorage>(
    f: Frame,
    h: Host<S::State>,
    r0: Result<(), Fault>,
    s0: S::State,
) -> spec_fn(Result<(), Fault>, S::State) -> bool {
    |ra: Result<(), Fault>, sa: S::State| frame_may::<S>(f, h, r0, s0, ra, sa)
}

/// The ends of a loop.
spec fn loop_ends<S: CtxStorage>(
    counter: Seq<char>,
    cond: Term,
    body: Tree,
    max: u32,
    n: nat,
    h: Host<S::State>,
    s0: S::State,
) -> spec_fn(Result<(), Fault>, S::State) -> bool {
    |ra: Result<(), Fault>, sa: S::State|
        may_loop::<S>(counter, cond, body, max, n, h, s0, ra, sa)
}

proof fn lemma_load_push(frames: Seq<Frame>, f: Frame)
    ensures
        load(frames.push(f)) == load(frames) + frame_weight(f),
{
    assert(frames.push(f).drop_last() =~= frames);
}

proof fn lemma_sound_push(frames: Seq<Frame>, f: Frame)
    requires
        sound(frames),
        sound(seq![f]),
    ensures
        sound(frames.push(f)),
{
    let s = seq![f];
    assert(s[0] == f);
    assert forall|i: int| 0 <= i < frames.push(f).len() implies match #[trigger] frames.push(f)[i] {
        Frame::Rounds { counter, cond, body, max, n } => n < max,
        Frame::Children { children, next } => next <= children@.len(),
        Frame::Guard { snap, catch, err_at } => true,
    } by {
        if i < frames.len() {
            assert(frames[i] == frames.push(f)[i]);
        }
    }
}

/// A round and what follows it are what a loop may do.
proof fn lemma_round<S: CtxStorage>(
    f: Frame,
    snap: Json,
    h: Host<S::State>,
    s: S::State,
    ra: Result<(), Fault>,
    sa: S::State,
    rb: Result<(), Fault>,
    sb: S::State,
)
    requires
        f is Rounds,
        f->n < f->max,
        S::shows(s, snap),
        value_of(f->cond@, snap, h.registry) matches Ok(v) && truthy(v),
        may::<S>(f->body@, h, s, ra, sa),
        frame_may::<S>(f, h, ra, sa, rb, sb),
    ensures
        may_loop::<S>(f->counter@, f->cond@, f->body@, f->max, f->n as nat, h, s, rb, sb),
{
    assert(through(ra, sa));
    if ra is Ok {
        let (rx, sx) = choose|rx: Result<(), Fault>, sx: S::State| #[trigger]
            S::takes(sa, f->counter@, count(f->n as nat + 1), rx, sx) && match rx {
                Err(_) => rb == rx && sb == sx,
                Ok(_) => may_loop::<S>(
                    f->counter@,
                    f->cond@,
                    f->body@,
                    f->max,
                    f->n as nat + 1,
                    h,
                    sx,
                    rb,
                    sb,
                ),
            };
        assert(S::takes(sa, f->counter@, count(f->n as nat + 1), rx, sx));
    }
}

/// Runs the next round of a loop, if there is one.
fn next_round<'a, S: CtxStorage, X: Externs>(
    counter: String,
    cond: &'a Expr,
    body: &'a Node,
    max: u32,
    n: u32,
    frames: &mut Vec<Frame<'a>>,
    ctx: &S,
    externs: &X,
) -> (t: Todo<'a>)
    requires
        n <= max,
        sound(old(frames)@),
    ensures
        sound(final(frames)@),
        load(final(frames)@) + todo_weight(t) <= load(old(frames)@) + (max - n) * (weight(body@)
            + 2),
        forall|h: Host<S::State>, r: Result<(), Fault>, s1: S::State|
            fits(h, externs) && #[trigger] run_may::<S>(final(frames)@, t, h, ctx.state(), r, s1)
                ==> ends_may::<S>(
                old(frames)@,
                loop_ends::<S>(counter@, cond@, body@, max, n as nat, h, ctx.state()),
                h,
                r,
                s1,
            ),
{
    let ghost s = ctx.state();
    let ghost fs = frames@;
    let ghost c = counter@;
    proof {
        assert((max - n) * (weight(body@) + 2) >= 0) by (nonlinear_arith)
            requires
                n <= max,
        ;
    }
    let ghost mut seen = Json::Null;
    let mut more = n < max;
    let mut ended: Result<(), EvalError> = Ok(());
    if more {
        let snap = ctx.snapshot();
        assert(S::shows(s, snap@));
        match eval_expr_with_externs(cond, &snap, externs) {
            Ok(v) => {
                more = is_truthy(&v);
            },
            Err(e) => {
                more = false;
                ended = Err(e);
            },
        }
        proof {
            if !more {
                let x = unit_outcome(ended);
                assert forall|h: Host<S::State>| fits(h, externs) implies #[trigger] may_loop::<S>(
                    c,
                    cond@,
                    body@,
                    max,
                    n as nat,
                    h,
                    s,
                    x,
                    s,
                ) by {
                    assert(S::shows(s, snap@));
                }
            }
        }
        proof {
            seen = snap@;
        }
    }
    if more {
        let frame = Frame::Rounds { counter, cond, body, max, n };
        frames.push(frame);
        let t = Todo::Enter(body);
        proof {
            let f = frames@.last();
            assert(frames@ == fs.push(f));
            lemma_load_push(fs, f);
            assert(seq![f][0] == f);
            lemma_sound_push(fs, f);
            let w = weight(body@) + 2;
            assert((max - n - 1) * w + w == (max - n) * w) by (nonlinear_arith);
            assert((max - n - 1) * w >= 0) by (nonlinear_arith)
                requires
                    n < max,
                    w >= 0,
            ;
            assert forall|h: Host<S::State>, r: Result<(), Fault>, s1: S::State|
                fits(h, externs) && #[trigger] run_may::<S>(
                    frames@,
                    t,
                    h,
                    s,
                    r,
                    s1,
                ) implies ends_may::<S>(fs, loop_ends::<S>(c, cond@, body@, max, n as nat, h, s), h, r, s1) by {
                let ends = loop_ends::<S>(c, cond@, body@, max, n as nat, h, s);
                assert forall|
                    ra: Result<(), Fault>,
                    sa: S::State,
                    rb: Result<(), Fault>,
                    sb: S::State,
                |
                    #[trigger] todo_may::<S>(t, h, s, ra, sa) && #[trigger] frame_may::<S>(
                        f,
                        h,
                        ra,
                        sa,
                        rb,
                        sb,
                    ) implies ends(rb, sb) by {
                    lemma_round::<S>(f, seen, h, s, ra, sa, rb, sb);
                }
                lemma_pushed::<S>(fs, f, t, ends, h, s, r, s1);
            }
        }
        t
    } else {
        let t = Todo::Leave(ended);
        proof {
            assert forall|h: Host<S::State>, r: Result<(), Fault>, s1: S::State|
                fits(h, externs) && #[trigger] run_may::<S>(
                    fs,
                    t,
                    h,
                    s,
                    r,
                    s1,
                ) implies ends_may::<S>(fs, loop_ends::<S>(c, cond@, body@, max, n as nat, h, s), h, r, s1) by {
                lemma_instead::<S>(
                    fs,
                    t,
                    loop_ends::<S>(c, cond@, body@, max, n as nat, h, s),
                    h,
                    s,
                    r,
                    s1,
                );
            }
        }
        t
    }
}

/// Whether what comes of running a node is right: each end that it may have is one that the
/// node may have.
spec fn right<S: CtxStorage, X: Externs>(
    new_frames: Seq<Frame>,
    turn: Turn,
    new_state: S::State,
    frames: Seq<Frame>,
    node: Node,
    state: S::State,
    x: &X,
) -> bool {
    forall|h: Host<S::State>, r: Result<(), Fault>, s1: S::State|
        fits(h, x) && #[trigger] turn_may::<S>(new_frames, turn, h, new_state, r, s1)
            ==> ends_may::<S>(frames, node_ends::<S>(node, h, state), h, r, s1)
}

/// A node that ends in a way that it may end in.
proof fn lemma_ended<S: CtxStorage, X: Externs>(
    frames: Seq<Frame>,
    node: Node,
    s0: S::State,
    ended: Result<(), EvalError>,
    s: S::State,
    x: &X,
)
    requires
        forall|h: Host<S::State>|
            #[trigger] fits(h, x) ==> may::<S>(node@, h, s0, unit_outcome(ended), s),
    ensures
        right::<S, X>(frames, Turn::On(Todo::Leave(ended)), s, frames, node, s0, x),
{
    let t = Todo::Leave(ended);
    assert forall|h: Host<S::State>, r: Result<(), Fault>, s1: S::State|
        fits(h, x) && #[trigger] turn_may::<S>(
            frames,
            Turn::On(t),
            h,
            s,
            r,
            s1,
        ) implies ends_may::<S>(frames, node_ends::<S>(node, h, s0), h, r, s1) by {
        lemma_instead::<S>(frames, t, node_ends::<S>(node, h, s0), h, s, r, s1);
    }
}

/// Evaluates the input of a step.
fn enter_step<'a, S: CtxStorage, X: Externs>(
    Ghost(frames): Ghost<Seq<Frame<'a>>>,
    node: &'a Node,
    ref_: &'a String,
    in_: &'a Expr,
    out: &'a Expr,
    ctx: &S,
    externs: &X,
) -> (t: Turn<'a>)
    requires
        node@ == (Tree::Step { ref_: ref_@, input: in_@, out: out@ }),
    ensures
        right::<S, X>(frames, t, ctx.state(), frames, *node, ctx.state(), externs),
        t matches Turn::On(todo) ==> todo is Leave,
        t.has_branches(),
{
    let ghost s0 = ctx.state();
    let snap = ctx.snapshot();
    assert(S::shows(s0, snap@));
    match eval_expr_with_externs(in_, &snap, externs) {
        Ok(input) => {
            let need = Need::Dispatch { ref_, input };
            let wait = Wait::Step { ref_, out };
            proof {
                let t = Turn::Pause(need, wait);
                assert forall|h: Host<S::State>, r: Result<(), Fault>, s1: S::State|
                    fits(h, externs) && #[trigger] turn_may::<S>(
                        frames,
                        t,
                        h,
                        s0,
                        r,
                        s1,
                    ) implies ends_may::<S>(frames, node_ends::<S>(*node, h, s0), h, r, s1) by {
                    let ends = node_ends::<S>(*node, h, s0);
                    assert forall|
                        reply: Result<Json, Fault>,
                        sm: S::State,
                        ra: Result<(), Fault>,
                        sa: S::State,
                    |
                        #[trigger] need_met(need, h, reply) && #[trigger] (h.meanwhile)(s0, sm)
                            && #[trigger] wait_may::<S>(wait, reply, sm, ra, sa) implies ends(
                        ra,
                        sa,
                    ) by {
                        assert((h.replies)(ref_@, input@, reply));
                        assert(delivers_later::<S>(
                            h,
                            out@,
                            step_result(ref_@, reply),
                            s0,
                            ra,
                            sa,
                        ));
                    }
                    lemma_paused::<S>(frames, need, wait, ends, h, s0, r, s1);
                }
            }
            Turn::Pause(need, wait)
        },
        Err(e) => {
            let ended: Result<(), EvalError> = Err(e);
            proof {
                lemma_ended::<S, X>(frames, *node, s0, ended, s0, externs);
            }
            Turn::On(Todo::Leave(ended))
        },
    }
}

/// Evaluates the items of a fanout and makes the contexts of its branches.
fn fanout_contexts(bind: &Expr, snap: &Value, items: &Vec<Value>) -> (r: Result<
    Vec<Value>,
    EvalError,
>)
    ensures
        match r {
            Ok(contexts) => views(contexts@) == starts(bind@, snap@, views(items@)) && (views(
                items@,
            ).len() > 0 ==> written(bind@, snap@, views(items@)[0]) is Ok),
            Err(e) => views(items@).len() > 0 && written(bind@, snap@, views(items@)[0]) == Err::<
                Json,
                Fault,
            >(e@),
        },
{
    let ghost xs = views(items@);
    let mut contexts: Vec<Value> = Vec::new();
    proof {
        lemma_views(items@);
        assert(views(contexts@) =~= starts(bind@, snap@, xs).take(0));
    }
    let mut i: usize = 0;
    while i < items.len()
        invariant
            xs == views(items@),
            i <= items@.len() == xs.len(),
            views(contexts@) == starts(bind@, snap@, xs).take(i as int),
            i > 0 ==> written(bind@, snap@, xs[0]) is Ok,
        decreases items@.len() - i,
    {
        proof {
            lemma_views(items@);
            lemma_bind_alike(bind@, snap@, xs[i as int], xs[0]);
        }
        let context = match write_path(bind, snap.clone(), items[i].clone()) {
            Ok(c) => c,
            Err(e) => return Err(e),
        };
        proof {
            lemma_views_push(contexts@, context);
            assert(starts(bind@, snap@, xs).take(i + 1) =~= starts(bind@, snap@, xs).take(
                i as int,
            ).push(context@));
        }
        contexts.push(context);
        i = i + 1;
    }
    proof {
        assert(starts(bind@, snap@, xs).take(i as int) =~= starts(bind@, snap@, xs));
    }
    Ok(contexts)
}

/// What branches give is what a fanout may join.
proof fn lemma_branches_join(
    join: JoinMode,
    bind: Term,
    body: Tree,
    h: Host<Json>,
    snap: Json,
    items: Seq<Json>,
    joined: Result<Json, Fault>,
)
    requires
        items.len() > 0 ==> written(bind, snap, items[0]) is Ok,
        items.len() == 0 ==> join == JoinMode::All || join == JoinMode::AllSettled,
        may_branches(join, body, h, starts(bind, snap, items), joined),
    ensures
        may_join(join, bind, body, h, snap, items, joined),
{
    if items.len() == 0 {
        let none = Seq::<Result<Json, Fault>>::empty();
        assert(records(none) =~= Seq::<Json>::empty());
        assert(successes(none) =~= Seq::<Json>::empty());
        if h.concurrent {
            match join {
                JoinMode::All => {
                    assert(joined->Ok_0->Arr_0 =~= Seq::<Json>::empty());
                },
                JoinMode::AllSettled => {
                    let rs = choose|rs: Seq<Result<Json, Fault>>| #[trigger]
                        results(rs) && rs.len() == starts(bind, snap, items).len() && joined
                            == Ok::<Json, Fault>(Json::Arr(records(rs)));
                    assert(records(rs) =~= Seq::<Json>::empty());
                },
                _ => {},
            }
        }
    }
}

/// A fanout that has its joined result without running a branch.
proof fn lemma_joined_at_once<S: CtxStorage>(
    t: Tree,
    s0: S::State,
    snap: Json,
    xs: Seq<Json>,
    joined: Result<Json, Fault>,
    r: Result<(), Fault>,
    s1: S::State,
)
    requires
        t is Fanout,
        S::shows(s0, snap),
        if xs.len() == 0 {
            ||| t->Fanout_join == JoinMode::Any && joined == Err::<Json, Fault>(
                empty_fault("fanout.any"@),
            )
            ||| t->Fanout_join == JoinMode::Race && joined == Err::<Json, Fault>(
                empty_fault("fanout.race"@),
            )
        } else {
            written(t->bind, snap, xs[0]) matches Err(f) && joined == if t->Fanout_join
                == JoinMode::AllSettled {
                Ok::<Json, Fault>(Json::Arr(records(unbound(t->bind, snap, xs))))
            } else {
                Err(f)
            }
        },
        delivers::<S>(t->Fanout_out, joined, s0, r, s1),
    ensures
        forall|h: Host<S::State>|
            #![trigger may::<S>(t, h, s0, r, s1)]
            calm(h) && value_of(t->items, snap, h.registry) == Ok::<Json, Fault>(Json::Arr(xs))
                ==> may::<S>(t, h, s0, r, s1),
{
    assert forall|h: Host<S::State>|
        #![trigger may::<S>(t, h, s0, r, s1)]
        calm(h) && value_of(t->items, snap, h.registry) == Ok::<Json, Fault>(
            Json::Arr(xs),
        ) implies may::<S>(t, h, s0, r, s1) by {
        assert(may_join(
            t->Fanout_join,
            t->bind,
            *t->Fanout_body,
            private(h),
            snap,
            xs,
            joined,
        ));
        assert((h.meanwhile)(s0, s0));
        assert(delivers_later::<S>(h, t->Fanout_out, joined, s0, r, s1));
        assert(S::shows(s0, snap));
    }
}

/// Prepares the branches of a fanout.
fn enter_fanout<'a, S: CtxStorage, X: Externs>(
    Ghost(frames): Ghost<Seq<Frame<'a>>>,
    node: &'a Node,
    items: &'a Expr,
    bind: &'a Expr,
    body: &'a Node,
    join: JoinMode,
    out: &'a Expr,
    ctx: &mut S,
    externs: &X,
) -> (t: Turn<'a>)
    requires
        node@ == (Tree::Fanout {
            items: items@,
            bind: bind@,
            body: Box::new(body@),
            join,
            out: out@,
        }),
    ensures
        right::<S, X>(
            frames,
            t,
            final(ctx).state(),
            frames,
            *node,
            old(ctx).state(),
            externs,
        ),
        t matches Turn::On(todo) ==> todo is Leave,
        t.has_branches(),
{
    let ghost s0 = ctx.state();
    let snap = ctx.snapshot();
    assert(S::shows(s0, snap@));
    let a = match eval_expr_with_externs(items, &snap, externs) {
        Ok(Value::Array(a)) => a,
        Ok(other) => {
            let mut msg = "expected array, got ".to_owned();
            msg.append(debug(&other).as_str());
            let ended: Result<(), EvalError> = Err(
                EvalError::TypeError { op: "fanout.items".to_owned(), msg },
            );
            proof {
                lemma_ended::<S, X>(frames, *node, s0, ended, s0, externs);
            }
            return Turn::On(Todo::Leave(ended));
        },
        Err(e) => {
            let ended: Result<(), EvalError> = Err(e);
            proof {
                lemma_ended::<S, X>(frames, *node, s0, ended, s0, externs);
            }
            return Turn::On(Todo::Leave(ended));
        },
    };
    let ghost xs = views(a@);
    let n = a.len();
    proof {
        lemma_views(a@);
    }
    let joined: Result<Value, EvalError> = match fanout_contexts(bind, &snap, &a) {
        Ok(contexts) => {
            proof {
                lemma_views(contexts@);
            }
            if n == 0 && join == JoinMode::Any {
                Err(no_items("fanout.any"))
            } else if n == 0 && join == JoinMode::Race {
                Err(no_items("fanout.race"))
            } else {
                let need = Need::Fanout { join, body, contexts };
                let wait = Wait::Join { out };
                proof {
                    let t = Turn::Pause(need, wait);
                    assert forall|h: Host<S::State>, r: Result<(), Fault>, s1: S::State|
                        fits(h, externs) && #[trigger] turn_may::<S>(
                            frames,
                            t,
                            h,
                            s0,
                            r,
                            s1,
                        ) implies ends_may::<S>(frames, node_ends::<S>(*node, h, s0), h, r, s1) by {
                        let ends = node_ends::<S>(*node, h, s0);
                        assert forall|
                            reply: Result<Json, Fault>,
                            sm: S::State,
                            ra: Result<(), Fault>,
                            sa: S::State,
                        |
                            #[trigger] need_met(need, h, reply) && #[trigger] (h.meanwhile)(s0, sm)
                                && #[trigger] wait_may::<S>(wait, reply, sm, ra, sa) implies ends(
                            ra,
                            sa,
                        ) by {
                            lemma_branches_join(
                                join,
                                bind@,
                                body@,
                                private(h),
                                snap@,
                                xs,
                                reply,
                            );
                            assert(delivers_later::<S>(h, out@, reply, s0, ra, sa));
                        }
                        lemma_paused::<S>(frames, need, wait, ends, h, s0, r, s1);
                    }
                }
                return Turn::Pause(need, wait);
            }
        },
        Err(e) => if join == JoinMode::AllSettled {
            Ok(join_unbound(bind, &snap, &a))
        } else {
            Err(e)
        },
    };
    let ghost j = value_outcome(joined);
    let ended = deliver(out, joined, ctx);
    proof {
        lemma_joined_at_once::<S>(node@, s0, snap@, xs, j, unit_outcome(ended), ctx.state());
        lemma_ended::<S, X>(frames, *node, s0, ended, ctx.state(), externs);
    }
    Turn::On(Todo::Leave(ended))
}

/// Fewer ends of a node make fewer ends of the run.
proof fn lemma_fewer_ends<S: CtxStorage>(
    frames: Seq<Frame>,
    few: spec_fn(Result<(), Fault>, S::State) -> bool,
    many: spec_fn(Result<(), Fault>, S::State) -> bool,
    h: Host<S::State>,
    r: Result<(), Fault>,
    s1: S::State,
)
    requires
        ends_may::<S>(frames, few, h, r, s1),
        forall|ra: Result<(), Fault>, sa: S::State| #[trigger] few(ra, sa) ==> many(ra, sa),
    ensures
        ends_may::<S>(frames, many, h, r, s1),
{
    let (ra, sa) = choose|ra: Result<(), Fault>, sa: S::State| #[trigger]
        through(ra, sa) && few(ra, sa) && frames_may::<S>(frames, h, ra, sa, r, s1);
    assert(through(ra, sa) && many(ra, sa));
}

/// Starts a loop.
fn enter_loop<'a, S: CtxStorage, X: Externs>(
    node: &'a Node,
    counter: &'a Expr,
    cond: &'a Expr,
    body: &'a Node,
    max: u32,
    frames: &mut Vec<Frame<'a>>,
    ctx: &mut S,
    externs: &X,
) -> (t: Todo<'a>)
    requires
        node@ == (Tree::Loop { counter: counter@, cond: cond@, body: Box::new(body@), max }),
        sound(old(frames)@),
    ensures
        sound(final(frames)@),
        right::<S, X>(
            final(frames)@,
            Turn::On(t),
            final(ctx).state(),
            old(frames)@,
            *node,
            old(ctx).state(),
            externs,
        ),
        load(final(frames)@) + todo_weight(t) < load(old(frames)@) + 1 + weight(node@),
{
    let ghost s0 = ctx.state();
    let ghost fs = frames@;
    let ended: Result<(), EvalError> = match path_of(counter) {
        Ok(p) => {
            let path = p.to_string();
            let ghost c = path@;
            let first = ctx.write(path.as_str(), counted(0));
            let ghost s = ctx.state();
            assert(S::takes(s0, c, count(0), unit_outcome(first), s));
            match first {
                Ok(_) => {
                    let t = next_round(path, cond, body, max, 0, frames, &*ctx, externs);
                    proof {
                        assert forall|h: Host<S::State>, r: Result<(), Fault>, s1: S::State|
                            fits(h, externs) && #[trigger] turn_may::<S>(
                                frames@,
                                Turn::On(t),
                                h,
                                s,
                                r,
                                s1,
                            ) implies ends_may::<S>(fs, node_ends::<S>(*node, h, s0), h, r, s1) by {
                            assert(run_may::<S>(frames@, t, h, s, r, s1));
                            lemma_fewer_ends::<S>(
                                fs,
                                loop_ends::<S>(c, cond@, body@, max, 0, h, s),
                                node_ends::<S>(*node, h, s0),
                                h,
                                r,
                                s1,
                            );
                        }
                    }
                    return t;
                },
                Err(e) => Err(e),
            }
        },
        Err(e) => Err(e),
    };
    proof {
        lemma_ended::<S, X>(fs, *node, s0, ended, ctx.state(), externs);
    }
    Todo::Leave(ended)
}

/// Runs a node up to its first part, or up to what it needs.
fn enter<'a, S: CtxStorage, X: Externs>(
    node: &'a Node,
    frames: &mut Vec<Frame<'a>>,
    ctx: &mut S,
    externs: &X,
) -> (t: Turn<'a>)
    requires
        sound(old(frames)@),
    ensures
        sound(final(frames)@),
        right::<S, X>(
            final(frames)@,
            t,
            final(ctx).state(),
            old(frames)@,
            *node,
            old(ctx).state(),
            externs,
        ),
        t matches Turn::On(todo) ==> load(final(frames)@) + todo_weight(todo) < load(old(frames)@)
            + 1 + weight(node@),
        t.has_branches(),
{
    let ghost s0 = ctx.state();
    let ghost fs = frames@;
    match node {
        Node::Step { ref_, in_, out } => enter_step(
            Ghost(fs),
            node,
            ref_,
            in_,
            out,
            &*ctx,
            externs,
        ),
        Node::Sequence { children } => {
            frames.push(Frame::Children { children, next: 0 });
            let t = Todo::Leave(Ok(()));
            proof {
                let f = frames@.last();
                lemma_load_push(fs, f);
                assert(seq![f][0] == f);
                lemma_sound_push(fs, f);
                assert(trees(children@).skip(0) =~= trees(children@));
                assert forall|h: Host<S::State>, r: Result<(), Fault>, s1: S::State|
                    fits(h, externs) && #[trigger] turn_may::<S>(
                        frames@,
                        Turn::On(t),
                        h,
                        s0,
                        r,
                        s1,
                    ) implies ends_may::<S>(fs, node_ends::<S>(*node, h, s0), h, r, s1) by {
                    lemma_pushed::<S>(fs, f, t, node_ends::<S>(*node, h, s0), h, s0, r, s1);
                }
            }
            Turn::On(t)
        },
        Node::Branch { cond, then_, else_ } => {
            let snap = ctx.snapshot();
            assert(S::shows(s0, snap@));
            let t = match eval_expr_with_externs(cond, &snap, externs) {
                Err(e) => Todo::Leave(Err(e)),
                Ok(Value::Bool(true)) => Todo::Enter(then_),
                Ok(Value::Bool(false)) => Todo::Enter(else_),
                Ok(other) => Todo::Leave(Err(EvalError::NonBoolCond(other))),
            };
            proof {
                assert forall|h: Host<S::State>, r: Result<(), Fault>, s1: S::State|
                    fits(h, externs) && #[trigger] turn_may::<S>(
                        fs,
                        Turn::On(t),
                        h,
                        s0,
                        r,
                        s1,
                    ) implies ends_may::<S>(fs, node_ends::<S>(*node, h, s0), h, r, s1) by {
                    lemma_instead::<S>(fs, t, node_ends::<S>(*node, h, s0), h, s0, r, s1);
                }
            }
            Turn::On(t)
        },
        Node::Fanout { items, bind, body, join, out } => enter_fanout(
            Ghost(fs),
            node,
            items,
            bind,
            body,
            *join,
            out,
            ctx,
            externs,
        ),
        Node::Loop { counter, cond, body, max } => Turn::On(
            enter_loop(node, counter, cond, body, *max, frames, ctx, externs),
        ),
        Node::Try { body, catch, err_at } => {
            let snap = ctx.snapshot();
            let ghost seen = snap@;
            assert(S::shows(s0, seen));
            frames.push(Frame::Guard { snap, catch, err_at });
            let t = Todo::Enter(body);
            proof {
                let f = frames@.last();
                lemma_load_push(fs, f);
                assert(seq![f][0] == f);
                lemma_sound_push(fs, f);
                assert forall|h: Host<S::State>, r: Result<(), Fault>, s1: S::State|
                    fits(h, externs) && #[trigger] turn_may::<S>(
                        frames@,
                        Turn::On(t),
                        h,
                        s0,
                        r,
                        s1,
                    ) implies ends_may::<S>(fs, node_ends::<S>(*node, h, s0), h, r, s1) by {
                    let ends = node_ends::<S>(*node, h, s0);
                    assert forall|
                        ra: Result<(), Fault>,
                        sa: S::State,
                        rb: Result<(), Fault>,
                        sb: S::State,
                    |
                        #[trigger] todo_may::<S>(t, h, s0, ra, sa) && #[trigger] frame_may::<S>(
                            f,
                            h,
                            ra,
                            sa,
                            rb,
                            sb,
                        ) implies ends(rb, sb) by {
                        assert(S::shows(s0, seen) && through(ra, sa));
                    }
                    lemma_pushed::<S>(fs, f, t, ends, h, s0, r, s1);
                }
            }
            Turn::On(t)
        },
        Node::Let { at, value } => {
            let snap = ctx.snapshot();
            assert(S::shows(s0, snap@));
            let ended = match eval_expr_with_externs(value, &snap, externs) {
                Ok(v) => ctx.write(at.to_string().as_str(), v),
                Err(e) => Err(e),
            };
            proof {
                lemma_ended::<S, X>(fs, *node, s0, ended, ctx.state(), externs);
            }
            Turn::On(Todo::Leave(ended))
        },
    }
}

/// A run whose last frame may end in a way may itself end in a way.
proof fn lemma_last_frame<S: CtxStorage>(
    frames: Seq<Frame>,
    f: Frame,
    x: Result<(), EvalError>,
    h: Host<S::State>,
    s0: S::State,
    r: Result<(), Fault>,
    s1: S::State,
)
    requires
        ends_may::<S>(frames, frame_ends::<S>(f, h, unit_outcome(x), s0), h, r, s1),
    ensures
        run_may::<S>(frames.push(f), Todo::Leave(x), h, s0, r, s1),
{
    let all = frames.push(f);
    let ends = frame_ends::<S>(f, h, unit_outcome(x), s0);
    let (ra, sa) = choose|ra: Result<(), Fault>, sa: S::State| #[trigger]
        through(ra, sa) && ends(ra, sa) && frames_may::<S>(frames, h, ra, sa, r, s1);
    assert(all.drop_last() =~= frames);
    assert(through(ra, sa));
    assert(frames_may::<S>(all, h, unit_outcome(x), s0, r, s1));
    assert(through(unit_outcome(x), s0));
}

/// Whether going on after a node that has ended is right: each end that the run may have is one
/// that it might have had before.
spec fn goes_on<S: CtxStorage, X: Externs>(
    new_frames: Seq<Frame>,
    t: Todo,
    new_state: S::State,
    frames: Seq<Frame>,
    f: Frame,
    r0: Result<(), Fault>,
    state: S::State,
    x: &X,
) -> bool {
    forall|h: Host<S::State>, r: Result<(), Fault>, s1: S::State|
        fits(h, x) && #[trigger] run_may::<S>(new_frames, t, h, new_state, r, s1) ==> ends_may::<S>(
            frames,
            frame_ends::<S>(f, h, r0, state),
            h,
            r,
            s1,
        )
}

/// A frame that ends in a way that it may end in.
proof fn lemma_frame_ended<S: CtxStorage, X: Externs>(
    frames: Seq<Frame>,
    f: Frame,
    r0: Result<(), Fault>,
    s0: S::State,
    ended: Result<(), EvalError>,
    s: S::State,
    x: &X,
)
    requires
        forall|h: Host<S::State>|
            #[trigger] fits(h, x) ==> frame_may::<S>(f, h, r0, s0, unit_outcome(ended), s),
    ensures
        goes_on::<S, X>(frames, Todo::Leave(ended), s, frames, f, r0, s0, x),
{
    let t = Todo::Leave(ended);
    assert forall|h: Host<S::State>, r: Result<(), Fault>, s1: S::State|
        fits(h, x) && #[trigger] run_may::<S>(frames, t, h, s, r, s1) implies ends_may::<S>(
        frames,
        frame_ends::<S>(f, h, r0, s0),
        h,
        r,
        s1,
    ) by {
        lemma_instead::<S>(frames, t, frame_ends::<S>(f, h, r0, s0), h, s, r, s1);
    }
}

/// Runs the next child of a sequence.
fn leave_child<'a, S: CtxStorage, X: Externs>(
    children: &'a Vec<Node>,
    next: usize,
    frames: &mut Vec<Frame<'a>>,
    ctx: &S,
    externs: &X,
) -> (t: Todo<'a>)
    requires
        next <= children@.len(),
        sound(old(frames)@),
    ensures
        sound(final(frames)@),
        goes_on::<S, X>(
            final(frames)@,
            t,
            ctx.state(),
            old(frames)@,
            (Frame::Children { children, next }),
            Ok(()),
            ctx.state(),
            externs,
        ),
        load(final(frames)@) + todo_weight(t) < load(old(frames)@) + frame_weight(
            (Frame::Children { children, next }),
        ),
{
    let ghost fs = frames@;
    let ghost s0 = ctx.state();
    let ghost whole: Frame<'a> = Frame::Children { children, next };
    let ghost rest = trees(children@).skip(next as int);
    proof {
        lemma_trees(children@);
    }
    if next < children.len() {
        frames.push(Frame::Children { children, next: next + 1 });
        let t = Todo::Enter(&children[next]);
        proof {
            let f = frames@.last();
            lemma_load_push(fs, f);
            assert(seq![f][0] == f);
            lemma_sound_push(fs, f);
            assert(rest.drop_first() =~= trees(children@).skip(next + 1));
            assert(rest[0] == children@[next as int]@);
            assert forall|h: Host<S::State>, r: Result<(), Fault>, s1: S::State|
                fits(h, externs) && #[trigger] run_may::<S>(
                    frames@,
                    t,
                    h,
                    s0,
                    r,
                    s1,
                ) implies ends_may::<S>(fs, frame_ends::<S>(whole, h, Ok(()), s0), h, r, s1) by {
                let ends = frame_ends::<S>(whole, h, Ok(()), s0);
                assert forall|
                    ra: Result<(), Fault>,
                    sa: S::State,
                    rb: Result<(), Fault>,
                    sb: S::State,
                |
                    #[trigger] todo_may::<S>(t, h, s0, ra, sa) && #[trigger] frame_may::<S>(
                        f,
                        h,
                        ra,
                        sa,
                        rb,
                        sb,
                    ) implies ends(rb, sb) by {
                    assert(through(ra, sa));
                    assert(may_all::<S>(rest, h, s0, rb, sb));
                }
                lemma_pushed::<S>(fs, f, t, ends, h, s0, r, s1);
            }
        }
        t
    } else {
        proof {
            lemma_frame_ended::<S, X>(fs, whole, Ok(()), s0, Ok(()), s0, externs);
        }
        Todo::Leave(Ok(()))
    }
}

/// What a loop does after a round.
proof fn lemma_counted<S: CtxStorage>(
    f: Frame,
    h: Host<S::State>,
    s0: S::State,
    rx: Result<(), Fault>,
    sx: S::State,
    r: Result<(), Fault>,
    s1: S::State,
)
    requires
        f is Rounds,
        S::takes(s0, f->counter@, count(f->n as nat + 1), rx, sx),
        match rx {
            Err(_) => r == rx && s1 == sx,
            Ok(_) => may_loop::<S>(
                f->counter@,
                f->cond@,
                f->body@,
                f->max,
                f->n as nat + 1,
                h,
                sx,
                r,
                s1,
            ),
        },
    ensures
        frame_may::<S>(f, h, Ok(()), s0, r, s1),
{
}

/// Counts a round of a loop and runs the next.
fn leave_round<'a, S: CtxStorage, X: Externs>(
    counter: String,
    cond: &'a Expr,
    body: &'a Node,
    max: u32,
    n: u32,
    frames: &mut Vec<Frame<'a>>,
    ctx: &mut S,
    externs: &X,
) -> (t: Todo<'a>)
    requires
        n < max,
        sound(old(frames)@),
    ensures
        sound(final(frames)@),
        goes_on::<S, X>(
            final(frames)@,
            t,
            final(ctx).state(),
            old(frames)@,
            (Frame::Rounds { counter, cond, body, max, n }),
            Ok(()),
            old(ctx).state(),
            externs,
        ),
        load(final(frames)@) + todo_weight(t) < load(old(frames)@) + frame_weight(
            (Frame::Rounds { counter, cond, body, max, n }),
        ),
{
    let ghost fs = frames@;
    let ghost s0 = ctx.state();
    let ghost whole: Frame<'a> = Frame::Rounds { counter, cond, body, max, n };
    let ghost c = counter@;
    let next = ctx.write(counter.as_str(), counted(n + 1));
    let ghost s = ctx.state();
    assert(S::takes(s0, c, count(n as nat + 1), unit_outcome(next), s));
    proof {
        assert((max - n - 1) * (weight(body@) + 2) >= 0) by (nonlinear_arith)
            requires
                n < max,
        ;
    }
    match next {
        Ok(_) => {
            let t = next_round(counter, cond, body, max, n + 1, frames, &*ctx, externs);
            proof {
                assert forall|h: Host<S::State>, r: Result<(), Fault>, s1: S::State|
                    fits(h, externs) && #[trigger] run_may::<S>(
                        frames@,
                        t,
                        h,
                        s,
                        r,
                        s1,
                    ) implies ends_may::<S>(fs, frame_ends::<S>(whole, h, Ok(()), s0), h, r, s1) by {
                    let few = loop_ends::<S>(c, cond@, body@, max, (n + 1) as nat, h, s);
                    let many = frame_ends::<S>(whole, h, Ok(()), s0);
                    assert forall|ra: Result<(), Fault>, sa: S::State| #[trigger]
                        few(ra, sa) implies many(ra, sa) by {
                        lemma_counted::<S>(whole, h, s0, Ok(()), s, ra, sa);
                    }
                    lemma_fewer_ends::<S>(fs, few, many, h, r, s1);
                }
            }
            t
        },
        Err(e) => {
            let ended: Result<(), EvalError> = Err(e);
            proof {
                let rx = unit_outcome(ended);
                assert forall|h: Host<S::State>| #[trigger] fits(h, externs) implies frame_may::<S>(
                    whole,
                    h,
                    Ok(()),
                    s0,
                    rx,
                    s,
                ) by {
                    lemma_counted::<S>(whole, h, s0, rx, s, rx, s);
                }
                lemma_frame_ended::<S, X>(fs, whole, Ok(()), s0, ended, s, externs);
            }
            Todo::Leave(ended)
        },
    }
}

/// Undoes what the body of a try wrote, notes its failure and runs what catches it.
fn leave_guard<'a, S: CtxStorage, X: Externs>(
    e: EvalError,
    snap: Value,
    catch: &'a Node,
    err_at: &'a Option<Expr>,
    Ghost(fs): Ghost<Seq<Frame<'a>>>,
    ctx: &mut S,
    externs: &X,
) -> (t: Todo<'a>)
    ensures
        goes_on::<S, X>(
            fs,
            t,
            final(ctx).state(),
            fs,
            (Frame::Guard { snap, catch, err_at }),
            Err(e@),
            old(ctx).state(),
            externs,
        ),
        todo_weight(t) < frame_weight((Frame::Guard { snap, catch, err_at })),
{
    let ghost s0 = ctx.state();
    let ghost whole: Frame<'a> = Frame::Guard { snap, catch, err_at };
    let ghost seen = snap@;
    ctx.replace(snap);
    let ghost sa = ctx.state();
    assert(S::becomes(s0, seen, sa));
    if let Some(at) = err_at {
        let noted = match path_of(at) {
            Ok(p) => {
                let w = ctx.write(p.to_string().as_str(), Value::String(e.to_string()));
                assert(S::takes(
                    sa,
                    shown(p@),
                    Json::Str(fault_text(e@)),
                    unit_outcome(w),
                    ctx.state(),
                ));
                w
            },
            Err(g) => Err(g),
        };
        if let Err(g) = noted {
            let ended: Result<(), EvalError> = Err(g);
            proof {
                lemma_frame_ended::<S, X>(fs, whole, Err(e@), s0, ended, ctx.state(), externs);
            }
            return Todo::Leave(ended);
        }
    }
    let t = Todo::Enter(catch);
    proof {
        let s = ctx.state();
        assert forall|h: Host<S::State>, r: Result<(), Fault>, s1: S::State|
            fits(h, externs) && #[trigger] run_may::<S>(fs, t, h, s, r, s1) implies ends_may::<S>(
            fs,
            frame_ends::<S>(whole, h, Err(e@), s0),
            h,
            r,
            s1,
        ) by {
            lemma_instead::<S>(fs, t, frame_ends::<S>(whole, h, Err(e@), s0), h, s, r, s1);
        }
    }
    t
}

/// Goes on after a node that has ended.
fn leave<'a, S: CtxStorage, X: Externs>(
    x: Result<(), EvalError>,
    frames: &mut Vec<Frame<'a>>,
    ctx: &mut S,
    externs: &X,
) -> (t: Todo<'a>)
    requires
        old(frames)@.len() > 0,
        sound(old(frames)@),
    ensures
        sound(final(frames)@),
        load(final(frames)@) + todo_weight(t) < load(old(frames)@),
        forall|h: Host<S::State>, r: Result<(), Fault>, s1: S::State|
            fits(h, externs) && #[trigger] run_may::<S>(
                final(frames)@,
                t,
                h,
                final(ctx).state(),
                r,
                s1,
            ) ==> run_may::<S>(old(frames)@, Todo::Leave(x), h, old(ctx).state(), r, s1),
{
    let ghost s0 = ctx.state();
    let ghost all = frames@;
    let ghost f = all.last();
    let ghost fs = all.drop_last();
    let ghost r0 = unit_outcome(x);
    proof {
        assert(fs.push(f) =~= all);
        assert(all[all.len() - 1] == f);
        assert(sound(fs)) by {
            assert forall|i: int| 0 <= i < fs.len() implies match #[trigger] fs[i] {
                Frame::Rounds { counter, cond, body, max, n } => n < max,
                Frame::Children { children, next } => next <= children@.len(),
                Frame::Guard { snap, catch, err_at } => true,
            } by {
                assert(all[i] == fs[i]);
            }
        }
        lemma_load_push(fs, f);
        assert forall|h: Host<S::State>, r: Result<(), Fault>, s1: S::State| #[trigger]
            ends_may::<S>(fs, frame_ends::<S>(f, h, r0, s0), h, r, s1) implies run_may::<S>(
            all,
            Todo::Leave(x),
            h,
            s0,
            r,
            s1,
        ) by {
            lemma_last_frame::<S>(fs, f, x, h, s0, r, s1);
        }
    }
    let last = frames.pop();
    let t = match (last, x) {
        (Some(Frame::Children { children, next }), Ok(_)) => leave_child(
            children,
            next,
            frames,
            &*ctx,
            externs,
        ),
        (Some(Frame::Rounds { counter, cond, body, max, n }), Ok(_)) => leave_round(
            counter,
            cond,
            body,
            max,
            n,
            frames,
            ctx,
            externs,
        ),
        (Some(Frame::Guard { snap, catch, err_at }), Err(e)) => leave_guard(
            e,
            snap,
            catch,
            err_at,
            Ghost(fs),
            ctx,
            externs,
        ),
        (_, x) => {
            proof {
                lemma_frame_ended::<S, X>(fs, f, r0, s0, x, s0, externs);
            }
            Todo::Leave(x)
        },
    };
    proof {
        assert(goes_on::<S, X>(frames@, t, ctx.state(), fs, f, r0, s0, externs));
    }
    t
}

/// Suspends a run.
fn suspend<'a>(need: Need<'a>, wait: Wait<'a>, frames: Vec<Frame<'a>>) -> (p: Progress<'a>)
    requires
        sound(frames@),
        need.has_branches(),
    ensures
        waits(p, need, wait, frames@),
        p.has_branches(),
{
    let rest = Suspended { frames, wait };
    match need {
        Need::Dispatch { ref_, input } => Progress::Dispatch { ref_, input, rest },
        Need::Fanout { join, body, contexts } => Progress::Fanout { join, body, contexts, rest },
    }
}

/// Whether a run waits for what it needs.
spec fn waits(p: Progress, need: Need, wait: Wait, frames: Seq<Frame>) -> bool {
    match need {
        Need::Dispatch { ref_, input } => p matches Progress::Dispatch { ref_: a, input: b, rest }
            && a == ref_ && b == input && rest.frames@ == frames && rest.wait == wait,
        Need::Fanout { join, body, contexts } => p matches Progress::Fanout {
            join: a,
            body: b,
            contexts: c,
            rest,
        } && a == join && b == body && c == contexts && rest.frames@ == frames && rest.wait == wait,
    }
}

proof fn lemma_suspended<S: CtxStorage>(
    p: Progress,
    frames: Seq<Frame>,
    need: Need,
    wait: Wait,
    h: Host<S::State>,
    s: S::State,
    r: Result<(), Fault>,
    s1: S::State,
)
    requires
        waits(p, need, wait, frames),
        p.may_end::<S>(h, s, r, s1),
    ensures
        turn_may::<S>(frames, Turn::Pause(need, wait), h, s, r, s1),
{
    match p {
        Progress::Done(_) => {},
        Progress::Dispatch { ref_, input, rest } => {
            let (reply, sm) = choose|reply: Result<Json, Fault>, sm: S::State|
                #[trigger] (h.replies)(ref_@, input@, reply) && #[trigger] (h.meanwhile)(s, sm)
                    && rest.may_end::<S>(h, reply, sm, r, s1);
            assert(need_met(need, h, reply) && (h.meanwhile)(s, sm));
        },
        Progress::Fanout { join, body, contexts, rest } => {
            let (reply, sm) = choose|reply: Result<Json, Fault>, sm: S::State|
                #[trigger] may_branches(join, body@, private(h), views(contexts@), reply)
                    && #[trigger] (h.meanwhile)(s, sm) && rest.may_end::<S>(h, reply, sm, r, s1);
            assert(need_met(need, h, reply) && (h.meanwhile)(s, sm));
        },
    }
}

/// A run without frames ends as its node does.
proof fn lemma_last_end<S: CtxStorage>(
    frames: Seq<Frame>,
    x: Result<(), EvalError>,
    h: Host<S::State>,
    s: S::State,
)
    requires
        frames.len() == 0,
    ensures
        run_may::<S>(frames, Todo::Leave(x), h, s, unit_outcome(x), s),
{
    assert(through(unit_outcome(x), s));
    assert(frames_may::<S>(frames, h, unit_outcome(x), s, unit_outcome(x), s));
}

/// What comes of one turn.
enum Next<'a> {
    /// The run goes on.
    On(Vec<Frame<'a>>, Todo<'a>),
    /// The run has ended or waits.
    Stop(Progress<'a>),
}

spec fn next_may<S: CtxStorage>(
    n: Next,
    h: Host<S::State>,
    s: S::State,
    r: Result<(), Fault>,
    s1: S::State,
) -> bool {
    match n {
        Next::On(frames, todo) => run_may::<S>(frames@, todo, h, s, r, s1),
        Next::Stop(p) => p.may_end::<S>(h, s, r, s1),
    }
}

/// Runs one turn.
fn take_turn<'a, S: CtxStorage, X: Externs>(
    frames: Vec<Frame<'a>>,
    todo: Todo<'a>,
    ctx: &mut S,
    externs: &X,
) -> (n: Next<'a>)
    requires
        sound(frames@),
    ensures
        n matches Next::On(f, t) ==> sound(f@) && load(f@) + todo_weight(t) < load(frames@)
            + todo_weight(todo),
        n matches Next::Stop(p) ==> p.has_branches(),
        forall|h: Host<S::State>, r: Result<(), Fault>, s1: S::State|
            fits(h, externs) && #[trigger] next_may::<S>(n, h, final(ctx).state(), r, s1)
                ==> run_may::<S>(frames@, todo, h, old(ctx).state(), r, s1),
{
    let ghost fs = frames@;
    let ghost s = ctx.state();
    let ghost before = todo;
    let mut frames = frames;
    match todo {
        Todo::Enter(node) => {
            let turn = enter(node, &mut frames, ctx, externs);
            let ghost after = turn;
            let ghost left = frames@;
            let n = match turn {
                Turn::On(next) => Next::On(frames, next),
                Turn::Pause(need, wait) => Next::Stop(suspend(need, wait, frames)),
            };
            proof {
                assert forall|h: Host<S::State>, r: Result<(), Fault>, s1: S::State|
                    fits(h, externs) && #[trigger] next_may::<S>(
                        n,
                        h,
                        ctx.state(),
                        r,
                        s1,
                    ) implies run_may::<S>(fs, before, h, s, r, s1) by {
                    if let Turn::Pause(need, wait) = after {
                        lemma_suspended::<S>(
                            n->Stop_0,
                            left,
                            need,
                            wait,
                            h,
                            ctx.state(),
                            r,
                            s1,
                        );
                    }
                    assert(turn_may::<S>(left, after, h, ctx.state(), r, s1));
                    let ends = node_ends::<S>(*node, h, s);
                    assert(ends_may::<S>(fs, ends, h, r, s1));
                    let (ra, sa) = choose|ra: Result<(), Fault>, sa: S::State| #[trigger]
                        through(ra, sa) && ends(ra, sa) && frames_may::<S>(fs, h, ra, sa, r, s1);
                    assert(through(ra, sa) && todo_may::<S>(before, h, s, ra, sa));
                }
            }
            n
        },
        Todo::Leave(x) => {
            if frames.len() == 0 {
                let n = Next::Stop(Progress::Done(x));
                proof {
                    assert forall|h: Host<S::State>, r: Result<(), Fault>, s1: S::State|
                        fits(h, externs) && #[trigger] next_may::<S>(
                            n,
                            h,
                            s,
                            r,
                            s1,
                        ) implies run_may::<S>(fs, before, h, s, r, s1) by {
                        lemma_last_end::<S>(fs, x, h, s);
                    }
                }
                n
            } else {
                let next = leave(x, &mut frames, ctx, externs);
                Next::On(frames, next)
            }
        },
    }
}

/// Runs until the run ends or needs something.
#[verifier::loop_isolation(false)]
fn drive<'a, S: CtxStorage, X: Externs>(
    frames: Vec<Frame<'a>>,
    todo: Todo<'a>,
    ctx: &mut S,
    externs: &X,
) -> (p: Progress<'a>)
    requires
        sound(frames@),
    ensures
        p.has_branches(),
        forall|h: Host<S::State>, r: Result<(), Fault>, s1: S::State|
            fits(h, externs) && #[trigger] p.may_end::<S>(h, final(ctx).state(), r, s1)
                ==> run_may::<S>(frames@, todo, h, old(ctx).state(), r, s1),
{
    let ghost s0 = ctx.state();
    let ghost fs0 = frames@;
    let ghost t0 = todo;
    let mut frames = frames;
    let mut todo = todo;
    loop
        invariant
            sound(frames@),
            s0 == old(ctx).state(),
            forall|h: Host<S::State>, r: Result<(), Fault>, s1: S::State|
                fits(h, externs) && #[trigger] run_may::<S>(frames@, todo, h, ctx.state(), r, s1)
                    ==> run_may::<S>(fs0, t0, h, s0, r, s1),
        decreases load(frames@) + todo_weight(todo),
    {
        let next = take_turn(frames, todo, ctx, externs);
        let ghost after = next;
        proof {
            assert forall|h: Host<S::State>, r: Result<(), Fault>, s1: S::State|
                fits(h, externs) && #[trigger] next_may::<S>(
                    after,
                    h,
                    ctx.state(),
                    r,
                    s1,
                ) implies run_may::<S>(fs0, t0, h, s0, r, s1) by {}
        }
        match next {
            Next::On(f, t) => {
                proof {
                    assert forall|h: Host<S::State>, r: Result<(), Fault>, s1: S::State|
                        fits(h, externs) && #[trigger] run_may::<S>(
                            f@,
                            t,
                            h,
                            ctx.state(),
                            r,
                            s1,
                        ) implies run_may::<S>(fs0, t0, h, s0, r, s1) by {
                        assert(next_may::<S>(after, h, ctx.state(), r, s1));
                    }
                }
                frames = f;
                todo = t;
            },
            Next::Stop(p) => {
                proof {
                    assert forall|h: Host<S::State>, r: Result<(), Fault>, s1: S::State|
                        fits(h, externs) && #[trigger] p.may_end::<S>(
                            h,
                            ctx.state(),
                            r,
                            s1,
                        ) implies run_may::<S>(fs0, t0, h, s0, r, s1) by {
                        assert(next_may::<S>(after, h, ctx.state(), r, s1));
                    }
                }
                return p;
            },
        }
    }
}

impl<'a> Suspended<'a> {
    /// Whether the run is one that this module made.
    #[verifier::type_invariant]
    spec fn inv(self) -> bool {
        sound(self.frames@)
    }

    /// Goes on with a reply: to a step, what the dispatcher replied; to a fanout, the joined
    /// result of its branches.
    pub fn resume<S: CtxStorage, X: Externs>(
        self,
        reply: Result<Value, EvalError>,
        ctx: &mut S,
        externs: &X,
    ) -> (p: Progress<'a>)
        ensures
            p.has_branches(),
            forall|h: Host<S::State>, r: Result<(), Fault>, s1: S::State|
                fits(h, externs) && #[trigger] p.may_end::<S>(h, final(ctx).state(), r, s1)
                    ==> self.may_end::<S>(h, value_outcome(reply), old(ctx).state(), r, s1),
    {
        proof {
            use_type_invariant(&self);
        }
        let ghost s0 = ctx.state();
        let ghost got = value_outcome(reply);
        let ghost whole = self;
        let Suspended { frames, wait } = self;
        let ghost fs = frames@;
        let ghost w = wait;
        let ended = match wait {
            Wait::Step { ref_, out } => {
                let result = match reply {
                    Ok(v) => Ok(v),
                    Err(e) => Err(
                        EvalError::DispatcherError { ref_: ref_.clone(), msg: e.to_string() },
                    ),
                };
                deliver(out, result, ctx)
            },
            Wait::Join { out } => deliver(out, reply, ctx),
        };
        let ghost s = ctx.state();
        let todo = Todo::Leave(ended);
        let p = drive(frames, todo, ctx, externs);
        proof {
            assert(wait_may::<S>(w, got, s0, unit_outcome(ended), s));
            assert forall|h: Host<S::State>, r: Result<(), Fault>, s1: S::State|
                fits(h, externs) && #[trigger] p.may_end::<S>(
                    h,
                    ctx.state(),
                    r,
                    s1,
                ) implies whole.may_end::<S>(h, got, s0, r, s1) by {
                assert(run_may::<S>(fs, todo, h, s, r, s1));
                let (ra, sa) = choose|ra: Result<(), Fault>, sa: S::State| #[trigger]
                    through(ra, sa) && todo_may::<S>(todo, h, s, ra, sa) && frames_may::<S>(
                        fs,
                        h,
                        ra,
                        sa,
                        r,
                        s1,
                    );
                assert(through(ra, sa));
                assert(reply_may::<S>(fs, w, h, got, s0, r, s1));
            }
        }
        p
    }
}

/// Starts a run of a flow.
pub fn start<'a, S: CtxStorage, X: Externs>(node: &'a Node, ctx: &mut S, externs: &X) -> (p:
    Progress<'a>)
    ensures
        p.has_branches(),
        forall|h: Host<S::State>, r: Result<(), Fault>, s1: S::State|
            fits(h, externs) && #[trigger] p.may_end::<S>(h, final(ctx).state(), r, s1)
                ==> may::<S>(node@, h, old(ctx).state(), r, s1),
{
    let ghost s0 = ctx.state();
    let frames: Vec<Frame<'a>> = Vec::new();
    let ghost fs = frames@;
    let todo = Todo::Enter(node);
    let p = drive(frames, todo, ctx, externs);
    proof {
        assert forall|h: Host<S::State>, r: Result<(), Fault>, s1: S::State|
            fits(h, externs) && #[trigger] p.may_end::<S>(h, ctx.state(), r, s1) implies may::<S>(
            node@,
            h,
            s0,
            r,
            s1,
        ) by {
            assert(run_may::<S>(fs, todo, h, s0, r, s1));
        }
    }
    p
}

proof fn some_frame(f: Frame, h: Host<Json>, r0: Result<(), Fault>, c0: Json) -> (end: (
    Result<(), Fault>,
    Json,
))
    requires
        some_reply(h),
        calm(h),
    ensures
        frame_may::<MemoryCtx>(f, h, r0, c0, end.0, end.1),
{
    match (f, r0) {
        (Frame::Children { children, next }, Ok(_)) => some_all(
            trees(children@).skip(next as int),
            h,
            c0,
        ),
        (Frame::Rounds { counter, cond, body, max, n }, Ok(_)) => {
            let next = taken(c0, counter@, count(n as nat + 1));
            assert(MemoryCtx::takes(c0, counter@, count(n as nat + 1), next.0, next.1));
            match next.0 {
                Err(_) => next,
                Ok(_) => some_loop(counter@, cond@, body@, max, n as nat + 1, h, next.1),
            }
        },
        (Frame::Guard { snap, catch, err_at }, Err(f)) => some_catch(
            catch@,
            noted(*err_at),
            f,
            snap@,
            h,
            c0,
        ),
        _ => (r0, c0),
    }
}

proof fn some_frames(frames: Seq<Frame>, h: Host<Json>, r0: Result<(), Fault>, c0: Json) -> (end: (
    Result<(), Fault>,
    Json,
))
    requires
        some_reply(h),
        calm(h),
    ensures
        frames_may::<MemoryCtx>(frames, h, r0, c0, end.0, end.1),
    decreases frames.len(),
{
    if frames.len() == 0 {
        (r0, c0)
    } else {
        let next = some_frame(frames.last(), h, r0, c0);
        assert(through(next.0, next.1));
        some_frames(frames.drop_last(), h, next.0, next.1)
    }
}

/// However far a run on a context in memory has come, it has an end, if the dispatcher always
/// replies. So what [`start`] and [`Suspended::resume`] say of every end is said of some.
pub proof fn law_turns_have_an_end(p: Progress, h: Host<Json>, c0: Json) -> (end: (
    Result<(), Fault>,
    Json,
))
    requires
        some_reply(h),
        calm(h),
        p.has_branches(),
    ensures
        p.may_end::<MemoryCtx>(h, c0, end.0, end.1),
{
    match p {
        Progress::Done(x) => (unit_outcome(x), c0),
        Progress::Dispatch { ref_, input, rest } => {
            assert(replied(h, ref_@, input@));
            let reply = choose|reply: Result<Json, Fault>| #[trigger]
                (h.replies)(ref_@, input@, reply);
            assert((h.meanwhile)(c0, c0));
            some_resumed(rest, h, reply, c0)
        },
        Progress::Fanout { join, body, contexts, rest } => {
            lemma_views(contexts@);
            lemma_private_replies(h);
            let ctxs = views(contexts@);
            let reply: Result<Json, Fault> = if ctxs.len() > 0 {
                some_branches(join, body@, private(h), ctxs)
            } else {
                let none = Seq::<Result<Json, Fault>>::empty();
                assert(results(none));
                assert(records(none) =~= Seq::<Json>::empty());
                assert(successes(none) =~= Seq::<Json>::empty());
                Ok(Json::Arr(Seq::empty()))
            };
            assert(may_branches(join, body@, private(h), ctxs, reply));
            assert((h.meanwhile)(c0, c0));
            some_resumed(rest, h, reply, c0)
        },
    }
}

proof fn some_resumed(rest: Suspended, h: Host<Json>, reply: Result<Json, Fault>, c0: Json) -> (end: (
    Result<(), Fault>,
    Json,
))
    requires
        some_reply(h),
        calm(h),
    ensures
        rest.may_end::<MemoryCtx>(h, reply, c0, end.0, end.1),
{
    let first = match rest.wait {
        Wait::Step { ref_, out } => delivered(out@, step_result(ref_@, reply), c0),
        Wait::Join { out } => delivered(out@, reply, c0),
    };
    assert(wait_may::<MemoryCtx>(rest.wait, reply, c0, first.0, first.1));
    assert(through(first.0, first.1));
    some_frames(rest.frames@, h, first.0, first.1)
}

impl<'a> Suspended<'a> {
    /// What is left to do once the node that waits has ended, the first thing last.
    pub closed spec fn left(&self) -> Seq<Frame<'a>> {
        self.frames@
    }

    /// What the run waits for.
    pub closed spec fn awaited(&self) -> Wait<'a> {
        self.wait
    }
}

/// A reply is delivered in the state that the storage has when it comes, whatever others have
/// written in the meantime, and the rest of the flow runs from there.
pub proof fn law_replies_are_delivered_where_they_come<S: CtxStorage>(
    rest: Suspended,
    h: Host<S::State>,
    reply: Result<Json, Fault>,
    s: S::State,
    r: Result<(), Fault>,
    s1: S::State,
)
    ensures
        rest.may_end::<S>(h, reply, s, r, s1) <==> exists|ra: Result<(), Fault>, sa: S::State| #[trigger]
            through(ra, sa) && wait_may::<S>(rest.awaited(), reply, s, ra, sa) && frames_may::<S>(
                rest.left(),
                h,
                ra,
                sa,
                r,
                s1,
            ),
{
}

/// With branches in order and at most one reply to each request of a step, a run in turns ends as
/// a run from start to end does, with the same context and the same failure. A host runs branches
/// in order if its steps are carried out without delay. What is required of `p` is what [`start`]
/// ensures of it.
pub proof fn law_turns_end_as_whole_runs(
    t: Tree,
    p: Progress,
    h: Host<Json>,
    c0: Json,
    c: Json,
    r1: Result<(), Fault>,
    c1: Json,
    r2: Result<(), Fault>,
    c2: Json,
)
    requires
        one_reply(h),
        !h.concurrent,
        undisturbed(h),
        forall|r: Result<(), Fault>, s1: Json| #[trigger]
            p.may_end::<MemoryCtx>(h, c, r, s1) ==> may::<MemoryCtx>(t, h, c0, r, s1),
        p.may_end::<MemoryCtx>(h, c, r1, c1),
        may::<MemoryCtx>(t, h, c0, r2, c2),
    ensures
        r1 == r2,
        c1 == c2,
{
    law_runs_have_one_end(t, h, c0, r1, c1, r2, c2);
}

} // verus!
