//! Turning one glyph's drawing commands into path primitives.

use vstd::prelude::*;
use crate::geometry::{PipelineError, Point, Primitive, Shape, start_point, end_point};

verus! {

/// One drawing command of a glyph outline, in shared coordinates.
#[derive(Clone, Copy, Debug, PartialEq, Eq, Structural)]
pub enum Command {
    Move(Point),
    LineTo(Point),
    QuadTo(Point, Point),
    CurveTo(Point, Point, Point),
    Close,
}

/// What the converter carries from one command to the next: the current
/// point, the closing anchor, and the primitives emitted so far.
pub type Trace = (Option<Point>, Option<Point>, Seq<Primitive>);

/// The effect of one command; `None` where it needs a point that is not set.
pub open spec fn step(t: Trace, c: Command) -> Option<Trace> {
    match c {
        Command::Move(p) => Some((Some(p), if t.1 is None { Some(p) } else { t.1 }, t.2)),
        Command::LineTo(p) => match t.0 {
            Some(cur) => Some((Some(p), t.1, t.2.push(Primitive::Line(cur, p)))),
            None => None,
        },
        Command::QuadTo(c0, p) => match t.0 {
            Some(cur) => Some((Some(p), t.1, t.2.push(Primitive::Quadratic(cur, c0, p)))),
            None => None,
        },
        Command::CurveTo(c0, c1, p) => match t.0 {
            Some(cur) => Some((Some(p), t.1, t.2.push(Primitive::Bezier(cur, c0, c1, p)))),
            None => None,
        },
        Command::Close => match (t.0, t.1) {
            (Some(cur), Some(st)) => Some((Some(st), None, t.2.push(Primitive::Line(cur, st)))),
            _ => None,
        },
    }
}

/// The state after the first `n` commands, from nothing set; `None` once a
/// command has failed.
pub open spec fn trace(cmds: Seq<Command>, n: nat) -> Option<Trace>
    decreases n,
{
    if n == 0 {
        Some((None, None, Seq::empty()))
    } else {
        match trace(cmds, (n - 1) as nat) {
            Some(t) => step(t, cmds[n - 1]),
            None => None,
        }
    }
}

/// The primitives that a whole command sequence gives, or `None` where a
/// command needs a point that is not set.
pub open spec fn converted(cmds: Seq<Command>) -> Option<Seq<Primitive>> {
    match trace(cmds, cmds.len()) {
        Some(t) => Some(t.2),
        None => None,
    }
}

/// Once a command has failed, every longer prefix fails too.
pub proof fn lemma_trace_stays_failed(cmds: Seq<Command>, i: nat, j: nat)
    requires
        i <= j,
        trace(cmds, i) is None,
    ensures
        trace(cmds, j) is None,
    decreases j - i,
{
    if i < j {
        lemma_trace_stays_failed(cmds, i, (j - 1) as nat);
    }
}

/// A drawing command (anything but a move) that succeeds emits exactly one
/// primitive, which starts at the current point, and the current point
/// becomes that primitive's end.
pub proof fn lemma_step_draws(t: Trace, c: Command)
    requires
        !(c is Move),
        step(t, c) is Some,
    ensures
        ({
            let t2 = step(t, c)->Some_0;
            &&& t2.2.len() == t.2.len() + 1
            &&& t2.2.drop_last() == t.2
            &&& t.0 == Some(start_point(t2.2.last()))
            &&& t2.0 == Some(end_point(t2.2.last()))
        }),
{
    let t2 = step(t, c)->Some_0;
    assert(t2.2.drop_last() =~= t.2);
}

/// Path continuity: where two drawing commands (neither a move) follow each
/// other, the primitive of the second starts where the primitive of the first
/// ends.
pub proof fn lemma_continuity(cmds: Seq<Command>, n: nat)
    requires
        1 <= n < cmds.len(),
        !(cmds[n - 1] is Move),
        !(cmds[n as int] is Move),
        trace(cmds, n + 1) is Some,
    ensures
        ({
            let before = trace(cmds, n)->Some_0.2;
            let after = trace(cmds, n + 1)->Some_0.2;
            &&& after.len() == before.len() + 1
            &&& after.drop_last() == before
            &&& start_point(after.last()) == end_point(before.last())
        }),
{
    if trace(cmds, n) is None {
        lemma_trace_stays_failed(cmds, n, n + 1);
    }
    if trace(cmds, (n - 1) as nat) is None {
        lemma_trace_stays_failed(cmds, (n - 1) as nat, n);
    }
    lemma_step_draws(trace(cmds, (n - 1) as nat)->Some_0, cmds[n - 1]);
    lemma_step_draws(trace(cmds, n)->Some_0, cmds[n as int]);
}

/// Converts one glyph's commands into a shape, in command order.
pub fn convert_commands(commands: &Vec<Command>) -> (r: Result<Shape, PipelineError>)
    ensures
        r is Ok <==> converted(commands@) is Some,
        r matches Ok(s) ==> converted(commands@) == Some(s@),
        r matches Err(e) ==> e == PipelineError::GeometryError,
{
    let mut current: Option<Point> = None;
    let mut start: Option<Point> = None;
    let mut primitives: Vec<Primitive> = Vec::new();
    let n = commands.len();
    let mut i: usize = 0;
    while i < n
        invariant
            n == commands@.len(),
            0 <= i <= n,
            trace(commands@, i as nat) == Some((current, start, primitives@)),
        decreases n - i,
    {
        let ghost t: Trace = (current, start, primitives@);
        match commands[i] {
            Command::Move(p) => {
                if start.is_none() {
                    start = Some(p);
                }
                current = Some(p);
            },
            Command::LineTo(p) => {
                match current {
                    Some(cur) => {
                        primitives.push(Primitive::Line(cur, p));
                        current = Some(p);
                    },
                    None => {
                        proof {
                            lemma_trace_stays_failed(commands@, (i + 1) as nat, n as nat);
                        }
                        return Err(PipelineError::GeometryError);
                    },
                }
            },
            Command::QuadTo(c0, p) => {
                match current {
                    Some(cur) => {
                        primitives.push(Primitive::Quadratic(cur, c0, p));
                        current = Some(p);
                    },
                    None => {
                        proof {
                            lemma_trace_stays_failed(commands@, (i + 1) as nat, n as nat);
                        }
                        return Err(PipelineError::GeometryError);
                    },
                }
            },
            Command::CurveTo(c0, c1, p) => {
                match current {
                    Some(cur) => {
                        primitives.push(Primitive::Bezier(cur, c0, c1, p));
                        current = Some(p);
                    },
                    None => {
                        proof {
                            lemma_trace_stays_failed(commands@, (i + 1) as nat, n as nat);
                        }
                        return Err(PipelineError::GeometryError);
                    },
                }
            },
            Command::Close => {
                match (current, start) {
                    (Some(cur), Some(st)) => {
                        primitives.push(Primitive::Line(cur, st));
                        current = Some(st);
                        start = None;
                    },
                    _ => {
                        proof {
                            lemma_trace_stays_failed(commands@, (i + 1) as nat, n as nat);
                        }
                        return Err(PipelineError::GeometryError);
                    },
                }
            },
        }
        assert(trace(commands@, (i + 1) as nat) == step(t, commands@[i as int]));
        i += 1;
    }
    Ok(Shape { primitives })
}

} // verus!
