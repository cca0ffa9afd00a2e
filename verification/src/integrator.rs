//! The bounce budget of the colour integrator.
//!
//! Tracing one camera ray is a walk through levels. At each level the
//! scene is asked whether the ray hits anything; a ray that escapes takes
//! the background colour. A hit at a level below `MAX_DEPTH` asks the
//! material for a scattered ray, which is traced one level deeper; an
//! absorbed ray, and any hit at `MAX_DEPTH`, contributes black.
//!
//! The tracer holds where the walk stands and is moved by the answers to
//! those two questions. The caller does the geometry.

use vstd::prelude::*;

verus! {

/// The deepest level at which a hit still asks its material to scatter.
pub const MAX_DEPTH: u32 = 50;

/// What the integrator is waiting for, or how the walk ended.
#[derive(Clone, Copy, Debug, PartialEq, Eq, Structural)]
pub enum Phase {
    /// Waiting to hear whether the ray hits the scene.
    Casting,
    /// Waiting to hear whether the material scatters the ray.
    Shading,
    /// Ended: the ray escaped and sees the background.
    Background,
    /// Ended: the ray contributes nothing.
    Black,
}

/// Where the walk stands: a phase and the level it has reached.
#[derive(Clone, Copy, Debug, PartialEq, Eq, Structural)]
pub struct Tracer {
    pub phase: Phase,
    pub depth: u32,
}

impl Tracer {
    /// The state before the camera ray is cast.
    pub open spec fn initial() -> Tracer {
        Tracer { phase: Phase::Casting, depth: 0 }
    }

    /// The walk never goes deeper than `MAX_DEPTH`, and never asks a
    /// material to scatter at `MAX_DEPTH`.
    pub open spec fn wf(&self) -> bool {
        &&& self.depth <= MAX_DEPTH
        &&& self.phase == Phase::Shading ==> self.depth < MAX_DEPTH
    }

    /// Whether the walk has ended.
    pub open spec fn done(&self) -> bool {
        self.phase == Phase::Background || self.phase == Phase::Black
    }

    /// The state after an answer. While casting, the answer says whether
    /// the ray hit; while shading, whether the material scattered it. A
    /// walk that has ended stays where it is.
    pub open spec fn step(&self, answer: bool) -> Tracer {
        match self.phase {
            Phase::Casting => {
                if !answer {
                    Tracer { phase: Phase::Background, depth: self.depth }
                } else if self.depth < MAX_DEPTH {
                    Tracer { phase: Phase::Shading, depth: self.depth }
                } else {
                    Tracer { phase: Phase::Black, depth: self.depth }
                }
            },
            Phase::Shading => {
                if answer && self.depth < MAX_DEPTH {
                    Tracer { phase: Phase::Casting, depth: (self.depth + 1) as u32 }
                } else {
                    Tracer { phase: Phase::Black, depth: self.depth }
                }
            },
            Phase::Background => *self,
            Phase::Black => *self,
        }
    }

    /// The state after a whole sequence of answers.
    pub open spec fn run(&self, answers: Seq<bool>) -> Tracer
        decreases answers.len(),
    {
        if answers.len() == 0 {
            *self
        } else {
            self.run(answers.drop_last()).step(answers.last())
        }
    }

    /// How many answers a well-formed walk can still take before it must
    /// have ended.
    pub open spec fn answers_left(&self) -> int {
        match self.phase {
            Phase::Casting => 2 * (MAX_DEPTH - self.depth) + 1,
            Phase::Shading => 2 * (MAX_DEPTH - self.depth),
            Phase::Background => 0,
            Phase::Black => 0,
        }
    }

    /// Starts the walk of a camera ray.
    pub fn start() -> (t: Tracer)
        ensures
            t == Tracer::initial(),
            t.wf(),
    {
        Tracer { phase: Phase::Casting, depth: 0 }
    }

    /// Moves the walk by one answer.
    pub fn advance(&self, answer: bool) -> (next: Tracer)
        ensures
            next == self.step(answer),
            self.wf() ==> next.wf(),
    {
        match self.phase {
            Phase::Casting => {
                if !answer {
                    Tracer { phase: Phase::Background, depth: self.depth }
                } else if self.depth < MAX_DEPTH {
                    Tracer { phase: Phase::Shading, depth: self.depth }
                } else {
                    Tracer { phase: Phase::Black, depth: self.depth }
                }
            },
            Phase::Shading => {
                if answer && self.depth < MAX_DEPTH {
                    Tracer { phase: Phase::Casting, depth: self.depth + 1 }
                } else {
                    Tracer { phase: Phase::Black, depth: self.depth }
                }
            },
            Phase::Background => *self,
            Phase::Black => *self,
        }
    }

    /// Whether the walk has ended.
    pub fn is_done(&self) -> (r: bool)
        ensures
            r == self.done(),
    {
        match self.phase {
            Phase::Background => true,
            Phase::Black => true,
            _ => false,
        }
    }
}

/// Law: one answer keeps a well-formed walk well formed, never lowers its
/// level, and uses up one of the answers it had left.
pub proof fn lemma_step_bounded(t: Tracer, answer: bool)
    requires
        t.wf(),
    ensures
        t.step(answer).wf(),
        t.step(answer).depth >= t.depth,
        t.step(answer).answers_left() >= 0,
        !t.done() ==> t.step(answer).answers_left() < t.answers_left(),
        t.done() ==> t.step(answer) == t,
{
}

/// A walk that has not ended has paid for every answer it heard.
proof fn lemma_run_budget(answers: Seq<bool>)
    ensures
        Tracer::initial().run(answers).wf(),
        !Tracer::initial().run(answers).done() ==> Tracer::initial().run(answers).answers_left()
            + answers.len() <= 2 * MAX_DEPTH + 1,
    decreases answers.len(),
{
    if answers.len() > 0 {
        lemma_run_budget(answers.drop_last());
        lemma_step_bounded(Tracer::initial().run(answers.drop_last()), answers.last());
    }
}

/// Law: whatever the scene and the materials answer, the walk of a camera
/// ray stays within `MAX_DEPTH` levels.
pub proof fn lemma_depth_bounded(answers: Seq<bool>)
    ensures
        Tracer::initial().run(answers).wf(),
        Tracer::initial().run(answers).depth <= MAX_DEPTH,
{
    lemma_run_budget(answers);
}

/// Law: the walk of a camera ray has ended once it has heard
/// `2 * MAX_DEPTH + 1` answers, so no pair of facing mirrors can keep a
/// ray bouncing for ever.
pub proof fn lemma_walk_ends(answers: Seq<bool>)
    requires
        answers.len() >= 2 * MAX_DEPTH + 1,
    ensures
        Tracer::initial().run(answers).done(),
{
    lemma_run_budget(answers);
    let end = Tracer::initial().run(answers);
    if !end.done() {
        assert(end.answers_left() >= 1);
    }
}

} // verus!
