//! The cyclic executive: a static table of frames, each a list of tasks,
//! stepped through once per timer tick.

use vstd::prelude::*;
use vstd::arithmetic::div_mod::{lemma_small_mod, lemma_mod_self_0};

verus! {

/// The hardware abstraction the executive is driven by: a periodic tick and
/// an overrun flag raised when a frame's work did not finish before the next
/// tick was due.
pub trait Timer {
    /// The number of ticks waited for so far.
    spec fn ticks_waited(&self) -> u64;

    /// Blocks until the next tick.
    fn wait_next_tick(&mut self)
        ensures
            final(self).ticks_waited() == old(self).ticks_waited() + 1,
    ;

    /// Tells whether the frame that just ran overran its tick.
    fn has_overrun(&self) -> bool;
}

/// The error reported when a frame overran its budget.
#[derive(Debug, PartialEq, Eq, Structural)]
pub struct OverrunError;

/// The frame that follows `frame` in a major cycle of `n` frames; an empty
/// cycle stays at frame 0.
pub open spec fn next_frame(frame: nat, n: nat) -> nat {
    if n == 0 {
        0
    } else {
        (frame + 1) % n
    }
}

/// The frame reached from `frame` after `k` frames have completed.
pub open spec fn frame_after(frame: nat, n: nat, k: nat) -> nat
    decreases k,
{
    if k == 0 {
        frame
    } else {
        next_frame(frame_after(frame, n, (k - 1) as nat), n)
    }
}

/// One run of a task: task `index` of frame `frame`, run while the timer
/// stood at `tick` ticks.
pub struct TaskRun {
    pub frame: nat,
    pub index: nat,
    pub tick: nat,
}

/// The runs of the first `count` tasks of frame `frame`, in order, all at
/// timer tick `tick`.
pub open spec fn frame_runs(frame: nat, count: nat, tick: nat) -> Seq<TaskRun> {
    Seq::new(count, |j: int| TaskRun { frame, index: j as nat, tick })
}

/// A cyclic executive over a static schedule: frame `i` of the major cycle
/// runs the tasks `schedule[i]`, in order.
pub struct CyclicExecutive<F: 'static> {
    current_frame: usize,
    major_cycle_frames: usize,
    schedule: &'static [&'static [F]],
    runs: Ghost<Seq<TaskRun>>,
}

impl<F: 'static> CyclicExecutive<F> {
    /// The frame that the next step runs.
    pub closed spec fn frame(&self) -> nat {
        self.current_frame as nat
    }

    /// The number of frames in the major cycle.
    pub closed spec fn cycle_len(&self) -> nat {
        self.major_cycle_frames as nat
    }

    /// Every task run so far, oldest first.
    pub closed spec fn task_runs(&self) -> Seq<TaskRun> {
        self.runs@
    }

    /// The schedule table, one sequence of tasks per frame.
    pub closed spec fn table(&self) -> Seq<Seq<F>> {
        self.schedule@.map_values(|frame_tasks: &'static [F]| frame_tasks@)
    }

    /// The executive's invariant, kept by every operation: the cycle is as
    /// long as the table, and the current frame lies inside it (frame 0 for
    /// an empty table).
    pub open spec fn wf(&self) -> bool {
        &&& self.cycle_len() == self.table().len()
        &&& if self.cycle_len() == 0 {
            self.frame() == 0
        } else {
            self.frame() < self.cycle_len()
        }
    }

    #[verifier::type_invariant]
    spec fn well_formed(&self) -> bool {
        self.wf()
    }
}

impl<F: Fn()> CyclicExecutive<F> {
    /// Every task of the table may be called.
    pub open spec fn tasks_callable(&self) -> bool {
        forall|i: int, j: int|
            0 <= i < self.table().len() && 0 <= j < self.table()[i].len() ==> call_requires(
                #[trigger] self.table()[i][j],
                (),
            )
    }

    /// Creates an executive positioned at frame 0 of `schedule`.
    pub fn new(schedule: &'static [&'static [F]]) -> (r: Self)
        ensures
            r.wf(),
            r.frame() == 0,
            r.cycle_len() == schedule@.len(),
            r.table() == schedule@.map_values(|frame_tasks: &'static [F]| frame_tasks@),
            r.task_runs() == Seq::<TaskRun>::empty(),
    {
        CyclicExecutive {
            current_frame: 0,
            major_cycle_frames: schedule.len(),
            schedule,
            runs: Ghost(Seq::empty()),
        }
    }

    /// The index of the frame that the next step runs.
    pub fn current_frame(&self) -> (r: usize)
        ensures
            r == self.frame(),
            self.wf(),
    {
        proof {
            use_type_invariant(self);
        }
        self.current_frame
    }

    /// Closes the frame that just ran, given whether it overran: an overrun
    /// is reported and leaves the executive on the same frame; otherwise the
    /// executive moves to the next frame of the cycle, wrapping to 0.
    pub fn end_frame(&mut self, overrun: bool) -> (r: Result<(), OverrunError>)
        ensures
            final(self).wf(),
            final(self).table() == old(self).table(),
            final(self).cycle_len() == old(self).cycle_len(),
            final(self).task_runs() == old(self).task_runs(),
            r is Err <==> overrun,
            overrun ==> final(self).frame() == old(self).frame(),
            !overrun ==> final(self).frame() == next_frame(old(self).frame(), old(self).cycle_len()),
    {
        proof {
            use_type_invariant(&*self);
        }
        if overrun {
            return Err(OverrunError);
        }
        // Increment and compare rather than take a remainder: cheaper on
        // targets without a hardware divider.
        let next = self.current_frame + 1;
        proof {
            if self.major_cycle_frames > 0 {
                if next < self.major_cycle_frames {
                    lemma_small_mod(next as nat, self.major_cycle_frames as nat);
                } else {
                    lemma_mod_self_0(self.major_cycle_frames as int);
                }
            }
        }
        if next >= self.major_cycle_frames {
            self.current_frame = 0;
        } else {
            self.current_frame = next;
        }
        proof {
            use_type_invariant(&*self);
        }
        Ok(())
    }

    /// Runs one frame: waits for the tick, runs the frame's tasks in order,
    /// then reports an overrun or moves to the next frame. An empty schedule
    /// does nothing and succeeds.
    pub fn step<T: Timer>(&mut self, timer: &mut T) -> (r: Result<(), OverrunError>)
        requires
            old(self).tasks_callable(),
        ensures
            final(self).wf(),
            final(self).table() == old(self).table(),
            final(self).cycle_len() == old(self).cycle_len(),
            old(self).cycle_len() == 0 ==> r is Ok && *final(self) == *old(self) && *final(timer)
                == *old(timer),
            old(self).cycle_len() > 0 ==> final(timer).ticks_waited() == old(timer).ticks_waited() + 1,
            old(self).cycle_len() > 0 ==> final(self).task_runs() == old(self).task_runs() + frame_runs(
                old(self).frame(),
                old(self).table()[old(self).frame() as int].len(),
                final(timer).ticks_waited() as nat,
            ),
            old(self).cycle_len() > 0 ==> call_ensures(T::has_overrun, (&*final(timer),), r is Err),
            old(self).cycle_len() > 0 && r is Ok ==> final(self).frame() == next_frame(
                old(self).frame(),
                old(self).cycle_len(),
            ),
            r is Err ==> final(self).frame() == old(self).frame(),
            old(self).cycle_len() > 0 ==> forall|j: int|
                0 <= j < old(self).table()[old(self).frame() as int].len() ==> call_ensures(
                    #[trigger] old(self).table()[old(self).frame() as int][j],
                    (),
                    (),
                ),
    {
        proof {
            use_type_invariant(&*self);
        }
        if self.major_cycle_frames == 0 {
            return Ok(());
        }
        timer.wait_next_tick();

        let tasks: &'static [F] = self.schedule[self.current_frame];
        let ghost fi = self.current_frame as int;
        let ghost before = self.runs@;
        let ghost tick = timer.ticks_waited() as nat;
        assert(tasks@ == self.table()[fi]);
        let mut i: usize = 0;
        while i < tasks.len()
            invariant
                0 <= fi < self.table().len(),
                fi == self.frame(),
                self.wf(),
                self.table() == old(self).table(),
                self.cycle_len() == old(self).cycle_len(),
                tasks@ == self.table()[fi],
                self.tasks_callable(),
                i <= tasks@.len(),
                forall|j: int| 0 <= j < i ==> call_ensures(#[trigger] tasks@[j], (), ()),
                tick == timer.ticks_waited(),
                self.runs@ == before + frame_runs(fi as nat, i as nat, tick),
            decreases tasks@.len() - i,
        {
            assert(call_requires(self.table()[fi][i as int], ()));
            (tasks[i])();
            self.runs = Ghost(
                self.runs@.push(TaskRun { frame: fi as nat, index: i as nat, tick: timer.ticks_waited() as nat }),
            );
            assert(self.runs@ =~= before + frame_runs(fi as nat, (i + 1) as nat, tick));
            i = i + 1;
        }

        let overrun = timer.has_overrun();
        self.end_frame(overrun)
    }
}

/// After `k` completed frames, an executive that started on frame `f` of a
/// non-empty cycle of `n` frames stands on frame `(f + k) mod n`.
pub proof fn lemma_frame_after_steps(f: nat, n: nat, k: nat)
    requires
        n > 0,
        f < n,
    ensures
        frame_after(f, n, k) == (f + k) % n,
    decreases k,
{
    if k == 0 {
        lemma_small_mod(f, n);
    } else {
        lemma_frame_after_steps(f, n, (k - 1) as nat);
        vstd::arithmetic::div_mod::lemma_add_mod_noop_right(1, (f + k - 1) as int, n as int);
    }
}

/// The schedule is periodic: completing a whole major cycle of `n` frames
/// brings the executive back to the frame it started from.
pub proof fn lemma_major_cycle_period(f: nat, n: nat)
    requires
        n > 0,
        f < n,
    ensures
        frame_after(f, n, n) == f,
{
    lemma_frame_after_steps(f, n, n);
    vstd::arithmetic::div_mod::lemma_mod_add_multiples_vanish(f as int, n as int);
    lemma_small_mod(f, n);
}

} // verus!
