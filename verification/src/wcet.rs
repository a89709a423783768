//! Worst-case execution time analysis: measuring tasks, and checking that the
//! tasks slotted into each frame fit in the frame's time budget.

use vstd::prelude::*;
use vstd::hash_map::StringHashMap;

use crate::config::{ScheduleConfig, TaskConfig};
use crate::time::{Duration, MAX_NANOS, elapsed_since, instant_now};

verus! {

/// Timing statistics of a profiled task.
#[derive(Debug, Clone, Copy, PartialEq, Eq, Structural)]
pub struct TaskStats {
    pub min: Duration,
    pub max: Duration,
    pub avg: Duration,
}

/// The analysis of one frame of the major cycle.
#[derive(Debug, Clone, Copy, PartialEq, Eq, Structural)]
pub struct FrameReport {
    pub frame_index: usize,
    /// The summed worst-case execution times of the frame's tasks.
    pub total_wcet: Duration,
    /// The length of one frame.
    pub budget: Duration,
    /// The part of the budget left over, empty on an overrun.
    pub remaining: Duration,
    /// Whether the frame's tasks need more than the budget.
    pub overrun: bool,
}

/// The analysis of a whole schedule.
#[derive(Debug, Clone, PartialEq)]
pub struct AnalysisReport {
    pub frame_reports: Vec<FrameReport>,
    pub has_overruns: bool,
}

/// Why a schedule could not be analysed.
#[derive(Debug, PartialEq, Eq)]
pub enum AnalysisError {
    /// No execution time was given for the named task.
    MissingTaskWcet(String),
    /// The tick rate is zero, so a frame has no length.
    ZeroTickRate,
}

// ---------------------------------------------------------------------------
// Profiling

/// The smallest sample, or the longest span for no sample.
pub open spec fn sample_min(samples: Seq<nat>) -> nat
    decreases samples.len(),
{
    if samples.len() == 0 {
        MAX_NANOS as nat
    } else {
        let m = sample_min(samples.drop_last());
        if samples.last() < m {
            samples.last()
        } else {
            m
        }
    }
}

/// The largest sample, or 0 for no sample.
pub open spec fn sample_max(samples: Seq<nat>) -> nat
    decreases samples.len(),
{
    if samples.len() == 0 {
        0
    } else {
        let m = sample_max(samples.drop_last());
        if samples.last() > m {
            samples.last()
        } else {
            m
        }
    }
}

/// The sum of the samples.
pub open spec fn sample_sum(samples: Seq<nat>) -> nat
    decreases samples.len(),
{
    if samples.len() == 0 {
        0
    } else {
        sample_sum(samples.drop_last()) + samples.last()
    }
}

/// A length capped at the longest span.
pub open spec fn capped(n: nat) -> nat {
    if n <= MAX_NANOS {
        n
    } else {
        MAX_NANOS as nat
    }
}

/// The lengths, in nanoseconds, of a sequence of spans.
pub open spec fn span_lengths(spans: Seq<Duration>) -> Seq<nat> {
    spans.map_values(|d: Duration| d@)
}

/// `stats` summarises the measured run times `samples` (in nanoseconds): the
/// minimum, the maximum, and the total (capped at the longest span) divided
/// by the number of runs taken as a `u32`, rounded down.
pub open spec fn is_profile_of(stats: TaskStats, samples: Seq<nat>) -> bool {
    &&& forall|i: int| 0 <= i < samples.len() ==> #[trigger] samples[i] <= MAX_NANOS
    &&& stats.min@ == sample_min(samples)
    &&& stats.max@ == sample_max(samples)
    &&& stats.avg@ == capped(sample_sum(samples)) / ((samples.len() as u32) as nat)
}

/// Summarises measured run times: their minimum, maximum and mean. With no
/// sample all three are zero.
pub fn summarize(samples: &Vec<Duration>) -> (stats: TaskStats)
    requires
        samples.len() == 0 || samples.len() as u32 != 0,
    ensures
        samples.len() == 0 ==> stats.min@ == 0 && stats.max@ == 0 && stats.avg@ == 0,
        samples.len() > 0 ==> is_profile_of(stats, span_lengths(samples@)),
{
    if samples.len() == 0 {
        return TaskStats { min: Duration::zero(), max: Duration::zero(), avg: Duration::zero() };
    }
    let ghost all = span_lengths(samples@);
    let mut min = Duration::longest();
    let mut max = Duration::zero();
    let mut total = Duration::zero();
    let mut n: usize = 0;
    while n < samples.len()
        invariant
            n <= samples.len(),
            all == span_lengths(samples@),
            forall|i: int| 0 <= i < n ==> #[trigger] all[i] <= MAX_NANOS,
            min@ == sample_min(all.take(n as int)),
            max@ == sample_max(all.take(n as int)),
            total@ == capped(sample_sum(all.take(n as int))),
        decreases samples.len() - n,
    {
        let elapsed = samples[n];
        let e = elapsed.as_nanos();
        proof {
            assert(all.take(n + 1).drop_last() =~= all.take(n as int));
            assert(all[n as int] == e);
        }
        if e < min.as_nanos() {
            min = elapsed;
        }
        if e > max.as_nanos() {
            max = elapsed;
        }
        total = total.saturating_add(elapsed);
        n = n + 1;
    }
    assert(all.take(n as int) =~= all);
    let avg = total.div_u32(samples.len() as u32);
    TaskStats { min, max, avg }
}

/// Runs `task` once and measures how long the run took: the time elapsed
/// since a clock reading taken just before the run.
pub fn time_run<F: Fn()>(task: &F) -> (d: Duration)
    requires
        call_requires(*task, ()),
    ensures
        call_ensures(*task, (), ()),
{
    let start = instant_now();
    task();
    elapsed_since(&start)
}

/// Each of `runs` is the measured time of one run of `task`.
pub open spec fn timed_runs_of<F: Fn()>(task: F, runs: Seq<Duration>) -> bool {
    forall|k: int| 0 <= k < runs.len() ==> call_ensures(time_run::<F>, (&task,), #[trigger] runs[k])
}

/// Runs `task` `iterations` times, timing each run, and reports the shortest,
/// the longest and the mean run time. With no iteration all three are zero.
pub fn profile_task<F: Fn()>(task: F, iterations: usize) -> (stats: TaskStats)
    requires
        call_requires(task, ()),
        iterations == 0 || iterations as u32 != 0,
    ensures
        iterations == 0 ==> stats.min@ == 0 && stats.max@ == 0 && stats.avg@ == 0,
        iterations > 0 ==> call_ensures(task, (), ()),
        iterations > 0 ==> exists|samples: Seq<nat>|
            samples.len() == iterations && #[trigger] is_profile_of(stats, samples),
        iterations > 0 ==> exists|runs: Seq<Duration>|
            runs.len() == iterations && timed_runs_of(task, runs) && #[trigger] is_profile_of(
                stats,
                span_lengths(runs),
            ),
{
    let mut samples: Vec<Duration> = Vec::new();
    let mut n: usize = 0;
    while n < iterations
        invariant
            n <= iterations,
            samples@.len() == n,
            call_requires(task, ()),
            n > 0 ==> call_ensures(task, (), ()),
            timed_runs_of(task, samples@),
        decreases iterations - n,
    {
        let elapsed = time_run(&task);
        samples.push(elapsed);
        n = n + 1;
    }
    let stats = summarize(&samples);
    if iterations > 0 {
        assert(is_profile_of(stats, span_lengths(samples@)));
    }
    stats
}

/// Every measured run time lies between the reported minimum and maximum,
/// and so the minimum is no larger than the maximum.
pub proof fn lemma_profile_bounds(stats: TaskStats, samples: Seq<nat>)
    requires
        is_profile_of(stats, samples),
        samples.len() > 0,
    ensures
        stats.min@ <= stats.max@,
        forall|i: int| 0 <= i < samples.len() ==> stats.min@ <= #[trigger] samples[i] <= stats.max@,
{
    lemma_sample_bounds(samples);
    assert(stats.min@ <= samples[0] <= stats.max@);
}

proof fn lemma_sample_bounds(samples: Seq<nat>)
    requires
        forall|i: int| 0 <= i < samples.len() ==> #[trigger] samples[i] <= MAX_NANOS,
    ensures
        forall|i: int|
            0 <= i < samples.len() ==> sample_min(samples) <= #[trigger] samples[i] <= sample_max(
                samples,
            ),
    decreases samples.len(),
{
    if samples.len() > 0 {
        let prefix = samples.drop_last();
        assert forall|i: int| 0 <= i < prefix.len() implies #[trigger] prefix[i] <= MAX_NANOS by {
            assert(prefix[i] == samples[i]);
        }
        lemma_sample_bounds(prefix);
        assert forall|i: int| 0 <= i < samples.len() implies sample_min(samples) <= #[trigger] samples[i]
            <= sample_max(samples) by {
            if i < prefix.len() {
                assert(prefix[i] == samples[i]);
            }
        }
    }
}


/// The mean run time lies between the minimum and the maximum, wherever the
/// number of runs fits in a `u32` and their total fits in a span.
pub proof fn lemma_profile_avg_between(stats: TaskStats, samples: Seq<nat>)
    requires
        is_profile_of(stats, samples),
        samples.len() > 0,
        samples.len() <= u32::MAX,
        sample_sum(samples) <= MAX_NANOS,
    ensures
        stats.min@ <= stats.avg@ <= stats.max@,
{
    lemma_sample_sum_bounds(samples);
    let n = samples.len();
    let sum = sample_sum(samples);
    let lo = sample_min(samples);
    let hi = sample_max(samples);
    assert((n as u32) as nat == n);
    assert(lo <= sum / n <= hi) by (nonlinear_arith)
        requires
            n > 0,
            n * lo <= sum,
            sum <= n * hi,
    {
        vstd::arithmetic::div_mod::lemma_fundamental_div_mod(sum as int, n as int);
    }
}

proof fn lemma_sample_sum_bounds(samples: Seq<nat>)
    requires
        samples.len() > 0,
        forall|i: int| 0 <= i < samples.len() ==> #[trigger] samples[i] <= MAX_NANOS,
    ensures
        samples.len() * sample_min(samples) <= sample_sum(samples),
        sample_sum(samples) <= samples.len() * sample_max(samples),
    decreases samples.len(),
{
    let prefix = samples.drop_last();
    let x = samples.last();
    assert(x == samples[samples.len() - 1]);
    assert(x <= MAX_NANOS);
    assert(sample_sum(samples) == sample_sum(prefix) + x);
    if prefix.len() == 0 {
        assert(sample_min(prefix) == MAX_NANOS);
        assert(sample_max(prefix) == 0);
        assert(sample_sum(prefix) == 0);
        assert(sample_min(samples) == x);
        assert(sample_max(samples) == x);
        assert(samples.len() == 1);
        assert(1 * x == x);
    } else {
        assert forall|i: int| 0 <= i < prefix.len() implies #[trigger] prefix[i] <= MAX_NANOS by {
            assert(prefix[i] == samples[i]);
        }
        lemma_sample_sum_bounds(prefix);
        let k = prefix.len();
        let pmin = sample_min(prefix);
        let pmax = sample_max(prefix);
        let m = sample_min(samples);
        let h = sample_max(samples);
        assert(m <= pmin && m <= x);
        assert(h >= pmax && h >= x);
        assert((k + 1) * m <= sample_sum(prefix) + x) by (nonlinear_arith)
            requires
                k * pmin <= sample_sum(prefix),
                m <= pmin,
                m <= x,
        ;
        assert(sample_sum(prefix) + x <= (k + 1) * h) by (nonlinear_arith)
            requires
                sample_sum(prefix) <= k * pmax,
                pmax <= h,
                x <= h,
        ;
        assert(samples.len() == k + 1);
    }
}

// ---------------------------------------------------------------------------
// Schedule analysis

/// The length of one frame in nanoseconds: a whole number of microseconds,
/// one second divided by the tick rate.
pub open spec fn frame_budget(tick_rate_hz: u32) -> nat {
    ((1_000_000int / (tick_rate_hz as int)) * 1000) as nat
}

/// The time a task costs frame `frame`: its execution time `wcet` once for
/// each time `frame` is listed among its slots `frames`.
pub open spec fn slot_load(frames: Seq<usize>, frame: int, wcet: nat) -> nat
    decreases frames.len(),
{
    if frames.len() == 0 {
        0
    } else {
        slot_load(frames.drop_last(), frame, wcet) + if frames.last() == frame {
            wcet
        } else {
            0
        }
    }
}

/// An execution time is known for the task.
pub open spec fn has_wcet(task: TaskConfig, wcets: Map<Seq<char>, Duration>) -> bool {
    wcets.contains_key(task.name@)
}

/// Execution times are known for the first `k` tasks.
pub open spec fn wcets_known(tasks: Seq<TaskConfig>, wcets: Map<Seq<char>, Duration>, k: int) -> bool {
    forall|i: int| 0 <= i < k ==> #[trigger] has_wcet(tasks[i], wcets)
}

/// Task `k` is the first one whose execution time is not known.
pub open spec fn first_missing(tasks: Seq<TaskConfig>, wcets: Map<Seq<char>, Duration>, k: int) -> bool {
    &&& 0 <= k < tasks.len()
    &&& !has_wcet(tasks[k], wcets)
    &&& wcets_known(tasks, wcets, k)
}

/// The time the first `k` tasks cost frame `frame`.
pub open spec fn frame_load(
    tasks: Seq<TaskConfig>,
    wcets: Map<Seq<char>, Duration>,
    frame: int,
    k: int,
) -> nat
    decreases k,
{
    if k <= 0 {
        0
    } else {
        frame_load(tasks, wcets, frame, k - 1) + task_cost(tasks[k - 1], wcets, frame)
    }
}

/// The time `task` costs frame `frame` at the execution times `wcets`.
pub open spec fn task_cost(task: TaskConfig, wcets: Map<Seq<char>, Duration>, frame: int) -> nat {
    slot_load(task.frames@, frame, wcets[task.name@]@)
}

/// While the tasks whose execution times are known are summed up, no frame's
/// total exceeds the longest span.
pub open spec fn loads_fit(config: ScheduleConfig, wcets: Map<Seq<char>, Duration>) -> bool {
    forall|f: int, k: int|
        0 <= f < config.system.major_cycle_frames && 0 <= k <= config.tasks@.len()
            && wcets_known(config.tasks@, wcets, k) ==> #[trigger] frame_load(
            config.tasks@,
            wcets,
            f,
            k,
        ) <= MAX_NANOS
}

/// `fr` reports frame `i`, whose tasks cost `load`, against a frame length
/// of `budget`.
pub open spec fn reports_frame(fr: FrameReport, i: int, load: nat, budget: nat) -> bool {
    &&& fr.frame_index == i
    &&& fr.total_wcet@ == load
    &&& fr.budget@ == budget
    &&& fr.overrun == (load > budget)
    &&& fr.remaining@ == if load <= budget {
        (budget - load) as nat
    } else {
        0
    }
}

/// `report` is the analysis of `config` under the execution times `wcets`:
/// one report per frame of the major cycle, in order, and the overrun flag
/// raised exactly when some frame overruns.
pub open spec fn is_analysis_of(
    report: AnalysisReport,
    config: ScheduleConfig,
    wcets: Map<Seq<char>, Duration>,
) -> bool {
    &&& report.frame_reports@.len() == config.system.major_cycle_frames
    &&& forall|i: int|
        0 <= i < config.system.major_cycle_frames ==> reports_frame(
            #[trigger] report.frame_reports@[i],
            i,
            frame_load(config.tasks@, wcets, i, config.tasks@.len() as int),
            frame_budget(config.system.tick_rate_hz),
        )
    &&& report.has_overruns == exists|i: int|
        0 <= i < config.system.major_cycle_frames && (#[trigger] report.frame_reports@[i]).overrun
}

/// Checks that the tasks slotted into each frame of `config`, at the
/// execution times `task_wcets`, fit in one tick. A zero tick rate is an
/// error, and so is the first task, in order, whose execution time is missing.
pub fn analyze_schedule(config: &ScheduleConfig, task_wcets: &StringHashMap<Duration>) -> (r: Result<
    AnalysisReport,
    AnalysisError,
>)
    requires
        config.system.tick_rate_hz != 0 ==> loads_fit(*config, task_wcets@),
    ensures
        r == Err::<AnalysisReport, AnalysisError>(AnalysisError::ZeroTickRate)
            <==> config.system.tick_rate_hz == 0,
        r matches Err(AnalysisError::MissingTaskWcet(_)) <==> config.system.tick_rate_hz != 0
            && exists|k: int| first_missing(config.tasks@, task_wcets@, k),
        r matches Err(AnalysisError::MissingTaskWcet(name)) ==> exists|k: int|
            first_missing(config.tasks@, task_wcets@, k) && name@ == config.tasks@[k].name@,
        r matches Ok(report) ==> is_analysis_of(report, *config, task_wcets@),
{
    if config.system.tick_rate_hz == 0 {
        return Err(AnalysisError::ZeroTickRate);
    }
    let budget = Duration::from_micros(1_000_000 / config.system.tick_rate_hz as u64);
    let major = config.system.major_cycle_frames;
    let ghost tasks = config.tasks@;
    let ghost wcets = task_wcets@;

    let mut frame_wcets: Vec<Duration> = Vec::new();
    let mut f: usize = 0;
    while f < major
        invariant
            f <= major,
            frame_wcets@.len() == f,
            forall|g: int| 0 <= g < f ==> (#[trigger] frame_wcets@[g])@ == 0,
        decreases major - f,
    {
        frame_wcets.push(Duration::zero());
        f = f + 1;
    }

    let mut t: usize = 0;
    while t < config.tasks.len()
        invariant
            tasks == config.tasks@,
            wcets == task_wcets@,
            major == config.system.major_cycle_frames,
            config.system.tick_rate_hz != 0,
            loads_fit(*config, wcets),
            t <= tasks.len(),
            frame_wcets@.len() == major,
            wcets_known(tasks, wcets, t as int),
            forall|g: int| 0 <= g < major ==> (#[trigger] frame_wcets@[g])@ == frame_load(tasks, wcets, g, t as int),
        decreases tasks.len() - t,
    {
        let task = &config.tasks[t];
        let wcet: Duration = match task_wcets.get(task.name.as_str()) {
            Some(w) => *w,
            None => {
                assert(first_missing(tasks, wcets, t as int));
                return Err(AnalysisError::MissingTaskWcet(task.name.clone()));
            },
        };
        assert(has_wcet(tasks[t as int], wcets));
        assert(wcets_known(tasks, wcets, t + 1));
        let ghost frames = task.frames@;
        let mut j: usize = 0;
        while j < task.frames.len()
            invariant
                tasks == config.tasks@,
                wcets == task_wcets@,
                major == config.system.major_cycle_frames,
                loads_fit(*config, wcets),
                t < tasks.len(),
                *task == tasks[t as int],
                frames == task.frames@,
                wcet == wcets[tasks[t as int].name@],
                wcets_known(tasks, wcets, t + 1),
                j <= frames.len(),
                frame_wcets@.len() == major,
                forall|g: int| 0 <= g < major ==> (#[trigger] frame_wcets@[g])@ == frame_load(tasks, wcets, g, t as int)
                    + slot_load(frames.take(j as int), g, wcet@),
            decreases frames.len() - j,
        {
            let frame = task.frames[j];
            proof {
                assert(frames.take(j + 1).drop_last() =~= frames.take(j as int));
            }
            if frame < major {
                proof {
                    lemma_slot_load_prefix(frames, j + 1, frame as int, wcet@);
                    assert(frame_load(tasks, wcets, frame as int, t + 1) <= MAX_NANOS);
                }
                let cur = frame_wcets[frame];
                frame_wcets.set(frame, cur.saturating_add(wcet));
            }
            j = j + 1;
        }
        assert(frames.take(frames.len() as int) =~= frames);
        t = t + 1;
    }

    let mut frame_reports: Vec<FrameReport> = Vec::new();
    let mut has_overruns = false;
    let mut i: usize = 0;
    while i < major
        invariant
            tasks == config.tasks@,
            wcets == task_wcets@,
            major == config.system.major_cycle_frames,
            budget@ == frame_budget(config.system.tick_rate_hz),
            frame_wcets@.len() == major,
            forall|g: int| 0 <= g < major ==> (#[trigger] frame_wcets@[g])@ == frame_load(tasks, wcets, g, tasks.len() as int),
            i <= major,
            frame_reports@.len() == i,
            forall|g: int| 0 <= g < i ==> reports_frame(
                #[trigger] frame_reports@[g],
                g,
                frame_load(tasks, wcets, g, tasks.len() as int),
                budget@,
            ),
            has_overruns == exists|g: int| 0 <= g < i && (#[trigger] frame_reports@[g]).overrun,
        decreases major - i,
    {
        let total_wcet = frame_wcets[i];
        let overrun = total_wcet.as_nanos() > budget.as_nanos();
        if overrun {
            has_overruns = true;
        }
        let remaining = budget.saturating_sub(total_wcet);
        let ghost before = frame_reports@;
        frame_reports.push(FrameReport { frame_index: i, total_wcet, budget, remaining, overrun });
        assert forall|g: int| 0 <= g < i implies frame_reports@[g] == before[g] by {}
        if overrun {
            assert(frame_reports@[i as int].overrun);
        }
        i = i + 1;
    }
    Ok(AnalysisReport { frame_reports, has_overruns })
}

/// The cost a task adds to a frame only grows as more of its slots are
/// counted.
proof fn lemma_slot_load_prefix(frames: Seq<usize>, j: int, frame: int, wcet: nat)
    requires
        0 <= j <= frames.len(),
    ensures
        slot_load(frames.take(j), frame, wcet) <= slot_load(frames, frame, wcet),
    decreases frames.len(),
{
    if j == frames.len() {
        assert(frames.take(j) =~= frames);
    } else {
        let prefix = frames.drop_last();
        assert(frames.take(j) =~= prefix.take(j));
        lemma_slot_load_prefix(prefix, j, frame, wcet);
    }
}

/// Every frame's time is accounted for: a frame that fits leaves exactly its
/// budget minus its load, and a frame that overruns leaves nothing.
pub proof fn lemma_report_balances(
    report: AnalysisReport,
    config: ScheduleConfig,
    wcets: Map<Seq<char>, Duration>,
    i: int,
)
    requires
        is_analysis_of(report, config, wcets),
        0 <= i < config.system.major_cycle_frames,
    ensures
        !report.frame_reports@[i].overrun ==> report.frame_reports@[i].total_wcet@
            + report.frame_reports@[i].remaining@ == report.frame_reports@[i].budget@,
        report.frame_reports@[i].overrun ==> report.frame_reports@[i].remaining@ == 0
            && report.has_overruns,
        !report.has_overruns ==> report.frame_reports@[i].total_wcet@
            <= report.frame_reports@[i].budget@,
{
    assert(reports_frame(
        report.frame_reports@[i],
        i,
        frame_load(config.tasks@, wcets, i, config.tasks@.len() as int),
        frame_budget(config.system.tick_rate_hz),
    ));
}

// ---------------------------------------------------------------------------
// Laws of the schedule analysis

/// A frame's load counts only the first `k` tasks.
proof fn lemma_frame_load_prefix(
    s1: Seq<TaskConfig>,
    s2: Seq<TaskConfig>,
    wcets: Map<Seq<char>, Duration>,
    frame: int,
    k: int,
)
    requires
        0 <= k <= s1.len(),
        k <= s2.len(),
        forall|i: int| 0 <= i < k ==> s1[i] == s2[i],
    ensures
        frame_load(s1, wcets, frame, k) == frame_load(s2, wcets, frame, k),
    decreases k,
{
    if k > 0 {
        lemma_frame_load_prefix(s1, s2, wcets, frame, k - 1);
        assert(s1[k - 1] == s2[k - 1]);
    }
}

/// The slots that lie inside a major cycle of `major` frames.
pub open spec fn in_cycle(major: nat) -> spec_fn(usize) -> bool {
    |slot: usize| slot < major
}

/// A task's cost to a frame of the cycle depends only on its slots inside
/// the cycle.
proof fn lemma_slot_load_in_cycle(frames: Seq<usize>, major: nat, frame: int, wcet: nat)
    requires
        0 <= frame < major,
    ensures
        slot_load(frames, frame, wcet) == slot_load(frames.filter(in_cycle(major)), frame, wcet),
    decreases frames.len(),
{
    if frames.len() > 0 {
        let init = frames.drop_last();
        let sub = init.filter(in_cycle(major));
        let x = frames.last();
        reveal_with_fuel(Seq::<usize>::filter, 1);
        lemma_slot_load_in_cycle(init, major, frame, wcet);
        assert(in_cycle(major)(x) == (x < major));
        if x < major {
            assert(frames.filter(in_cycle(major)) == sub.push(x));
            assert(sub.push(x).drop_last() =~= sub);
            assert(sub.push(x).last() == x);
        } else {
            assert(frames.filter(in_cycle(major)) == sub);
        }
    }
}

/// `tasks2` is `tasks` with slots outside a major cycle of `major` frames
/// added or removed anywhere: the same tasks by name, each with the same
/// slots inside the cycle in the same order.
pub open spec fn same_in_cycle_slots(tasks: Seq<TaskConfig>, tasks2: Seq<TaskConfig>, major: nat) -> bool {
    &&& tasks2.len() == tasks.len()
    &&& forall|i: int|
        0 <= i < tasks.len() ==> {
            &&& tasks2[i].name@ == (#[trigger] tasks[i]).name@
            &&& tasks2[i].frames@.filter(in_cycle(major)) == tasks[i].frames@.filter(in_cycle(major))
        }
}

/// Slots that lie outside the major cycle are ignored: adding or removing
/// them anywhere in tasks' slot lists changes neither whether the analysis may run, nor which task is reported
/// missing, nor the report.
pub proof fn lemma_out_of_range_slots_ignored(
    config: ScheduleConfig,
    config2: ScheduleConfig,
    wcets: Map<Seq<char>, Duration>,
    report: AnalysisReport,
)
    requires
        config2.system == config.system,
        same_in_cycle_slots(config.tasks@, config2.tasks@, config.system.major_cycle_frames as nat),
    ensures
        forall|f: int, k: int|
            0 <= f < config.system.major_cycle_frames && 0 <= k <= config.tasks@.len() ==> frame_load(
                config2.tasks@,
                wcets,
                f,
                k,
            ) == frame_load(config.tasks@, wcets, f, k),
        forall|k: int|
            first_missing(config2.tasks@, wcets, k) == first_missing(config.tasks@, wcets, k),
        loads_fit(config2, wcets) == loads_fit(config, wcets),
        is_analysis_of(report, config2, wcets) == is_analysis_of(report, config, wcets),
{
    let t1 = config.tasks@;
    let t2 = config2.tasks@;
    let major = config.system.major_cycle_frames;
    assert forall|f: int, k: int| 0 <= f < major && 0 <= k <= t1.len() implies frame_load(t2, wcets, f, k)
        == frame_load(t1, wcets, f, k) by {
        lemma_frame_load_out_of_range(t1, t2, wcets, major as nat, f, k);
    }
    assert forall|k: int| 0 <= k <= t1.len() implies wcets_known(t2, wcets, k) == wcets_known(t1, wcets, k) by {
        if wcets_known(t1, wcets, k) {
            assert forall|i: int| 0 <= i < k implies #[trigger] has_wcet(t2[i], wcets) by {
                assert(has_wcet(t1[i], wcets));
            }
        }
        if wcets_known(t2, wcets, k) {
            assert forall|i: int| 0 <= i < k implies #[trigger] has_wcet(t1[i], wcets) by {
                assert(has_wcet(t2[i], wcets));
            }
        }
    }
    assert forall|k: int| first_missing(t2, wcets, k) == first_missing(t1, wcets, k) by {
        if 0 <= k < t1.len() {
            assert(t1[k].name@ == t2[k].name@);
        }
    }
    if loads_fit(config, wcets) {
        assert forall|f: int, k: int|
            0 <= f < major && 0 <= k <= t2.len() && wcets_known(t2, wcets, k) implies #[trigger] frame_load(
            t2,
            wcets,
            f,
            k,
        ) <= MAX_NANOS by {
            assert(frame_load(t1, wcets, f, k) <= MAX_NANOS);
        }
    }
    if loads_fit(config2, wcets) {
        assert forall|f: int, k: int|
            0 <= f < major && 0 <= k <= t1.len() && wcets_known(t1, wcets, k) implies #[trigger] frame_load(
            t1,
            wcets,
            f,
            k,
        ) <= MAX_NANOS by {
            assert(frame_load(t2, wcets, f, k) <= MAX_NANOS);
        }
    }
    if is_analysis_of(report, config, wcets) {
        assert forall|i: int| 0 <= i < major implies reports_frame(
            #[trigger] report.frame_reports@[i],
            i,
            frame_load(t2, wcets, i, t2.len() as int),
            frame_budget(config.system.tick_rate_hz),
        ) by {
            assert(frame_load(t2, wcets, i, t1.len() as int) == frame_load(t1, wcets, i, t1.len() as int));
        }
    }
    if is_analysis_of(report, config2, wcets) {
        assert forall|i: int| 0 <= i < major implies reports_frame(
            #[trigger] report.frame_reports@[i],
            i,
            frame_load(t1, wcets, i, t1.len() as int),
            frame_budget(config.system.tick_rate_hz),
        ) by {
            assert(frame_load(t2, wcets, i, t1.len() as int) == frame_load(t1, wcets, i, t1.len() as int));
        }
    }
}

proof fn lemma_frame_load_out_of_range(
    t1: Seq<TaskConfig>,
    t2: Seq<TaskConfig>,
    wcets: Map<Seq<char>, Duration>,
    major: nat,
    f: int,
    k: int,
)
    requires
        same_in_cycle_slots(t1, t2, major),
        0 <= f < major,
        0 <= k <= t1.len(),
    ensures
        frame_load(t2, wcets, f, k) == frame_load(t1, wcets, f, k),
    decreases k,
{
    if k > 0 {
        lemma_frame_load_out_of_range(t1, t2, wcets, major, f, k - 1);
        let w = wcets[t1[k - 1].name@]@;
        assert(t2[k - 1].name@ == t1[k - 1].name@);
        lemma_slot_load_in_cycle(t1[k - 1].frames@, major, f, w);
        lemma_slot_load_in_cycle(t2[k - 1].frames@, major, f, w);
    }
}

/// `wcets2` gives every task that `wcets` knows a time at least as long.
pub open spec fn times_at_least(wcets2: Map<Seq<char>, Duration>, wcets: Map<Seq<char>, Duration>) -> bool {
    forall|n: Seq<char>|
        #[trigger] wcets.contains_key(n) ==> wcets2.contains_key(n) && wcets[n]@ <= wcets2[n]@
}

proof fn lemma_slot_load_monotone(frames: Seq<usize>, frame: int, w1: nat, w2: nat)
    requires
        w1 <= w2,
    ensures
        slot_load(frames, frame, w1) <= slot_load(frames, frame, w2),
    decreases frames.len(),
{
    if frames.len() > 0 {
        lemma_slot_load_monotone(frames.drop_last(), frame, w1, w2);
    }
}

proof fn lemma_frame_load_monotone(
    tasks: Seq<TaskConfig>,
    w1: Map<Seq<char>, Duration>,
    w2: Map<Seq<char>, Duration>,
    frame: int,
    k: int,
)
    requires
        0 <= k <= tasks.len(),
        wcets_known(tasks, w1, k),
        times_at_least(w2, w1),
    ensures
        frame_load(tasks, w1, frame, k) <= frame_load(tasks, w2, frame, k),
    decreases k,
{
    if k > 0 {
        lemma_frame_load_monotone(tasks, w1, w2, frame, k - 1);
        assert(has_wcet(tasks[k - 1], w1));
        lemma_slot_load_monotone(
            tasks[k - 1].frames@,
            frame,
            w1[tasks[k - 1].name@]@,
            w2[tasks[k - 1].name@]@,
        );
    }
}

/// The analysis is monotone in the tasks' execution times: where no time
/// shrinks, no frame's load shrinks, no remaining time grows, and no overrun
/// goes away.
pub proof fn lemma_analysis_monotone(
    config: ScheduleConfig,
    w1: Map<Seq<char>, Duration>,
    w2: Map<Seq<char>, Duration>,
    r1: AnalysisReport,
    r2: AnalysisReport,
)
    requires
        wcets_known(config.tasks@, w1, config.tasks@.len() as int),
        times_at_least(w2, w1),
        is_analysis_of(r1, config, w1),
        is_analysis_of(r2, config, w2),
    ensures
        forall|i: int|
            0 <= i < config.system.major_cycle_frames ==> {
                &&& (#[trigger] r1.frame_reports@[i]).total_wcet@ <= r2.frame_reports@[i].total_wcet@
                &&& r2.frame_reports@[i].remaining@ <= r1.frame_reports@[i].remaining@
                &&& r1.frame_reports@[i].overrun ==> r2.frame_reports@[i].overrun
            },
        r1.has_overruns ==> r2.has_overruns,
{
    let tasks = config.tasks@;
    let n = tasks.len() as int;
    let budget = frame_budget(config.system.tick_rate_hz);
    assert forall|i: int| 0 <= i < config.system.major_cycle_frames implies {
        &&& (#[trigger] r1.frame_reports@[i]).total_wcet@ <= r2.frame_reports@[i].total_wcet@
        &&& r2.frame_reports@[i].remaining@ <= r1.frame_reports@[i].remaining@
        &&& r1.frame_reports@[i].overrun ==> r2.frame_reports@[i].overrun
    } by {
        lemma_frame_load_monotone(tasks, w1, w2, i, n);
        assert(reports_frame(r1.frame_reports@[i], i, frame_load(tasks, w1, i, n), budget));
        assert(reports_frame(r2.frame_reports@[i], i, frame_load(tasks, w2, i, n), budget));
    }
    if r1.has_overruns {
        let i = choose|i: int| 0 <= i < config.system.major_cycle_frames && (#[trigger] r1.frame_reports@[i]).overrun;
        assert(r2.frame_reports@[i].overrun);
    }
}

/// Taking task `i` out of the sequence takes exactly its cost out of a
/// frame's load.
proof fn lemma_frame_load_remove(tasks: Seq<TaskConfig>, wcets: Map<Seq<char>, Duration>, frame: int, i: int)
    requires
        0 <= i < tasks.len(),
    ensures
        frame_load(tasks, wcets, frame, tasks.len() as int) == frame_load(
            tasks.remove(i),
            wcets,
            frame,
            tasks.len() - 1,
        ) + task_cost(tasks[i], wcets, frame),
    decreases tasks.len(),
{
    let n = tasks.len() as int;
    let rest = tasks.remove(i);
    let init = tasks.drop_last();
    lemma_frame_load_prefix(tasks, init, wcets, frame, n - 1);
    if i == n - 1 {
        assert(rest =~= init);
    } else {
        lemma_frame_load_remove(init, wcets, frame, i);
        assert(rest.drop_last() =~= init.remove(i));
        assert(rest[n - 2] == tasks[n - 1]);
        lemma_frame_load_prefix(rest, rest.drop_last(), wcets, frame, n - 2);
    }
}

/// The analysis does not depend on the order of the tasks: any reordering
/// of them gives every frame the same load, and so the same report.
pub proof fn lemma_task_order_irrelevant(
    config: ScheduleConfig,
    config2: ScheduleConfig,
    wcets: Map<Seq<char>, Duration>,
    report: AnalysisReport,
)
    requires
        config2.system == config.system,
        config2.tasks@.to_multiset() == config.tasks@.to_multiset(),
    ensures
        forall|f: int|
            frame_load(config2.tasks@, wcets, f, config2.tasks@.len() as int) == frame_load(
                config.tasks@,
                wcets,
                f,
                config.tasks@.len() as int,
            ),
        is_analysis_of(report, config2, wcets) == is_analysis_of(report, config, wcets),
{
    let t1 = config.tasks@;
    let t2 = config2.tasks@;
    assert forall|f: int|
        frame_load(t2, wcets, f, t2.len() as int) == frame_load(t1, wcets, f, t1.len() as int) by {
        lemma_frame_load_permutation(t1, t2, wcets, f);
    }
    broadcast use vstd::seq_lib::group_to_multiset_ensures;
    assert(t1.to_multiset().len() == t1.len());
    assert(t2.to_multiset().len() == t2.len());
    assert(t1.len() == t2.len());
}

proof fn lemma_frame_load_permutation(
    t1: Seq<TaskConfig>,
    t2: Seq<TaskConfig>,
    wcets: Map<Seq<char>, Duration>,
    frame: int,
)
    requires
        t2.to_multiset() == t1.to_multiset(),
    ensures
        t1.len() == t2.len(),
        frame_load(t2, wcets, frame, t2.len() as int) == frame_load(t1, wcets, frame, t1.len() as int),
    decreases t1.len(),
{
    broadcast use vstd::seq_lib::group_to_multiset_ensures;

    assert(t1.to_multiset().len() == t1.len());
    assert(t2.to_multiset().len() == t2.len());
    assert(t1.len() == t2.len());
    if t2.len() > 0 {
        let x = t2.last();
        let n = t2.len() as int;
        assert(t2.contains(x)) by {
            assert(t2[n - 1] == x);
        }
        assert(t1.to_multiset().count(x) > 0);
        assert(t1.contains(x));
        let i = choose|i: int| 0 <= i < t1.len() && t1[i] == x;
        let r1 = t1.remove(i);
        let r2 = t2.drop_last();
        assert(r2 =~= t2.remove(n - 1));
        assert(r1.to_multiset() == t1.to_multiset().remove(x));
        assert(r2.to_multiset() == t2.to_multiset().remove(x));
        lemma_frame_load_permutation(r1, r2, wcets, frame);
        lemma_frame_load_remove(t1, wcets, frame, i);
        lemma_frame_load_prefix(t2, r2, wcets, frame, n - 1);
    }
}

} // verus!
