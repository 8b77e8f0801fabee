use vstd::prelude::*;

verus! {

/// Floor for the spawn budget: at least one chunk may start per tick.
pub const MIN_SPAWNS_PER_FRAME: usize = 1;

/// Ceiling for the spawn budget.
pub const MAX_SPAWNS_PER_FRAME: usize = 16;

/// Floor for the number of generation tasks in flight.
pub const MIN_CONCURRENT_TASKS: usize = 4;

/// Ceiling for the number of generation tasks in flight.
pub const MAX_CONCURRENT_TASKS: usize = 32;

/// The admission controller's budget. Frame times are whole microseconds;
/// the two integer bounds are recalibrated every tick from the smoothed
/// frame time against the target frame time.
#[derive(Clone, Copy, Debug, PartialEq, Eq, Structural)]
pub struct ChunkSpawnLimiter {
    /// How many generation tasks may be started in one tick.
    pub max_spawns_per_frame: usize,
    /// How many generation tasks may be in flight at once.
    pub max_concurrent_tasks: usize,
    /// The frame time the controller steers towards, in microseconds.
    pub target_frame_time_micros: u32,
    /// Exponential moving average of the observed frame time, in
    /// microseconds.
    pub smooth_frame_time_micros: u32,
}

/// The moving average after one more frame: nineteen parts the old average,
/// one part the new sample. The five-percent weight damps single-frame
/// spikes while tracking sustained load within fifteen to twenty frames.
pub open spec fn smoothed(smooth: u32, delta: u32) -> int {
    (19 * smooth + delta) / 20
}

/// The frame budget is exceeded by more than thirty percent.
pub open spec fn overloaded(smooth: int, target: u32) -> bool {
    10 * smooth > 13 * target
}

/// More than thirty percent of the frame budget is to spare.
pub open spec fn underloaded(smooth: int, target: u32) -> bool {
    10 * smooth < 7 * target
}

/// The budget after one recalibration step on the frame sample `delta`:
/// overload shrinks both bounds by one, spare headroom grows the spawn
/// budget by one and the concurrency bound by two, anything between holds
/// steady; all four movements stop at their floor or ceiling.
pub open spec fn adjusted(l: ChunkSpawnLimiter, delta: u32) -> ChunkSpawnLimiter {
    let s = smoothed(l.smooth_frame_time_micros, delta);
    let spawns = if overloaded(s, l.target_frame_time_micros) {
        if l.max_spawns_per_frame > MIN_SPAWNS_PER_FRAME {
            (l.max_spawns_per_frame - 1) as usize
        } else {
            MIN_SPAWNS_PER_FRAME
        }
    } else if underloaded(s, l.target_frame_time_micros) {
        if l.max_spawns_per_frame < MAX_SPAWNS_PER_FRAME {
            (l.max_spawns_per_frame + 1) as usize
        } else {
            MAX_SPAWNS_PER_FRAME
        }
    } else {
        l.max_spawns_per_frame
    };
    let concurrent = if overloaded(s, l.target_frame_time_micros) {
        if l.max_concurrent_tasks > MIN_CONCURRENT_TASKS {
            (l.max_concurrent_tasks - 1) as usize
        } else {
            MIN_CONCURRENT_TASKS
        }
    } else if underloaded(s, l.target_frame_time_micros) {
        if l.max_concurrent_tasks + 2 < MAX_CONCURRENT_TASKS {
            (l.max_concurrent_tasks + 2) as usize
        } else {
            MAX_CONCURRENT_TASKS
        }
    } else {
        l.max_concurrent_tasks
    };
    ChunkSpawnLimiter {
        max_spawns_per_frame: spawns,
        max_concurrent_tasks: concurrent,
        target_frame_time_micros: l.target_frame_time_micros,
        smooth_frame_time_micros: s as u32,
    }
}

impl ChunkSpawnLimiter {
    /// Both bounds lie between their floor and their ceiling.
    pub open spec fn inv(self) -> bool {
        &&& MIN_SPAWNS_PER_FRAME <= self.max_spawns_per_frame <= MAX_SPAWNS_PER_FRAME
        &&& MIN_CONCURRENT_TASKS <= self.max_concurrent_tasks <= MAX_CONCURRENT_TASKS
    }
}

impl Default for ChunkSpawnLimiter {
    /// Four spawns per tick, twelve tasks in flight, steering towards
    /// sixty frames per second with the average primed at the target.
    fn default() -> (l: ChunkSpawnLimiter)
        ensures
            l == (ChunkSpawnLimiter {
                max_spawns_per_frame: 4usize,
                max_concurrent_tasks: 12usize,
                target_frame_time_micros: 16666u32,
                smooth_frame_time_micros: 16666u32,
            }),
            l.inv(),
    {
        ChunkSpawnLimiter {
            max_spawns_per_frame: 4,
            max_concurrent_tasks: 12,
            target_frame_time_micros: 16666,
            smooth_frame_time_micros: 16666,
        }
    }
}

/// One new frame sample never moves the average outside the span between
/// the old average and the sample.
pub proof fn lemma_smoothed_between(smooth: u32, delta: u32)
    ensures
        smoothed(smooth, delta) >= if smooth <= delta {
            smooth as int
        } else {
            delta as int
        },
        smoothed(smooth, delta) <= if smooth <= delta {
            delta as int
        } else {
            smooth as int
        },
{
    let lo: int = if smooth <= delta {
        smooth as int
    } else {
        delta as int
    };
    let hi: int = if smooth <= delta {
        delta as int
    } else {
        smooth as int
    };
    assert(20 * lo <= 19 * smooth + delta <= 20 * hi);
    vstd::arithmetic::div_mod::lemma_div_is_ordered(20 * lo, 19 * smooth + delta, 20);
    vstd::arithmetic::div_mod::lemma_div_is_ordered(19 * smooth + delta, 20 * hi, 20);
    vstd::arithmetic::div_mod::lemma_div_by_multiple(lo, 20);
    vstd::arithmetic::div_mod::lemma_div_by_multiple(hi, 20);
}

/// Recalibrates the budget from the last frame's duration. Run once per
/// tick, before chunks are admitted.
pub fn adjust_limiter(limiter: &mut ChunkSpawnLimiter, delta_micros: u32)
    ensures
        *final(limiter) == adjusted(*old(limiter), delta_micros),
        old(limiter).inv() ==> final(limiter).inv(),
{
    proof {
        lemma_smoothed_between(limiter.smooth_frame_time_micros, delta_micros);
    }
    let s64: u64 = (19u64 * limiter.smooth_frame_time_micros as u64 + delta_micros as u64) / 20;
    let s: u32 = s64 as u32;
    limiter.smooth_frame_time_micros = s;

    let over = (10u64 * s as u64) > (13u64 * limiter.target_frame_time_micros as u64);
    let under = (10u64 * s as u64) < (7u64 * limiter.target_frame_time_micros as u64);

    if over {
        if limiter.max_spawns_per_frame > MIN_SPAWNS_PER_FRAME {
            limiter.max_spawns_per_frame = limiter.max_spawns_per_frame - 1;
        } else {
            limiter.max_spawns_per_frame = MIN_SPAWNS_PER_FRAME;
        }
        if limiter.max_concurrent_tasks > MIN_CONCURRENT_TASKS {
            limiter.max_concurrent_tasks = limiter.max_concurrent_tasks - 1;
        } else {
            limiter.max_concurrent_tasks = MIN_CONCURRENT_TASKS;
        }
    } else if under {
        if limiter.max_spawns_per_frame < MAX_SPAWNS_PER_FRAME {
            limiter.max_spawns_per_frame = limiter.max_spawns_per_frame + 1;
        } else {
            limiter.max_spawns_per_frame = MAX_SPAWNS_PER_FRAME;
        }
        if limiter.max_concurrent_tasks < MAX_CONCURRENT_TASKS - 2 {
            limiter.max_concurrent_tasks = limiter.max_concurrent_tasks + 2;
        } else {
            limiter.max_concurrent_tasks = MAX_CONCURRENT_TASKS;
        }
    }
}

/// The budget after recalibrating on each sample of `deltas` in turn.
pub open spec fn run_adjusted(l: ChunkSpawnLimiter, deltas: Seq<u32>) -> ChunkSpawnLimiter
    decreases deltas.len(),
{
    if deltas.len() == 0 {
        l
    } else {
        run_adjusted(adjusted(l, deltas.first()), deltas.drop_first())
    }
}

/// Sustained overload converges to the floor and stays there: while the
/// average and every new sample exceed the budget by more than thirty
/// percent, each tick lowers both bounds by one until they rest at one
/// spawn per tick and four tasks in flight, and no tick moves either bound
/// below its floor.
pub proof fn lemma_sustained_overload_reaches_floor(l: ChunkSpawnLimiter, deltas: Seq<u32>)
    requires
        l.inv(),
        overloaded(l.smooth_frame_time_micros as int, l.target_frame_time_micros),
        forall|i: int|
            0 <= i < deltas.len() ==> overloaded(
                (#[trigger] deltas[i]) as int,
                l.target_frame_time_micros,
            ),
    ensures
        run_adjusted(l, deltas).inv(),
        run_adjusted(l, deltas).max_spawns_per_frame == if l.max_spawns_per_frame
            - deltas.len() > MIN_SPAWNS_PER_FRAME {
            l.max_spawns_per_frame - deltas.len()
        } else {
            MIN_SPAWNS_PER_FRAME as int
        },
        run_adjusted(l, deltas).max_concurrent_tasks == if l.max_concurrent_tasks
            - deltas.len() > MIN_CONCURRENT_TASKS {
            l.max_concurrent_tasks - deltas.len()
        } else {
            MIN_CONCURRENT_TASKS as int
        },
        run_adjusted(l, deltas).target_frame_time_micros == l.target_frame_time_micros,
        overloaded(
            run_adjusted(l, deltas).smooth_frame_time_micros as int,
            l.target_frame_time_micros,
        ),
    decreases deltas.len(),
{
    if deltas.len() > 0 {
        let d = deltas.first();
        let l1 = adjusted(l, d);
        lemma_smoothed_between(l.smooth_frame_time_micros, d);
        assert(overloaded(smoothed(l.smooth_frame_time_micros, d), l.target_frame_time_micros));
        lemma_sustained_overload_reaches_floor(l1, deltas.drop_first());
    }
}

} // verus!
