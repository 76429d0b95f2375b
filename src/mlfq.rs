use vstd::prelude::*;

use crate::model::{
    after_run, boost_due, boosted, gathered, inserted, lemma_boosted_priorities,
    lemma_promoted_step, priorities_match, promoted, run_amount, stepped, BOOST_INTERVAL,
};

verus! {

/// A runnable unit of work held by the scheduler.
#[derive(Clone, Copy, Debug, PartialEq, Eq, Structural)]
pub struct Process {
    pub id: u32,
    /// Index of the level that holds the process.
    pub priority: usize,
    pub remaining_time: u32,
    pub total_executed_time: u32,
}

/// What one execution step did: which process ran, for how long, and how
/// much work it has left.
#[derive(Clone, Copy, Debug, PartialEq, Eq, Structural)]
pub struct Execution {
    pub id: u32,
    pub executed_time: u32,
    pub remaining_time: u32,
}

/// Why a scheduler could not be built.
#[derive(Clone, Copy, Debug, PartialEq, Eq, Structural)]
pub enum ConfigError {
    /// No level was asked for.
    NoLevels,
    /// The number of quanta differs from the number of levels.
    QuantaMismatch,
}

/// A multi-level feedback queue scheduler. Level 0 has the highest
/// priority; each level is a stack whose most recently inserted process runs
/// first.
pub struct MLFQ {
    pub queues: Vec<Vec<Process>>,
    pub num_levels: usize,
    /// Time quantum of each level.
    pub time_quanta: Vec<u32>,
    /// The simulation clock.
    pub current_time: u32,
}

impl MLFQ {
    /// The processes of each level, oldest first.
    pub open spec fn levels(&self) -> Seq<Seq<Process>> {
        self.queues@.map_values(|q: Vec<Process>| q@)
    }

    /// One queue and one quantum per level, at least one level, and every
    /// process at the level its priority names.
    pub open spec fn wf(&self) -> bool {
        &&& self.num_levels > 0
        &&& self.queues@.len() == self.num_levels
        &&& self.time_quanta@.len() == self.num_levels
        &&& priorities_match(self.levels())
    }

    /// Creates a scheduler with `num_levels` empty levels and a zero clock.
    pub fn new(num_levels: usize, time_quanta: Vec<u32>) -> (r: MLFQ)
        requires
            num_levels > 0,
            time_quanta@.len() == num_levels,
        ensures
            r.wf(),
            r.num_levels == num_levels,
            r.levels() == Seq::new(num_levels as nat, |i: int| Seq::<Process>::empty()),
            r.time_quanta@ == time_quanta@,
            r.current_time == 0,
    {
        let mut queues: Vec<Vec<Process>> = Vec::new();
        let mut i: usize = 0;
        while i < num_levels
            invariant
                i <= num_levels,
                queues@.len() == i,
                forall|k: int| 0 <= k < i ==> (#[trigger] queues@[k])@ == Seq::<Process>::empty(),
            decreases num_levels - i,
        {
            queues.push(Vec::new());
            i = i + 1;
        }
        let r = MLFQ { queues, num_levels, time_quanta, current_time: 0 };
        assert(r.levels() =~= Seq::new(num_levels as nat, |i: int| Seq::<Process>::empty()));
        r
    }

    /// Creates a scheduler as `new` does, or reports a configuration that
    /// would leave some level without a quantum.
    pub fn try_new(num_levels: usize, time_quanta: Vec<u32>) -> (r: Result<MLFQ, ConfigError>)
        ensures
            num_levels == 0 <==> r == Err::<MLFQ, ConfigError>(ConfigError::NoLevels),
            num_levels > 0 && time_quanta@.len() != num_levels <==> r == Err::<MLFQ, ConfigError>(
                ConfigError::QuantaMismatch,
            ),
            r matches Ok(s) ==> {
                &&& s.wf()
                &&& s.num_levels == num_levels
                &&& s.levels() == Seq::new(num_levels as nat, |i: int| Seq::<Process>::empty())
                &&& s.time_quanta@ == time_quanta@
                &&& s.current_time == 0
            },
    {
        if num_levels == 0 {
            Err(ConfigError::NoLevels)
        } else if time_quanta.len() != num_levels {
            Err(ConfigError::QuantaMismatch)
        } else {
            Ok(MLFQ::new(num_levels, time_quanta))
        }
    }

    /// Inserts `process` at the tail of the level its priority names, or of
    /// the last level when its priority is beyond the last level; its
    /// priority is set to the level it lands in.
    pub fn add_process(&mut self, process: Process)
        requires
            old(self).wf(),
        ensures
            final(self).wf(),
            final(self).num_levels == old(self).num_levels,
            final(self).time_quanta@ == old(self).time_quanta@,
            final(self).current_time == old(self).current_time,
            final(self).levels() == inserted(old(self).levels(), process),
    {
        let level: usize = if process.priority < self.num_levels {
            process.priority
        } else {
            self.num_levels - 1
        };
        let mut p = process;
        p.priority = level;
        self.queues[level].push(p);
        assert(self.levels() =~= inserted(old(self).levels(), process));
    }

    /// Whether one step on level `queue_index` keeps the clock and the
    /// running process's executed time within `u32`.
    pub open spec fn step_fits(&self, queue_index: int) -> bool {
        let q = self.levels()[queue_index];
        q.len() > 0 ==> {
            let e = run_amount(q.last(), self.time_quanta@[queue_index]);
            &&& q.last().total_executed_time + e <= u32::MAX
            &&& self.current_time + e <= u32::MAX
        }
    }

    /// Runs the most recently inserted process of level `queue_index` for at
    /// most that level's quantum. A process with work left moves to the tail
    /// of the next level; a finished process, or one with work left on the
    /// last level, leaves the scheduler. An empty level is left as it is.
    /// Returns what ran, or `None` when the level was empty.
    pub fn execute_process(&mut self, queue_index: usize) -> (r: Option<Execution>)
        requires
            old(self).wf(),
            queue_index < old(self).num_levels,
            old(self).step_fits(queue_index as int),
        ensures
            final(self).wf(),
            final(self).num_levels == old(self).num_levels,
            final(self).time_quanta@ == old(self).time_quanta@,
            final(self).levels() == stepped(
                old(self).levels(),
                queue_index as int,
                old(self).time_quanta@[queue_index as int],
            ),
            old(self).levels()[queue_index as int].len() == 0 ==> {
                &&& r is None
                &&& final(self).current_time == old(self).current_time
            },
            old(self).levels()[queue_index as int].len() > 0 ==> {
                let p = old(self).levels()[queue_index as int].last();
                let q = old(self).time_quanta@[queue_index as int];
                &&& r == Some(
                    Execution {
                        id: p.id,
                        executed_time: run_amount(p, q),
                        remaining_time: after_run(p, q).remaining_time,
                    },
                )
                &&& final(self).current_time == old(self).current_time + run_amount(p, q)
            },
    {
        let ghost old_levels = self.levels();
        let quantum = self.time_quanta[queue_index];
        match self.queues[queue_index].pop() {
            None => {
                assert(self.levels() =~= old_levels);
                None
            },
            Some(process) => {
                let mut p = process;
                let executed: u32 = if p.remaining_time > quantum {
                    quantum
                } else {
                    p.remaining_time
                };
                p.remaining_time = p.remaining_time - executed;
                p.total_executed_time = p.total_executed_time + executed;
                self.current_time = self.current_time + executed;
                let ghost rest = old_levels.update(
                    queue_index as int,
                    old_levels[queue_index as int].drop_last(),
                );
                assert(self.levels() =~= rest);
                if p.remaining_time > 0 && queue_index + 1 < self.num_levels {
                    p.priority = queue_index + 1;
                    self.queues[queue_index + 1].push(p);
                    assert(self.levels() =~= rest.update(
                        queue_index + 1,
                        rest[queue_index + 1].push(p),
                    ));
                }
                assert(self.levels() =~= stepped(old_levels, queue_index as int, quantum));
                Some(
                    Execution {
                        id: p.id,
                        executed_time: executed,
                        remaining_time: p.remaining_time,
                    },
                )
            },
        }
    }

    /// Moves every process of levels `1..num_levels` to level 0 with
    /// priority 0. Levels are emptied in increasing order, each from its most
    /// recently inserted process down, onto the tail of level 0.
    pub fn priority_boost(&mut self)
        requires
            old(self).wf(),
        ensures
            final(self).wf(),
            final(self).num_levels == old(self).num_levels,
            final(self).time_quanta@ == old(self).time_quanta@,
            final(self).current_time == old(self).current_time,
            final(self).levels() == boosted(old(self).levels()),
    {
        let ghost old_levels = self.levels();
        let n = self.num_levels;
        let mut qi: usize = 1;
        while qi < n
            invariant
                self.num_levels == n,
                self.queues@.len() == n,
                self.time_quanta@ == old(self).time_quanta@,
                self.current_time == old(self).current_time,
                old_levels.len() == n,
                1 <= qi <= n,
                self.levels()[0] == gathered(old_levels, qi as int),
                forall|i: int| 1 <= i < qi ==> self.levels()[i] == Seq::<Process>::empty(),
                forall|i: int| qi <= i < n ==> self.levels()[i] == old_levels[i],
            decreases n - qi,
        {
            let ghost src = old_levels[qi as int];
            assert(src.subrange(src.len() as int, src.len() as int) =~= Seq::<Process>::empty());
            assert(src.subrange(0, src.len() as int) =~= src);
            loop
                invariant
                    self.num_levels == n,
                    self.queues@.len() == n,
                    self.time_quanta@ == old(self).time_quanta@,
                    self.current_time == old(self).current_time,
                    old_levels.len() == n,
                    1 <= qi < n,
                    src == old_levels[qi as int],
                    self.levels()[qi as int].len() <= src.len(),
                    self.levels()[qi as int] == src.subrange(0, self.levels()[qi as int].len() as int),
                    self.levels()[0] == gathered(old_levels, qi as int) + promoted(
                        src.subrange(self.levels()[qi as int].len() as int, src.len() as int),
                    ),
                    forall|i: int| 1 <= i < qi ==> self.levels()[i] == Seq::<Process>::empty(),
                    forall|i: int| qi < i < n ==> self.levels()[i] == old_levels[i],
                ensures
                    self.levels()[qi as int].len() == 0,
                decreases self.levels()[qi as int].len(),
            {
                let ghost k = self.levels()[qi as int].len() as int;
                let ghost before = self.levels();
                match self.queues[qi].pop() {
                    None => {
                        assert(self.levels() =~= before);
                        break;
                    },
                    Some(process) => {
                        let mut p = process;
                        p.priority = 0;
                        self.queues[0].push(p);
                        proof {
                            lemma_promoted_step(src, k);
                            assert(src.subrange(0, k - 1) =~= src.subrange(0, k).drop_last());
                            assert(self.levels()[qi as int] =~= src.subrange(0, k - 1));
                            assert(self.levels()[0] =~= gathered(old_levels, qi as int) + promoted(
                                src.subrange(k - 1, src.len() as int),
                            ));
                            assert forall|i: int| 1 <= i < qi implies self.levels()[i]
                                == Seq::<Process>::empty() by {
                                assert(self.levels()[i] == before[i]);
                            }
                            assert forall|i: int| qi < i < n implies self.levels()[i]
                                == old_levels[i] by {
                                assert(self.levels()[i] == before[i]);
                            }
                        }
                    },
                }
            }
            assert(self.levels()[qi as int] =~= Seq::<Process>::empty());
            assert(src.subrange(0, src.len() as int) =~= src);
            assert(self.levels()[0] =~= gathered(old_levels, qi as int + 1));
            qi = qi + 1;
        }
        assert(self.levels() =~= boosted(old_levels));
        proof {
            lemma_boosted_priorities(old_levels);
        }
    }

    /// Advances the clock by `elapsed_time`, then boosts when the clock lands
    /// on a multiple of the boost interval.
    pub fn update_time(&mut self, elapsed_time: u32)
        requires
            old(self).wf(),
            old(self).current_time + elapsed_time <= u32::MAX,
        ensures
            final(self).wf(),
            final(self).num_levels == old(self).num_levels,
            final(self).time_quanta@ == old(self).time_quanta@,
            final(self).current_time == old(self).current_time + elapsed_time,
            final(self).levels() == if boost_due(final(self).current_time as int) {
                boosted(old(self).levels())
            } else {
                old(self).levels()
            },
    {
        self.current_time = self.current_time + elapsed_time;
        if self.current_time % BOOST_INTERVAL == 0 {
            self.priority_boost();
        }
    }
}

} // verus!
