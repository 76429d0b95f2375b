use vstd::prelude::*;

use crate::mlfq::Process;
use crate::model::{
    after_run, at_level, boosted, clamp_level, inserted, lemma_boosted_priorities, lemma_gathered_members,
    priorities_match, run_amount, stepped,
};

verus! {

/// Insertion puts a process whose priority names a level at the tail of that
/// level, and any other process at the tail of the last level; no other level
/// changes.
pub proof fn law_insert_clamps(levels: Seq<Seq<Process>>, p: Process)
    requires
        levels.len() > 0,
    ensures
        p.priority < levels.len() ==> inserted(levels, p)[p.priority as int] == levels[p.priority as int].push(p),
        p.priority >= levels.len() ==> inserted(levels, p)[levels.len() - 1] == levels[levels.len() - 1].push(
            at_level(p, levels.len() - 1),
        ),
        inserted(levels, p).len() == levels.len(),
        forall|i: int|
            0 <= i < levels.len() && i != clamp_level(p.priority, levels.len() as int)
                ==> #[trigger] inserted(levels, p)[i] == levels[i],
{
    assert(at_level(p, p.priority as int) == p);
}

/// A process whose remaining work fits in the quantum finishes in one step:
/// it runs for all of its remaining time and leaves every level.
pub proof fn law_step_completes(levels: Seq<Seq<Process>>, level: int, q: u32)
    requires
        0 <= level < levels.len(),
        levels[level].len() > 0,
        levels[level].last().remaining_time <= q,
        levels[level].last().total_executed_time + levels[level].last().remaining_time <= u32::MAX,
    ensures
        ({
            let p = levels[level].last();
            &&& run_amount(p, q) == p.remaining_time
            &&& after_run(p, q).remaining_time == 0
            &&& after_run(p, q).total_executed_time == p.total_executed_time + p.remaining_time
            &&& stepped(levels, level, q) == levels.update(level, levels[level].drop_last())
        }),
{
}

/// A process with more work than the quantum runs for exactly the quantum
/// and, unless it is on the last level, moves to the tail of the next level
/// with its priority one higher.
pub proof fn law_step_demotes(levels: Seq<Seq<Process>>, level: int, q: u32)
    requires
        0 <= level < levels.len(),
        levels.len() <= usize::MAX,
        priorities_match(levels),
        levels[level].len() > 0,
        levels[level].last().remaining_time > q,
        levels[level].last().total_executed_time + q <= u32::MAX,
    ensures
        ({
            let p = levels[level].last();
            let r = after_run(p, q);
            let rest = levels.update(level, levels[level].drop_last());
            &&& run_amount(p, q) == q
            &&& r.remaining_time == p.remaining_time - q
            &&& r.total_executed_time == p.total_executed_time + q
            &&& level + 1 < levels.len() ==> {
                &&& stepped(levels, level, q) == rest.update(
                    level + 1,
                    rest[level + 1].push(at_level(r, level + 1)),
                )
                &&& stepped(levels, level, q)[level + 1].last().priority == p.priority + 1
            }
        }),
{
    let p = levels[level].last();
    assert(p == levels[level][levels[level].len() - 1]);
    assert(p.priority == level);
}

/// A process on the last level that still has work after its step leaves
/// the scheduler: it is put back on no level.
pub proof fn law_lowest_level_drops(levels: Seq<Seq<Process>>, q: u32)
    requires
        levels.len() > 0,
        levels[levels.len() - 1].len() > 0,
        after_run(levels[levels.len() - 1].last(), q).remaining_time > 0,
    ensures
        ({
            let last = levels.len() - 1;
            stepped(levels, last, q) == levels.update(last, levels[last].drop_last())
        }),
{
}

/// After a boost every level but level 0 is empty, every process on level 0
/// has priority 0, and each process of levels `1..` is on level 0 with
/// priority 0.
pub proof fn law_boost_gathers(levels: Seq<Seq<Process>>)
    requires
        levels.len() > 0,
        priorities_match(levels),
    ensures
        boosted(levels).len() == levels.len(),
        forall|i: int| 1 <= i < levels.len() ==> (#[trigger] boosted(levels)[i]).len() == 0,
        forall|j: int|
            0 <= j < boosted(levels)[0].len() ==> (#[trigger] boosted(levels)[0][j]).priority == 0,
        forall|i: int, j: int|
            1 <= i < levels.len() && 0 <= j < levels[i].len() ==> boosted(levels)[0].contains(
                at_level(#[trigger] levels[i][j], 0),
            ),
{
    lemma_boosted_priorities(levels);
    assert forall|j: int| 0 <= j < levels[0].len() implies (#[trigger] levels[0][j]).priority == 0 by {
        assert(levels[0][j].priority == 0);
    }
    lemma_gathered_members(levels, levels.len() as int);
    assert forall|j: int| 0 <= j < boosted(levels)[0].len() implies (#[trigger] boosted(
        levels,
    )[0][j]).priority == 0 by {
        assert(boosted(levels)[0][j].priority == 0);
    }
}

} // verus!
