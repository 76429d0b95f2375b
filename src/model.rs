use vstd::prelude::*;

use crate::mlfq::Process;

verus! {

/// A priority boost fires whenever the clock lands on a multiple of this.
pub const BOOST_INTERVAL: u32 = 100;

/// The level a process with the given priority is inserted into: its own
/// priority when that is a valid level, else the last level.
pub open spec fn clamp_level(priority: usize, num_levels: int) -> int {
    if priority < num_levels {
        priority as int
    } else {
        num_levels - 1
    }
}

/// The process with its priority field set to `level`.
pub open spec fn at_level(p: Process, level: int) -> Process {
    Process {
        id: p.id,
        priority: level as usize,
        remaining_time: p.remaining_time,
        total_executed_time: p.total_executed_time,
    }
}

/// Time a process runs for in one step under quantum `q`.
pub open spec fn run_amount(p: Process, q: u32) -> u32 {
    if p.remaining_time > q {
        q
    } else {
        p.remaining_time
    }
}

/// The process after one step under quantum `q` (priority untouched).
pub open spec fn after_run(p: Process, q: u32) -> Process {
    Process {
        id: p.id,
        priority: p.priority,
        remaining_time: (p.remaining_time - run_amount(p, q)) as u32,
        total_executed_time: (p.total_executed_time + run_amount(p, q)) as u32,
    }
}

/// Every process in level `i` has priority `i`.
pub open spec fn priorities_match(levels: Seq<Seq<Process>>) -> bool {
    forall|i: int, j: int|
        0 <= i < levels.len() && 0 <= j < levels[i].len() ==> (#[trigger] levels[i][j]).priority
            == i
}

/// Levels after inserting `p` at the tail of its clamped level.
pub open spec fn inserted(levels: Seq<Seq<Process>>, p: Process) -> Seq<Seq<Process>> {
    let l = clamp_level(p.priority, levels.len() as int);
    levels.update(l, levels[l].push(at_level(p, l)))
}

/// Levels after one execution step on `level` with quantum `q`: the
/// most recently inserted process of that level runs, then is demoted to the
/// tail of the next level if it has work left and a next level exists, and is
/// dropped otherwise.
pub open spec fn stepped(levels: Seq<Seq<Process>>, level: int, q: u32) -> Seq<Seq<Process>> {
    if levels[level].len() == 0 {
        levels
    } else {
        let r = after_run(levels[level].last(), q);
        let rest = levels.update(level, levels[level].drop_last());
        if r.remaining_time > 0 && level + 1 < levels.len() {
            rest.update(level + 1, rest[level + 1].push(at_level(r, level + 1)))
        } else {
            rest
        }
    }
}

/// The processes of one level as a boost hands them to level 0: last
/// inserted first, each with priority 0.
pub open spec fn promoted(q: Seq<Process>) -> Seq<Process>
    decreases q.len(),
{
    if q.len() == 0 {
        Seq::empty()
    } else {
        promoted(q.drop_first()).push(at_level(q[0], 0))
    }
}

/// Level 0 after levels `1..k` have been moved onto it, in increasing order.
pub open spec fn gathered(levels: Seq<Seq<Process>>, k: int) -> Seq<Process>
    decreases k,
{
    if k <= 1 {
        levels[0]
    } else {
        gathered(levels, k - 1) + promoted(levels[k - 1])
    }
}

/// Levels after a priority boost: every process gathered on level 0, the
/// other levels empty.
pub open spec fn boosted(levels: Seq<Seq<Process>>) -> Seq<Seq<Process>> {
    Seq::new(
        levels.len(),
        |i: int|
            if i == 0 {
                gathered(levels, levels.len() as int)
            } else {
                Seq::empty()
            },
    )
}

/// Moving one more process (the one just below `k`) onto level 0 extends
/// the promoted run by that process.
pub proof fn lemma_promoted_step(s: Seq<Process>, k: int)
    requires
        0 < k <= s.len(),
    ensures
        promoted(s.subrange(k - 1, s.len() as int)) == promoted(s.subrange(k, s.len() as int)).push(
            at_level(s[k - 1], 0),
        ),
{
    assert(s.subrange(k - 1, s.len() as int).drop_first() =~= s.subrange(k, s.len() as int));
}

/// Every process of a promoted run has priority 0, and the run holds each
/// process of the level it came from.
pub proof fn lemma_promoted_members(q: Seq<Process>)
    ensures
        promoted(q).len() == q.len(),
        forall|j: int| 0 <= j < q.len() ==> (#[trigger] promoted(q)[j]).priority == 0,
        forall|j: int| 0 <= j < q.len() ==> promoted(q).contains(at_level(#[trigger] q[j], 0)),
    decreases q.len(),
{
    if q.len() > 0 {
        let t = q.drop_first();
        lemma_promoted_members(t);
        assert forall|j: int| 0 <= j < q.len() implies promoted(q).contains(
            at_level(#[trigger] q[j], 0),
        ) by {
            if j == 0 {
                assert(promoted(q)[q.len() - 1] == at_level(q[0], 0));
            } else {
                assert(q[j] == t[j - 1]);
                let w = choose|w: int| 0 <= w < promoted(t).len() && promoted(t)[w] == at_level(t[j - 1], 0);
                assert(promoted(q)[w] == at_level(q[j], 0));
            }
        }
    }
}

/// Level 0 gathered over levels `1..k` holds only priority-0 processes when
/// level 0 did, and holds every process of levels `1..k` with priority 0.
pub proof fn lemma_gathered_members(levels: Seq<Seq<Process>>, k: int)
    requires
        1 <= k <= levels.len(),
        forall|j: int| 0 <= j < levels[0].len() ==> (#[trigger] levels[0][j]).priority == 0,
    ensures
        forall|j: int| 0 <= j < gathered(levels, k).len() ==> (#[trigger] gathered(levels, k)[j]).priority == 0,
        forall|i: int, j: int|
            1 <= i < k && 0 <= j < levels[i].len() ==> gathered(levels, k).contains(
                at_level(#[trigger] levels[i][j], 0),
            ),
    decreases k,
{
    if k > 1 {
        lemma_gathered_members(levels, k - 1);
        let g = gathered(levels, k - 1);
        let p = promoted(levels[k - 1]);
        lemma_promoted_members(levels[k - 1]);
        assert(gathered(levels, k) == g + p);
        assert forall|j: int| 0 <= j < (g + p).len() implies (#[trigger] (g + p)[j]).priority == 0 by {
            if j >= g.len() {
                assert((g + p)[j] == p[j - g.len()]);
            }
        }
        assert forall|i: int, j: int|
            1 <= i < k && 0 <= j < levels[i].len() implies (g + p).contains(
                at_level(#[trigger] levels[i][j], 0),
            ) by {
            if i < k - 1 {
                let w = choose|w: int| 0 <= w < g.len() && g[w] == at_level(levels[i][j], 0);
                assert((g + p)[w] == g[w]);
            } else {
                let w = choose|w: int| 0 <= w < p.len() && p[w] == at_level(levels[i][j], 0);
                assert((g + p)[g.len() + w] == p[w]);
            }
        }
    }
}

/// A boost keeps every process at the level its priority names.
pub proof fn lemma_boosted_priorities(levels: Seq<Seq<Process>>)
    requires
        levels.len() > 0,
        priorities_match(levels),
    ensures
        priorities_match(boosted(levels)),
{
    assert forall|j: int| 0 <= j < levels[0].len() implies (#[trigger] levels[0][j]).priority == 0 by {
        assert(levels[0][j].priority == 0);
    }
    lemma_gathered_members(levels, levels.len() as int);
}

/// Whether advancing the clock to `clock` fires a boost.
pub open spec fn boost_due(clock: int) -> bool {
    clock % (BOOST_INTERVAL as int) == 0
}

} // verus!
