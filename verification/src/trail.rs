//! The trail of the backtracker: the path that is being tried, and what
//! holds of the places that were given up.

use crate::backtrack::{at_pop, lemma_pop_job, lemma_push_job, pending, undo, unwind, Job};
use crate::input::placed;
use crate::program::Op;
use crate::run::{
    accepting, caps_after, closed, diverge, first_branch, is_path, is_run, lead, lemma_path_push,
    preferred, saved, simple, step_at, steps, Slots,
};
use vstd::prelude::*;

verus! {

/// What one try of the backtracker is given: the program, the text, the
/// place where the program starts, and the slots as they were.
pub struct Hunt {
    pub ops: Seq<Op>,
    pub text: Seq<u8>,
    pub from: (int, int),
    pub caps0: Slots,
}

/// `trail` is the way that the search has come from the start: a path on
/// which no place comes twice, which takes the first branch wherever a
/// match parts from it, whose places were all tried, and which turns the
/// slots as they were into `caps`.
#[verifier::opaque]
pub open spec fn on_trail(h: Hunt, seen: Set<(int, int)>, trail: Seq<(int, int)>, caps: Slots) -> bool {
    &&& is_path(h.ops, h.text, trail)
    &&& trail[0] == h.from
    &&& caps_after(h.ops, trail, h.caps0) == caps
    &&& simple(trail)
    &&& lead(h.ops, h.text, h.from, trail)
    &&& forall|i: int| 0 <= i < trail.len() ==> seen.contains(#[trigger] trail[i])
}

/// The trails to the splits whose second branches wait below job `k` are
/// beginnings of `trail`, and shorter.
pub open spec fn chained(jobs: Seq<Job>, trails: Seq<Seq<(int, int)>>, k: int, trail: Seq<(int, int)>) -> bool {
    forall|j: int|
        0 <= j < k && (#[trigger] jobs[j]) is SplitNext ==> 2 <= trails[j].len() <= trail.len()
            && trails[j].drop_last() == trail.take(trails[j].len() - 1)
}

/// What holds of job `k` on the stack.
pub open spec fn waits(
    h: Hunt,
    seen: Set<(int, int)>,
    jobs: Seq<Job>,
    trails: Seq<Seq<(int, int)>>,
    k: int,
    caps: Slots,
) -> bool {
    match jobs[k] {
        Job::Inst { pc, at } => {
            &&& pc < h.ops.len()
            &&& placed(h.text, at)
            &&& trails[k].len() > 0
            &&& trails[k].last() == (pc as int, at@.0)
            &&& on_trail(h, seen, trails[k], at_pop(jobs, k, caps))
            &&& chained(jobs, trails, k, trails[k])
        },
        Job::SplitNext { pc, at } => {
            &&& pc < h.ops.len()
            &&& placed(h.text, at)
            &&& trails[k].len() >= 2
            &&& trails[k].last() == (pc as int, at@.0)
            &&& step_at(h.ops, h.text, trails[k], trails[k].len() - 2)
            &&& h.ops[trails[k][trails[k].len() - 2].0] is Split
            &&& on_trail(h, seen, trails[k].drop_last(), at_pop(jobs, k, caps))
            &&& chained(jobs, trails, k, trails[k].drop_last())
        },
        Job::SaveRestore { slot, old_pos } => slot < caps.len(),
    }
}

/// What holds of the stack: each job is as `waits` says, a job to run the
/// program is on top if there is one, and taking every job off gives the
/// slots as they were.
#[verifier::opaque]
pub open spec fn stacked(
    h: Hunt,
    seen: Set<(int, int)>,
    jobs: Seq<Job>,
    trails: Seq<Seq<(int, int)>>,
    caps: Slots,
) -> bool {
    &&& trails.len() == jobs.len()
    &&& forall|k: int| 0 <= k < jobs.len() ==> waits(h, seen, jobs, trails, k, caps)
    &&& forall|k: int| 0 <= k < jobs.len() - 1 ==> !((#[trigger] jobs[k]) is Inst)
    &&& unwind(jobs, caps) == h.caps0
    &&& caps.len() == h.caps0.len()
}

/// The second branch of the split at `a`, which leads to `b`, waits on the
/// stack.
pub open spec fn owns(jobs: Seq<Job>, trails: Seq<Seq<(int, int)>>, a: (int, int), b: (int, int)) -> bool {
    exists|k: int|
        0 <= k < jobs.len() && (#[trigger] jobs[k]) is SplitNext && trails[k].len() >= 2
            && trails[k][trails[k].len() - 2] == a && trails[k].last() == b
}

/// Every place in `seen` but those in `pending` was tried: it is no `Match`,
/// and each step from it leads into `seen`, unless it is the second branch
/// of a split and waits on the stack.
#[verifier::opaque]
pub open spec fn searched(
    h: Hunt,
    seen: Set<(int, int)>,
    jobs: Seq<Job>,
    trails: Seq<Seq<(int, int)>>,
    pending: Set<(int, int)>,
) -> bool {
    &&& forall|a: (int, int)| seen.contains(a) && !pending.contains(a) ==> !accepting(h.ops, a)
    &&& forall|a: (int, int), b: (int, int)|
        seen.contains(a) && !pending.contains(a) && #[trigger] steps(h.ops, h.text, a, b) ==> seen.contains(
            b,
        ) || owns(jobs, trails, a, b)
}

/// A trail stays a trail when more places were tried.
pub proof fn lemma_trail_more(
    h: Hunt,
    seen: Set<(int, int)>,
    more: Set<(int, int)>,
    trail: Seq<(int, int)>,
    caps: Slots,
)
    requires
        on_trail(h, seen, trail, caps),
        seen.subset_of(more),
    ensures
        on_trail(h, more, trail, caps),
{
    reveal(on_trail);
}

/// The start alone is a trail.
pub proof fn lemma_trail_start(h: Hunt, seen: Set<(int, int)>)
    requires
        seen.contains(h.from),
    ensures
        on_trail(h, seen, seq![h.from], h.caps0),
        chained(Seq::<Job>::empty(), Seq::<Seq<(int, int)>>::empty(), 0, seq![h.from]),
{
    reveal(on_trail);
    let trail = seq![h.from];
    assert(is_path(h.ops, h.text, trail));
    assert(caps_after(h.ops, trail, h.caps0) == h.caps0);
}

/// What a trail is made of.
pub proof fn lemma_trail_open(h: Hunt, seen: Set<(int, int)>, trail: Seq<(int, int)>, caps: Slots)
    requires
        on_trail(h, seen, trail, caps),
    ensures
        trail.len() > 0,
        trail[0] == h.from,
        seen.contains(trail.last()),
        is_path(h.ops, h.text, trail),
        caps_after(h.ops, trail, h.caps0) == caps,
{
    reveal(on_trail);
}

/// A trail and one more step to a place that was not tried make a trail,
/// if that step is the only one from the end of the trail or the first
/// branch of a split.
pub proof fn lemma_trail_step(
    h: Hunt,
    seen: Set<(int, int)>,
    trail: Seq<(int, int)>,
    caps: Slots,
    next: (int, int),
)
    requires
        on_trail(h, seen, trail, caps),
        steps(h.ops, h.text, trail.last(), next),
        !seen.contains(next),
        forall|b: (int, int)|
            steps(h.ops, h.text, trail.last(), b) ==> b == next || first_branch(
                h.ops,
                trail.last(),
                next,
            ),
    ensures
        on_trail(
            h,
            seen.insert(next),
            trail.push(next),
            saved(h.ops, trail.last().0, trail.last().1, caps),
        ),
{
    reveal(on_trail);
    let longer = trail.push(next);
    let n = trail.len() as int;
    lemma_path_push(h.ops, h.text, trail, next, h.caps0);
    assert forall|other: Seq<(int, int)>, d: int|
        is_run(h.ops, h.text, other, h.from) && simple(other) && #[trigger] diverge(
            longer,
            other,
            d,
        ) implies first_branch(h.ops, longer[d - 1], longer[d]) by {
        if d < n {
            assert(trail.take(d) =~= longer.take(d));
            assert(diverge(trail, other, d));
        } else {
            assert(other.take(d)[d - 1] == longer.take(d)[d - 1]);
            assert(step_at(h.ops, h.text, other, d - 1));
        }
    }
}

/// A trail that ends at a `Match` is the preferred match.
pub proof fn lemma_trail_done(h: Hunt, seen: Set<(int, int)>, trail: Seq<(int, int)>, caps: Slots)
    requires
        on_trail(h, seen, trail, caps),
        accepting(h.ops, trail.last()),
    ensures
        preferred(h.ops, h.text, h.from, trail),
        caps_after(h.ops, trail, h.caps0) == caps,
{
    reveal(on_trail);
}

/// A trail of which the trails below are beginnings stays one when it
/// grows.
pub proof fn lemma_chain_longer(
    jobs: Seq<Job>,
    trails: Seq<Seq<(int, int)>>,
    k: int,
    trail: Seq<(int, int)>,
    next: (int, int),
)
    requires
        chained(jobs, trails, k, trail),
    ensures
        chained(jobs, trails, k, trail.push(next)),
{
    let longer = trail.push(next);
    assert forall|j: int| 0 <= j < k && (#[trigger] jobs[j]) is SplitNext implies 2
        <= trails[j].len() <= longer.len() && trails[j].drop_last() == longer.take(
        trails[j].len() - 1,
    ) by {
        assert(trail.take(trails[j].len() - 1) =~= longer.take(trails[j].len() - 1));
    }
}

/// The stack stays as it should be when more places were tried.
pub proof fn lemma_stack_more(
    h: Hunt,
    seen: Set<(int, int)>,
    more: Set<(int, int)>,
    jobs: Seq<Job>,
    trails: Seq<Seq<(int, int)>>,
    caps: Slots,
)
    requires
        stacked(h, seen, jobs, trails, caps),
        seen.subset_of(more),
    ensures
        stacked(h, more, jobs, trails, caps),
{
    reveal(stacked);
    assert forall|k: int| 0 <= k < jobs.len() implies waits(h, more, jobs, trails, k, caps) by {
        assert(waits(h, seen, jobs, trails, k, caps));
        match jobs[k] {
            Job::Inst { pc, at } => {
                lemma_trail_more(h, seen, more, trails[k], at_pop(jobs, k, caps));
            },
            Job::SplitNext { pc, at } => {
                lemma_trail_more(h, seen, more, trails[k].drop_last(), at_pop(jobs, k, caps));
            },
            _ => {},
        }
    }
}

/// The empty stack is as it should be.
pub proof fn lemma_stack_none(h: Hunt, seen: Set<(int, int)>)
    ensures
        stacked(h, seen, Seq::empty(), Seq::empty(), h.caps0),
{
    reveal(stacked);
}

/// What holds of a stack that is as it should be.
pub proof fn lemma_stack_open(
    h: Hunt,
    seen: Set<(int, int)>,
    jobs: Seq<Job>,
    trails: Seq<Seq<(int, int)>>,
    caps: Slots,
)
    requires
        stacked(h, seen, jobs, trails, caps),
    ensures
        trails.len() == jobs.len(),
        caps.len() == h.caps0.len(),
        jobs.len() == 0 ==> caps == h.caps0,
        forall|k: int| 0 <= k < jobs.len() - 1 ==> !((#[trigger] jobs[k]) is Inst),
{
    reveal(stacked);
}

/// The jobs below a new job wait as they did, if the new job undoes what
/// was done to the slots since.
proof fn lemma_waits_below(
    h: Hunt,
    seen: Set<(int, int)>,
    jobs: Seq<Job>,
    trails: Seq<Seq<(int, int)>>,
    job: Job,
    trail: Seq<(int, int)>,
    before: Slots,
    caps: Slots,
)
    requires
        trails.len() == jobs.len(),
        forall|k: int| 0 <= k < jobs.len() ==> waits(h, seen, jobs, trails, k, before),
        undo(job, caps) == before,
        caps.len() == before.len(),
    ensures
        forall|k: int|
            0 <= k < jobs.len() ==> waits(h, seen, jobs.push(job), trails.push(trail), k, caps),
{
    lemma_push_job(jobs, job, before, caps);
    let jobs2 = jobs.push(job);
    let trails2 = trails.push(trail);
    assert forall|k: int| 0 <= k < jobs.len() implies waits(h, seen, jobs2, trails2, k, caps) by {
        assert(waits(h, seen, jobs, trails, k, before));
        assert(jobs2[k] == jobs[k]);
        assert(trails2[k] == trails[k]);
        assert forall|j: int| 0 <= j < k implies jobs2[j] == jobs[j] && trails2[j] == trails[j] by {}
    }
}

/// A job to put back a slot goes on the stack.
pub proof fn lemma_stack_save(
    h: Hunt,
    seen: Set<(int, int)>,
    jobs: Seq<Job>,
    trails: Seq<Seq<(int, int)>>,
    job: Job,
    before: Slots,
    caps: Slots,
)
    requires
        stacked(h, seen, jobs, trails, before),
        forall|k: int| 0 <= k < jobs.len() ==> !((#[trigger] jobs[k]) is Inst),
        job matches Job::SaveRestore { slot, old_pos } && slot < caps.len(),
        undo(job, caps) == before,
        caps.len() == before.len(),
    ensures
        stacked(h, seen, jobs.push(job), trails.push(Seq::empty()), caps),
        forall|trail: Seq<(int, int)>|
            chained(jobs, trails, jobs.len() as int, trail) ==> #[trigger] chained(
                jobs.push(job),
                trails.push(Seq::empty()),
                jobs.len() as int + 1,
                trail,
            ),
{
    reveal(stacked);
    lemma_push_job(jobs, job, before, caps);
    lemma_waits_below(h, seen, jobs, trails, job, Seq::empty(), before, caps);
    let jobs2 = jobs.push(job);
    let trails2 = trails.push(Seq::empty());
    assert forall|j: int| 0 <= j < jobs.len() implies jobs2[j] == jobs[j] && trails2[j] == trails[j] by {}
}

/// The second branch of a split goes on the stack, with the trail to the
/// split and one more step.
pub proof fn lemma_stack_split(
    h: Hunt,
    seen: Set<(int, int)>,
    jobs: Seq<Job>,
    trails: Seq<Seq<(int, int)>>,
    job: Job,
    trail: Seq<(int, int)>,
    caps: Slots,
)
    requires
        stacked(h, seen, jobs, trails, caps),
        forall|k: int| 0 <= k < jobs.len() ==> !((#[trigger] jobs[k]) is Inst),
        on_trail(h, seen, trail, caps),
        chained(jobs, trails, jobs.len() as int, trail),
        job matches Job::SplitNext { pc, at } && pc < h.ops.len() && placed(h.text, at) && steps(
            h.ops,
            h.text,
            trail.last(),
            (pc as int, at@.0),
        ),
        h.ops[trail.last().0] is Split,
    ensures
        stacked(h, seen, jobs.push(job), trails.push(trail.push(job_place(job))), caps),
        forall|next: (int, int)|
            chained(
                jobs.push(job),
                trails.push(trail.push(job_place(job))),
                jobs.len() as int + 1,
                #[trigger] trail.push(next),
            ),
        owns(jobs.push(job), trails.push(trail.push(job_place(job))), trail.last(), job_place(job)),
{
    reveal(stacked);
    lemma_trail_open(h, seen, trail, caps);
    let place = job_place(job);
    let longer = trail.push(place);
    let jobs2 = jobs.push(job);
    let trails2 = trails.push(longer);
    lemma_push_job(jobs, job, caps, caps);
    lemma_waits_below(h, seen, jobs, trails, job, longer, caps, caps);
    assert(longer.drop_last() =~= trail);
    let k = jobs.len() as int;
    assert(jobs2[k] == job && trails2[k] == longer);
    assert(chained(jobs2, trails2, k, trail)) by {
        assert forall|j: int| 0 <= j < k implies jobs2[j] == jobs[j] && trails2[j] == trails[j] by {}
    }
    assert(waits(h, seen, jobs2, trails2, k, caps));
    assert forall|next: (int, int)| chained(jobs2, trails2, k + 1, #[trigger] trail.push(next)) by {
        let grown = trail.push(next);
        assert forall|j: int| 0 <= j < k + 1 && (#[trigger] jobs2[j]) is SplitNext implies 2
            <= trails2[j].len() <= grown.len() && trails2[j].drop_last() == grown.take(
            trails2[j].len() - 1,
        ) by {
            if j < k {
                assert(jobs2[j] == jobs[j] && trails2[j] == trails[j]);
                assert(trail.take(trails[j].len() - 1) =~= grown.take(trails[j].len() - 1));
            } else {
                assert(grown.take(grown.len() - 1) =~= trail);
            }
        }
    }
    assert(owns(jobs2, trails2, trail.last(), place)) by {
        assert(jobs2[k] is SplitNext);
    }
}

/// A job to run the program goes on the stack, with its trail.
pub proof fn lemma_stack_inst(
    h: Hunt,
    seen: Set<(int, int)>,
    jobs: Seq<Job>,
    trails: Seq<Seq<(int, int)>>,
    job: Job,
    trail: Seq<(int, int)>,
    caps: Slots,
)
    requires
        stacked(h, seen, jobs, trails, caps),
        forall|k: int| 0 <= k < jobs.len() ==> !((#[trigger] jobs[k]) is Inst),
        on_trail(h, seen, trail, caps),
        chained(jobs, trails, jobs.len() as int, trail),
        job matches Job::Inst { pc, at } && pc < h.ops.len() && placed(h.text, at) && trail.last()
            == (pc as int, at@.0),
    ensures
        stacked(h, seen, jobs.push(job), trails.push(trail), caps),
{
    reveal(stacked);
    lemma_trail_open(h, seen, trail, caps);
    let jobs2 = jobs.push(job);
    let trails2 = trails.push(trail);
    lemma_push_job(jobs, job, caps, caps);
    lemma_waits_below(h, seen, jobs, trails, job, trail, caps, caps);
    let k = jobs.len() as int;
    assert(jobs2[k] == job && trails2[k] == trail);
    assert(chained(jobs2, trails2, k, trail)) by {
        assert forall|j: int| 0 <= j < k implies jobs2[j] == jobs[j] && trails2[j] == trails[j] by {}
    }
    assert(waits(h, seen, jobs2, trails2, k, caps));
}

/// The place of a job for a place.
pub open spec fn job_place(job: Job) -> (int, int) {
    match job {
        Job::Inst { pc, at } => (pc as int, at@.0),
        Job::SplitNext { pc, at } => (pc as int, at@.0),
        Job::SaveRestore { slot, old_pos } => (0, 0),
    }
}

/// With the top job taken off and undone, the stack is as it should be,
/// and the job was as `waits` says.
pub proof fn lemma_stack_pop(
    h: Hunt,
    seen: Set<(int, int)>,
    jobs: Seq<Job>,
    trails: Seq<Seq<(int, int)>>,
    caps: Slots,
)
    requires
        stacked(h, seen, jobs, trails, caps),
        jobs.len() > 0,
    ensures
        stacked(h, seen, jobs.drop_last(), trails.drop_last(), undo(jobs.last(), caps)),
        forall|k: int| 0 <= k < jobs.len() - 1 ==> !((#[trigger] jobs.drop_last()[k]) is Inst),
        undo(jobs.last(), caps).len() == caps.len(),
        match jobs.last() {
            Job::Inst { pc, at } => {
                &&& pc < h.ops.len()
                &&& placed(h.text, at)
                &&& trails.last().len() > 0
                &&& trails.last().last() == (pc as int, at@.0)
                &&& on_trail(h, seen, trails.last(), caps)
                &&& chained(jobs.drop_last(), trails.drop_last(), jobs.len() - 1, trails.last())
            },
            Job::SplitNext { pc, at } => {
                &&& pc < h.ops.len()
                &&& placed(h.text, at)
                &&& trails.last().len() >= 2
                &&& trails.last().last() == (pc as int, at@.0)
                &&& on_trail(h, seen, trails.last().drop_last(), caps)
                &&& chained(
                    jobs.drop_last(),
                    trails.drop_last(),
                    jobs.len() - 1,
                    trails.last().drop_last(),
                )
            },
            Job::SaveRestore { slot, old_pos } => slot < caps.len(),
        },
{
    reveal(stacked);
    let k = jobs.len() - 1;
    let rest = jobs.drop_last();
    let rest_trails = trails.drop_last();
    let after = undo(jobs.last(), caps);
    lemma_pop_job(jobs, caps);
    assert(waits(h, seen, jobs, trails, k, caps));
    assert forall|j: int| 0 <= j < k implies waits(h, seen, rest, rest_trails, j, after) by {
        assert(waits(h, seen, jobs, trails, j, caps));
        assert forall|i: int| 0 <= i < k implies rest[i] == jobs[i] && rest_trails[i] == trails[i] by {}
    }
    assert forall|j: int| 0 <= j < k implies rest[j] == jobs[j] && rest_trails[j] == trails[j] by {}
}

/// What waits on a stack waits on it with one more job.
pub proof fn lemma_owns_push(
    jobs: Seq<Job>,
    trails: Seq<Seq<(int, int)>>,
    job: Job,
    trail: Seq<(int, int)>,
)
    requires
        trails.len() == jobs.len(),
    ensures
        forall|a: (int, int), b: (int, int)|
            owns(jobs, trails, a, b) ==> owns(jobs.push(job), trails.push(trail), a, b),
        !(job is SplitNext) ==> forall|a: (int, int), b: (int, int)|
            owns(jobs.push(job), trails.push(trail), a, b) ==> owns(jobs, trails, a, b),
{
    let jobs2 = jobs.push(job);
    let trails2 = trails.push(trail);
    assert forall|a: (int, int), b: (int, int)| owns(jobs, trails, a, b) implies owns(
        jobs2,
        trails2,
        a,
        b,
    ) by {
        let k = choose|k: int|
            0 <= k < jobs.len() && (#[trigger] jobs[k]) is SplitNext && trails[k].len() >= 2
                && trails[k][trails[k].len() - 2] == a && trails[k].last() == b;
        assert(jobs2[k] == jobs[k] && trails2[k] == trails[k]);
    }
    if !(job is SplitNext) {
        assert forall|a: (int, int), b: (int, int)| owns(jobs2, trails2, a, b) implies owns(
            jobs,
            trails,
            a,
            b,
        ) by {
            let k = choose|k: int|
                0 <= k < jobs2.len() && (#[trigger] jobs2[k]) is SplitNext && trails2[k].len() >= 2
                    && trails2[k][trails2[k].len() - 2] == a && trails2[k].last() == b;
            assert(jobs2[k] == jobs[k] && trails2[k] == trails[k]);
        }
    }
}

/// What waits on a stack without its top job waited on the stack, and what
/// waited on the stack waits on it without its top job, unless it was the
/// top job.
pub proof fn lemma_owns_pop(jobs: Seq<Job>, trails: Seq<Seq<(int, int)>>)
    requires
        trails.len() == jobs.len(),
        jobs.len() > 0,
    ensures
        forall|a: (int, int), b: (int, int)|
            owns(jobs.drop_last(), trails.drop_last(), a, b) ==> owns(jobs, trails, a, b),
        forall|a: (int, int), b: (int, int)|
            owns(jobs, trails, a, b) ==> owns(jobs.drop_last(), trails.drop_last(), a, b) || (
            jobs.last() is SplitNext && trails.last().len() >= 2 && a
                == trails.last()[trails.last().len() - 2] && b == trails.last().last()),
{
    let rest = jobs.drop_last();
    let rest_trails = trails.drop_last();
    assert forall|a: (int, int), b: (int, int)| owns(rest, rest_trails, a, b) implies owns(
        jobs,
        trails,
        a,
        b,
    ) by {
        let k = choose|k: int|
            0 <= k < rest.len() && (#[trigger] rest[k]) is SplitNext && rest_trails[k].len() >= 2
                && rest_trails[k][rest_trails[k].len() - 2] == a && rest_trails[k].last() == b;
        assert(jobs[k] == rest[k] && trails[k] == rest_trails[k]);
    }
    assert forall|a: (int, int), b: (int, int)| owns(jobs, trails, a, b) implies owns(
        rest,
        rest_trails,
        a,
        b,
    ) || (jobs.last() is SplitNext && trails.last().len() >= 2 && a
        == trails.last()[trails.last().len() - 2] && b == trails.last().last()) by {
        let k = choose|k: int|
            0 <= k < jobs.len() && (#[trigger] jobs[k]) is SplitNext && trails[k].len() >= 2
                && trails[k][trails[k].len() - 2] == a && trails[k].last() == b;
        if k < jobs.len() - 1 {
            assert(jobs[k] == rest[k] && trails[k] == rest_trails[k]);
        }
    }
}

/// Where nothing waits and nothing is left to try, what was tried is a
/// set that no step leaves and that holds no `Match`.
pub proof fn lemma_searched_closed(h: Hunt, seen: Set<(int, int)>)
    requires
        searched(h, seen, Seq::empty(), Seq::empty(), Set::empty()),
    ensures
        closed(h.ops, h.text, seen),
        forall|a: (int, int)| seen.contains(a) ==> !accepting(h.ops, a),
{
    reveal(searched);
}

/// A set that no step leaves and that holds no `Match` was searched.
pub proof fn lemma_closed_searched(h: Hunt, seen: Set<(int, int)>)
    requires
        closed(h.ops, h.text, seen),
        forall|a: (int, int)| seen.contains(a) ==> !accepting(h.ops, a),
    ensures
        searched(h, seen, Seq::empty(), Seq::empty(), Set::empty()),
{
    reveal(searched);
}

/// A place that is no `Match` is tried once each step from it leads to
/// `next` or is a second branch that waits; `next` is then what is left to
/// try, unless it was tried before.
pub proof fn lemma_searched_next(
    h: Hunt,
    seen: Set<(int, int)>,
    jobs0: Seq<Job>,
    trails0: Seq<Seq<(int, int)>>,
    jobs: Seq<Job>,
    trails: Seq<Seq<(int, int)>>,
    cur: (int, int),
    next: (int, int),
)
    requires
        searched(h, seen, jobs0, trails0, set![cur]),
        !accepting(h.ops, cur),
        forall|a: (int, int), b: (int, int)| owns(jobs0, trails0, a, b) ==> owns(jobs, trails, a, b),
        forall|b: (int, int)|
            steps(h.ops, h.text, cur, b) ==> b == next || owns(jobs, trails, cur, b),
    ensures
        seen.contains(next) ==> searched(h, seen, jobs, trails, Set::empty()),
        !seen.contains(next) ==> searched(h, seen.insert(next), jobs, trails, set![next]),
{
    reveal(searched);
}

/// With a job taken off that is no second branch, what was searched is
/// searched.
pub proof fn lemma_searched_pop(
    h: Hunt,
    seen: Set<(int, int)>,
    jobs: Seq<Job>,
    trails: Seq<Seq<(int, int)>>,
    pending: Set<(int, int)>,
)
    requires
        searched(h, seen, jobs, trails, pending),
        trails.len() == jobs.len(),
        jobs.len() > 0,
        !(jobs.last() is SplitNext),
    ensures
        searched(h, seen, jobs.drop_last(), trails.drop_last(), pending),
{
    reveal(searched);
    lemma_owns_pop(jobs, trails);
}

/// With a second branch taken off, its place is what is left to try,
/// unless it was tried before.
pub proof fn lemma_searched_branch(
    h: Hunt,
    seen: Set<(int, int)>,
    jobs: Seq<Job>,
    trails: Seq<Seq<(int, int)>>,
)
    requires
        searched(h, seen, jobs, trails, Set::empty()),
        trails.len() == jobs.len(),
        jobs.len() > 0,
        jobs.last() is SplitNext,
        trails.last().len() >= 2,
    ensures
        seen.contains(trails.last().last()) ==> searched(
            h,
            seen,
            jobs.drop_last(),
            trails.drop_last(),
            Set::empty(),
        ),
        !seen.contains(trails.last().last()) ==> searched(
            h,
            seen.insert(trails.last().last()),
            jobs.drop_last(),
            trails.drop_last(),
            set![trails.last().last()],
        ),
{
    reveal(searched);
    lemma_owns_pop(jobs, trails);
}

/// With a job to run the program put on, its place is what is left to
/// try.
pub proof fn lemma_searched_inst(
    h: Hunt,
    seen: Set<(int, int)>,
    jobs: Seq<Job>,
    trails: Seq<Seq<(int, int)>>,
    job: Job,
    trail: Seq<(int, int)>,
    pending: Set<(int, int)>,
)
    requires
        searched(h, seen, jobs, trails, pending),
        trails.len() == jobs.len(),
        !(job is SplitNext),
    ensures
        searched(h, seen, jobs.push(job), trails.push(trail), pending),
{
    reveal(searched);
    lemma_owns_push(jobs, trails, job, trail);
}

/// The places of a match that parts from the trail to a split by the first
/// branch, while the second branch is on top of the stack, were all tried
/// from where it parts on.
proof fn lemma_dead_zone(
    h: Hunt,
    seen: Set<(int, int)>,
    jobs: Seq<Job>,
    trails: Seq<Seq<(int, int)>>,
    caps: Slots,
    other: Seq<(int, int)>,
    d: int,
    i: int,
)
    requires
        stacked(h, seen, jobs, trails, caps),
        searched(h, seen, jobs, trails, Set::empty()),
        jobs.len() > 0,
        jobs.last() is SplitNext,
        is_run(h.ops, h.text, other, h.from),
        simple(other),
        diverge(trails.last(), other, d),
        d == trails.last().len() - 1,
        d <= i < other.len(),
    ensures
        seen.contains(other[i]),
    decreases i,
{
    reveal(stacked);
    reveal(searched);
    reveal(on_trail);
    let k = jobs.len() - 1;
    let whole = trails.last();
    let trail = whole.drop_last();
    assert(waits(h, seen, jobs, trails, k, caps));
    assert forall|u: int| 0 <= u < d implies other[u] == trail[u] by {
        assert(whole.take(d)[u] == other.take(d)[u]);
    }
    let a = other[i - 1];
    if i > d {
        lemma_dead_zone(h, seen, jobs, trails, caps, other, d, i - 1);
    }
    assert(seen.contains(a));
    assert(step_at(h.ops, h.text, other, i - 1));
    if !seen.contains(other[i]) {
        assert(owns(jobs, trails, a, other[i]));
        let j = choose|j: int|
            0 <= j < jobs.len() && (#[trigger] jobs[j]) is SplitNext && trails[j].len() >= 2
                && trails[j][trails[j].len() - 2] == a && trails[j].last() == other[i];
        if j == k {
            assert(i > d);
            assert(other[d - 1] == a);
        } else {
            assert(waits(h, seen, jobs, trails, j, caps));
            let at = trails[j].len() - 2;
            assert(trails[j].drop_last()[at] == trail.take(trails[j].len() - 1)[at]);
            assert(other[at] == a);
        }
    }
}

/// With the second branch of a split on top of the stack, the trail to the
/// split with that branch takes the first branch wherever a match parts
/// from it: no match takes the first branch of the split.
pub proof fn lemma_second_lead(
    h: Hunt,
    seen: Set<(int, int)>,
    jobs: Seq<Job>,
    trails: Seq<Seq<(int, int)>>,
    caps: Slots,
)
    requires
        stacked(h, seen, jobs, trails, caps),
        searched(h, seen, jobs, trails, Set::empty()),
        jobs.len() > 0,
        jobs.last() is SplitNext,
    ensures
        trails.len() == jobs.len(),
        trails.last().len() >= 2,
        trails.last().last() == job_place(jobs.last()),
        lead(h.ops, h.text, h.from, trails.last()),
        is_path(h.ops, h.text, trails.last()),
        trails.last()[0] == h.from,
        caps_after(h.ops, trails.last(), h.caps0) == caps,
        simple(trails.last().drop_last()),
        forall|i: int| 0 <= i < trails.last().len() - 1 ==> seen.contains(#[trigger] trails.last()[i]),
{
    lemma_stack_open(h, seen, jobs, trails, caps);
    let k = jobs.len() - 1;
    let whole = trails.last();
    let trail = whole.drop_last();
    assert(waits(h, seen, jobs, trails, k, caps) && at_pop(jobs, k, caps) == caps) by {
        reveal(stacked);
        lemma_pop_job(jobs, caps);
    }
    assert(whole == trails[k]);
    assert(whole.len() >= 2);
    assert(step_at(h.ops, h.text, whole, whole.len() - 2));
    assert(whole =~= trail.push(whole.last()));
    assert(is_path(h.ops, h.text, trail) && trail[0] == h.from && caps_after(h.ops, trail, h.caps0)
        == caps && simple(trail) && lead(h.ops, h.text, h.from, trail) && forall|i: int|
        0 <= i < trail.len() ==> seen.contains(#[trigger] trail[i])) by {
        reveal(on_trail);
    }
    lemma_path_push(h.ops, h.text, trail, whole.last(), h.caps0);
    assert forall|i: int| 0 <= i < whole.len() - 1 implies seen.contains(#[trigger] whole[i]) by {
        assert(whole[i] == trail[i]);
    }
    assert forall|other: Seq<(int, int)>, d: int|
        is_run(h.ops, h.text, other, h.from) && simple(other) && #[trigger] diverge(
            whole,
            other,
            d,
        ) implies first_branch(h.ops, whole[d - 1], whole[d]) by {
        if d < trail.len() {
            assert(trail.take(d) =~= whole.take(d));
            assert(diverge(trail, other, d));
        } else {
            lemma_dead_zone(h, seen, jobs, trails, caps, other, d, other.len() - 1);
            assert(!accepting(h.ops, other.last())) by {
                reveal(searched);
            }
        }
    }
}

/// A place that was not tried is what is left to try, once it is put
/// among the places tried.
pub proof fn lemma_searched_add(
    h: Hunt,
    seen: Set<(int, int)>,
    jobs: Seq<Job>,
    trails: Seq<Seq<(int, int)>>,
    place: (int, int),
)
    requires
        searched(h, seen, jobs, trails, Set::empty()),
    ensures
        searched(h, seen.insert(place), jobs, trails, set![place]),
        seen.contains(place) ==> searched(h, seen.insert(place), jobs, trails, Set::empty()),
{
    reveal(searched);
    if seen.contains(place) {
        assert(seen.insert(place) =~= seen);
    }
}

/// With the second branch of a split on top of the stack, to a place that
/// was not tried: the trail to the split with that branch is a trail once
/// the place is put among the places tried.
pub proof fn lemma_trail_branch(
    h: Hunt,
    seen: Set<(int, int)>,
    jobs: Seq<Job>,
    trails: Seq<Seq<(int, int)>>,
    caps: Slots,
)
    requires
        stacked(h, seen, jobs, trails, caps),
        searched(h, seen, jobs, trails, Set::empty()),
        jobs.len() > 0,
        jobs.last() is SplitNext,
        !seen.contains(trails.last().last()),
    ensures
        on_trail(h, seen.insert(trails.last().last()), trails.last(), caps),
        chained(jobs.drop_last(), trails.drop_last(), jobs.len() - 1, trails.last()),
{
    lemma_second_lead(h, seen, jobs, trails, caps);
    lemma_stack_open(h, seen, jobs, trails, caps);
    lemma_stack_pop(h, seen, jobs, trails, caps);
    let whole = trails.last();
    assert(whole.len() >= 2);
    assert(whole =~= whole.drop_last().push(whole.last()));
    lemma_chain_longer(
        jobs.drop_last(),
        trails.drop_last(),
        jobs.len() - 1,
        whole.drop_last(),
        whole.last(),
    );
    reveal(on_trail);
    assert forall|i: int, j: int| 0 <= i < j < whole.len() implies whole[i] != whole[j] by {
        if j < whole.len() - 1 {
            assert(whole.drop_last()[i] == whole[i] && whole.drop_last()[j] == whole[j]);
        }
    }
}

} // verus!
