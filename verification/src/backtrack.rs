//! The backtracking machine: a depth-first search through the places of a
//! program on a text that tries the first branch of every split first and
//! goes to no place twice.

use crate::input::{
    lemma_boundary_range, lemma_next_boundary, next_pos, placed, CharInput, Input, InputAt,
};
use crate::laws::{
    lemma_anchored_from, lemma_found, lemma_none_left, lemma_one_more, lemma_skipped, none_before,
};
use crate::pool::Factory;
use crate::program::{inst_ok, Inst, InstIdx, Op, Program};
use crate::run::{
    accepting, caps_after, chosen, closed, first_branch, lemma_closed_rejects, matches_at,
    preferred, reports, saved, steps, Slots,
};
use crate::trail::{
    chained, job_place, lemma_chain_longer, lemma_closed_searched, lemma_owns_push,
    lemma_searched_add, lemma_searched_branch, lemma_searched_closed, lemma_searched_inst,
    lemma_searched_next, lemma_searched_pop, lemma_second_lead, lemma_stack_inst, lemma_stack_more,
    lemma_stack_none, lemma_stack_open, lemma_stack_pop, lemma_stack_save, lemma_stack_split,
    lemma_trail_branch, lemma_trail_done, lemma_trail_open, lemma_trail_start, lemma_trail_step,
    on_trail, owns, searched, stacked, Hunt,
};
use std::collections::HashSet;
use vstd::prelude::*;
use vstd::string::*;

verus! {

/// Work that the backtracker has put off.
#[derive(Clone, Copy, Debug)]
pub enum Job {
    /// Run the program from an instruction at a place.
    Inst { pc: InstIdx, at: InputAt },
    /// Put back what a slot held before a save.
    SaveRestore { slot: usize, old_pos: Option<usize> },
    /// Try the second branch of a split.
    SplitNext { pc: InstIdx, at: InputAt },
}

/// The scratch space of the backtracker: the work put off, and the pairs of
/// instruction and offset that were tried.
#[derive(Debug)]
pub struct BackMachine {
    jobs: Vec<Job>,
    visited: HashSet<u128>,
}

/// Makes the scratch space for a program of a given size.
#[derive(Clone, Copy, Debug)]
pub struct MachineMaker {
    insts_len: usize,
}

impl BackMachine {
    /// The work put off, the latest last.
    pub closed spec fn jobs(&self) -> Seq<Job> {
        self.jobs@
    }

    /// The keys of the pairs that were tried.
    pub closed spec fn visited(&self) -> Set<u128> {
        self.visited@
    }

    /// The number of pairs of instruction and offset that were tried.
    pub fn tried(&self) -> (r: usize)
        ensures
            r == self.visited().len(),
    {
        self.visited.len()
    }

    /// A machine with no job and no pair tried, with room for `insts_len`
    /// jobs.
    pub fn new(insts_len: usize) -> (r: BackMachine)
        ensures
            r.jobs().len() == 0,
            r.visited() == Set::<u128>::empty(),
    {
        BackMachine { jobs: Vec::with_capacity(insts_len), visited: HashSet::new() }
    }

    /// Forgets the work put off and the pairs tried.
    pub fn clear(&mut self)
        ensures
            final(self).jobs().len() == 0,
            final(self).visited() == Set::<u128>::empty(),
    {
        self.jobs.clear();
        self.visited.clear();
    }
}

impl MachineMaker {
    /// The number of instructions that the scratch space is made for.
    pub closed spec fn insts_len(self) -> nat {
        self.insts_len as nat
    }

    /// A maker of machines for a program of `insts_len` instructions.
    pub fn new(insts_len: usize) -> (r: MachineMaker)
        ensures
            r.insts_len() == insts_len,
    {
        MachineMaker { insts_len }
    }
}

impl Factory<BackMachine> for MachineMaker {
    open spec fn makes(&self, v: BackMachine) -> bool {
        true
    }

    fn create(&self) -> (v: BackMachine)
        ensures
            v.jobs().len() == 0,
            v.visited() == Set::<u128>::empty(),
    {
        BackMachine::new(self.insts_len)
    }
}

/// The number that stands for the pair of instruction `pc` and offset
/// `pos` in a text of `len` bytes.
pub open spec fn pair_key(pc: int, pos: int, len: int) -> int {
    pc * (len + 1) + pos
}

/// The numbers of the pairs of an instruction below `n` and an offset up
/// to `len` are below `n * (len + 1)`.
pub proof fn lemma_key_range(pc: int, pos: int, n: int, len: int)
    requires
        0 <= pc < n,
        0 <= pos <= len,
    ensures
        0 <= pair_key(pc, pos, len) < n * (len + 1),
{
    assert(0 <= pc * (len + 1)) by (nonlinear_arith)
        requires
            0 <= pc,
            0 <= len,
    ;
    assert((pc + 1) * (len + 1) <= n * (len + 1)) by (nonlinear_arith)
        requires
            pc + 1 <= n,
            0 <= len,
    ;
    assert((pc + 1) * (len + 1) == pc * (len + 1) + len + 1) by (nonlinear_arith);
}

/// Two pairs with one number are one pair.
pub proof fn lemma_key_one(a: (int, int), b: (int, int), len: int)
    requires
        0 <= a.0,
        0 <= b.0,
        0 <= a.1 <= len,
        0 <= b.1 <= len,
        pair_key(a.0, a.1, len) == pair_key(b.0, b.1, len),
    ensures
        a == b,
{
    if a.0 < b.0 {
        assert((a.0 + 1) * (len + 1) <= b.0 * (len + 1)) by (nonlinear_arith)
            requires
                a.0 + 1 <= b.0,
                0 <= len,
        ;
        assert((a.0 + 1) * (len + 1) == a.0 * (len + 1) + len + 1) by (nonlinear_arith);
    }
    if b.0 < a.0 {
        assert((b.0 + 1) * (len + 1) <= a.0 * (len + 1)) by (nonlinear_arith)
            requires
                b.0 + 1 <= a.0,
                0 <= len,
        ;
        assert((b.0 + 1) * (len + 1) == b.0 * (len + 1) + len + 1) by (nonlinear_arith);
    }
}

/// The pairs whose numbers are in `visited`.
pub open spec fn seen(visited: Set<u128>, n: int, len: int) -> Set<(int, int)> {
    Set::new(
        |a: (int, int)|
            0 <= a.0 < n && 0 <= a.1 <= len && visited.contains(pair_key(a.0, a.1, len) as u128),
    )
}

/// `visited` holds numbers of pairs only, and finitely many.
pub open spec fn keys_ok(visited: Set<u128>, n: int, len: int) -> bool {
    &&& visited.finite()
    &&& n * (len + 1) <= u128::MAX
    &&& forall|k: u128| visited.contains(k) ==> k < n * (len + 1)
}

/// No more numbers are in `visited` than there are pairs.
pub proof fn lemma_keys_bound(visited: Set<u128>, n: int, len: int)
    requires
        keys_ok(visited, n, len),
        0 <= n,
        0 <= len,
    ensures
        visited.len() <= n * (len + 1),
{
    assert(0 <= n * (len + 1)) by (nonlinear_arith)
        requires
            0 <= n,
            0 <= len,
    ;
    let cap = (n * (len + 1)) as u128;
    let all = Set::<u128>::range(0, cap);
    vstd::set_lib::range_set_properties::<u128>(0, cap);
    assert(visited.subset_of(all));
    vstd::set_lib::lemma_len_subset(visited, all);
}

/// What a job that is taken off the stack does to the slots.
pub open spec fn undo(job: Job, caps: Slots) -> Slots {
    match job {
        Job::SaveRestore { slot, old_pos } => if slot < caps.len() {
            caps.update(slot as int, old_pos)
        } else {
            caps
        },
        _ => caps,
    }
}

/// The slots after every job of `jobs` was taken off, the last first.
pub open spec fn unwind(jobs: Seq<Job>, caps: Slots) -> Slots
    decreases jobs.len(),
{
    if jobs.len() == 0 {
        caps
    } else {
        unwind(jobs.drop_last(), undo(jobs.last(), caps))
    }
}

/// The slots at the time when job `k` is taken off.
pub open spec fn at_pop(jobs: Seq<Job>, k: int, caps: Slots) -> Slots {
    unwind(jobs.subrange(k + 1, jobs.len() as int), caps)
}

/// The place of a job to run the program.
pub open spec fn inst_place(job: Job) -> Option<(int, int)> {
    match job {
        Job::Inst { pc, at } => Some((pc as int, at@.0)),
        _ => None,
    }
}

/// The place of the job on top of the stack, where that is a job to run
/// the program.
pub open spec fn pending(jobs: Seq<Job>) -> Set<(int, int)> {
    Set::new(|b: (int, int)| jobs.len() > 0 && inst_place(jobs.last()) == Some(b))
}

/// A job put on the stack that undoes the change from `before` to `caps`
/// leaves the slots of every job below it as they were.
pub proof fn lemma_push_job(jobs: Seq<Job>, job: Job, before: Slots, caps: Slots)
    requires
        undo(job, caps) == before,
    ensures
        unwind(jobs.push(job), caps) == unwind(jobs, before),
        forall|k: int| 0 <= k < jobs.len() ==> at_pop(jobs.push(job), k, caps) == at_pop(jobs, k, before),
        at_pop(jobs.push(job), jobs.len() as int, caps) == caps,
{
    let longer = jobs.push(job);
    assert(longer.drop_last() =~= jobs);
    assert forall|k: int| 0 <= k < jobs.len() implies at_pop(longer, k, caps) == at_pop(
        jobs,
        k,
        before,
    ) by {
        let upper = longer.subrange(k + 1, longer.len() as int);
        assert(upper.drop_last() =~= jobs.subrange(k + 1, jobs.len() as int));
    }
    assert(longer.subrange(jobs.len() as int + 1, longer.len() as int) =~= Seq::<Job>::empty());
}

/// Taking the top job off and undoing it leaves the slots of every job
/// below it as they were.
pub proof fn lemma_pop_job(jobs: Seq<Job>, caps: Slots)
    requires
        jobs.len() > 0,
    ensures
        unwind(jobs.drop_last(), undo(jobs.last(), caps)) == unwind(jobs, caps),
        forall|k: int|
            0 <= k < jobs.len() - 1 ==> at_pop(jobs.drop_last(), k, undo(jobs.last(), caps)) == at_pop(
                jobs,
                k,
                caps,
            ),
        at_pop(jobs, jobs.len() - 1, caps) == caps,
{
    let shorter = jobs.drop_last();
    assert forall|k: int| 0 <= k < jobs.len() - 1 implies at_pop(
        shorter,
        k,
        undo(jobs.last(), caps),
    ) == at_pop(jobs, k, caps) by {
        let upper = jobs.subrange(k + 1, jobs.len() as int);
        assert(upper.drop_last() =~= shorter.subrange(k + 1, shorter.len() as int));
        assert(upper.last() == jobs.last());
    }
    assert(jobs.subrange(jobs.len() as int, jobs.len() as int) =~= Seq::<Job>::empty());
}

/// A run of the backtracker on one text with one program.
pub struct Backtrack<'r, 't> {
    prog: &'r Program,
    input: CharInput<'t>,
}

/// What one instruction does at a place.
enum Move {
    /// It is `Match`.
    Matched,
    /// It fails: no step leads on.
    Dead,
    /// It leads on to an instruction at a place.
    To(InstIdx, InputAt),
}

impl<'r, 't> Backtrack<'r, 't> {
    /// The instructions of the program.
    pub closed spec fn ops(&self) -> Seq<Op> {
        self.prog.ops()
    }

    /// The bytes of the text.
    pub closed spec fn text(&self) -> Seq<u8> {
        self.input.text()
    }

    /// The program is well formed, and `h` is what this try is given.
    #[verifier::opaque]
    pub closed spec fn ready(&self, h: Hunt) -> bool {
        &&& self.prog.wf()
        &&& h.ops == self.prog.ops()
        &&& h.text == self.input.text()
    }

    /// A run with a well-formed program is ready.
    proof fn lemma_ready(&self, h: Hunt)
        requires
            self.prog.wf(),
            h.ops == self.ops(),
            h.text == self.text(),
        ensures
            self.ready(h),
    {
        reveal(Backtrack::ready);
    }

    /// The numbers in the machine's set are numbers of pairs.
    pub closed spec fn keyed(&self, m: &BackMachine) -> bool {
        keys_ok(m.visited(), self.ops().len() as int, self.text().len() as int)
    }

    /// The pairs that the machine has tried.
    pub closed spec fn tried(&self, m: &BackMachine) -> Set<(int, int)> {
        seen(m.visited(), self.ops().len() as int, self.text().len() as int)
    }

    /// Puts the pair of `pc` and the offset of `at` into the set of tried
    /// pairs, and says whether it was there.
    fn has_visited(&self, m: &mut BackMachine, pc: InstIdx, at: InputAt) -> (r: bool)
        requires
            pc < self.ops().len(),
            placed(self.text(), at),
            self.keyed(old(m)),
        ensures
            final(m).jobs() == old(m).jobs(),
            self.keyed(final(m)),
            r == self.tried(old(m)).contains((pc as int, at@.0)),
            self.tried(final(m)) == self.tried(old(m)).insert((pc as int, at@.0)),
            final(m).visited().len() == old(m).visited().len() + (if r {
                0int
            } else {
                1int
            }),
    {
        broadcast use vstd::std_specs::hash::group_hash_axioms;

        let len = self.input.len();
        let ghost n = self.ops().len() as int;
        proof {
            lemma_boundary_range(self.text(), at@.0);
            lemma_key_range(pc as int, at@.0, n, len as int);
        }
        let key: u128 = (pc as u128) * (len as u128 + 1) + (at.pos() as u128);
        assert(key == pair_key(pc as int, at@.0, len as int));
        let ghost before = m.visited@;
        let r = m.visited.contains(&key);
        if !r {
            m.visited.insert(key);
        }
        proof {
            let after = m.visited@;
            assert(after =~= before.insert(key));
            assert(seen(after, n, len as int) =~= seen(before, n, len as int).insert(
                (pc as int, at@.0),
            )) by {
                assert forall|a: (int, int)| 0 <= a.0 < n && 0 <= a.1 <= len implies (after.contains(
                    pair_key(a.0, a.1, len as int) as u128,
                ) <==> before.contains(pair_key(a.0, a.1, len as int) as u128) || a == (
                    pc as int,
                    at@.0,
                )) by {
                    lemma_key_range(a.0, a.1, n, len as int);
                    if pair_key(a.0, a.1, len as int) == pair_key(pc as int, at@.0, len as int) {
                        lemma_key_one(a, (pc as int, at@.0), len as int);
                    }
                }
            }
        }
        r
    }

    /// Puts off the start of the program at `pc` and `at`, if that pair
    /// was not tried before. `trail` is the way to that pair.
    fn push(
        &self,
        m: &mut BackMachine,
        pc: InstIdx,
        at: InputAt,
        Ghost(h): Ghost<Hunt>,
        Ghost(caps): Ghost<Slots>,
        Ghost(trails): Ghost<Seq<Seq<(int, int)>>>,
        Ghost(trail): Ghost<Seq<(int, int)>>,
    ) -> (r: Ghost<Seq<Seq<(int, int)>>>)
        requires
            self.ready(h),
            pc < h.ops.len(),
            placed(h.text, at),
            self.keyed(old(m)),
            stacked(h, self.tried(old(m)), old(m).jobs(), trails, caps),
            forall|k: int| 0 <= k < old(m).jobs().len() ==> !((#[trigger] old(m).jobs()[k]) is Inst),
            trail.len() > 0 && trail.last() == (pc as int, at@.0),
            self.tried(old(m)).contains((pc as int, at@.0)) ==> searched(
                h,
                self.tried(old(m)),
                old(m).jobs(),
                trails,
                Set::empty(),
            ),
            !self.tried(old(m)).contains((pc as int, at@.0)) ==> {
                &&& searched(
                    h,
                    self.tried(old(m)).insert((pc as int, at@.0)),
                    old(m).jobs(),
                    trails,
                    set![(pc as int, at@.0)],
                )
                &&& on_trail(h, self.tried(old(m)).insert((pc as int, at@.0)), trail, caps)
                &&& chained(old(m).jobs(), trails, old(m).jobs().len() as int, trail)
            },
        ensures
            self.keyed(final(m)),
            stacked(h, self.tried(final(m)), final(m).jobs(), r@, caps),
            searched(h, self.tried(final(m)), final(m).jobs(), r@, pending(final(m).jobs())),
            self.tried(final(m)) == self.tried(old(m)).insert((pc as int, at@.0)),
            forall|b: (int, int)| pending(final(m).jobs()).contains(b) ==> self.tried(final(m)).contains(b),
            final(m).jobs() == old(m).jobs() || (final(m).jobs() == old(m).jobs().push(
                Job::Inst { pc, at },
            ) && final(m).visited().len() == old(m).visited().len() + 1),
            final(m).jobs() == old(m).jobs() ==> final(m).visited().len() == old(m).visited().len(),
    {
        let ghost jobs = m.jobs();
        let ghost tried = self.tried(m);
        let ghost place = (pc as int, at@.0);
        proof {
            reveal(Backtrack::ready);
            lemma_stack_open(h, tried, jobs, trails, caps);
        }
        if !self.has_visited(m, pc, at) {
            let job = Job::Inst { pc, at };
            m.jobs.push(job);
            proof {
                lemma_stack_more(h, tried, tried.insert(place), jobs, trails, caps);
                lemma_stack_inst(h, tried.insert(place), jobs, trails, job, trail, caps);
                lemma_searched_inst(h, tried.insert(place), jobs, trails, job, trail, set![place]);
                assert(pending(jobs.push(job)) =~= set![place]);
            }
            Ghost(trails.push(trail))
        } else {
            proof {
                assert(tried.insert(place) =~= tried);
                assert(pending(jobs) =~= Set::<(int, int)>::empty());
            }
            Ghost(trails)
        }
    }

    /// Puts the job on the stack that gives slot `slot` back what it held.
    fn push_save_restore(&self, m: &mut BackMachine, slot: usize, old_pos: Option<usize>)
        ensures
            final(m).jobs() == old(m).jobs().push(Job::SaveRestore { slot, old_pos }),
            final(m).visited() == old(m).visited(),
    {
        m.jobs.push(Job::SaveRestore { slot, old_pos });
    }

    /// Puts the job on the stack that tries the second branch of the split
    /// at `pc`.
    fn push_split_next(&self, m: &mut BackMachine, pc: InstIdx, at: InputAt)
        ensures
            final(m).jobs() == old(m).jobs().push(Job::SplitNext { pc, at }),
            final(m).visited() == old(m).visited(),
    {
        m.jobs.push(Job::SplitNext { pc, at });
    }

    /// Runs the instruction `pc` at `at`: saves to a slot, or puts the
    /// second branch of a split off, and says where the program goes on.
    fn advance(
        &self,
        m: &mut BackMachine,
        caps: &mut [Option<usize>],
        pc: InstIdx,
        at: InputAt,
        Ghost(h): Ghost<Hunt>,
        Ghost(trails): Ghost<Seq<Seq<(int, int)>>>,
        Ghost(trail): Ghost<Seq<(int, int)>>,
    ) -> (r: (Move, Ghost<Seq<Seq<(int, int)>>>))
        requires
            self.ready(h),
            pc < h.ops.len(),
            placed(h.text, at),
            stacked(h, self.tried(old(m)), old(m).jobs(), trails, old(caps)@),
            forall|k: int| 0 <= k < old(m).jobs().len() ==> !((#[trigger] old(m).jobs()[k]) is Inst),
            on_trail(h, self.tried(old(m)), trail, old(caps)@),
            trail.len() > 0 && trail.last() == (pc as int, at@.0),
            chained(old(m).jobs(), trails, old(m).jobs().len() as int, trail),
        ensures
            final(caps)@.len() == old(caps)@.len(),
            final(m).visited() == old(m).visited(),
            old(m).jobs().len() <= final(m).jobs().len() <= old(m).jobs().len() + 1,
            stacked(h, self.tried(old(m)), final(m).jobs(), r.1@, final(caps)@),
            forall|k: int| 0 <= k < final(m).jobs().len() ==> !((#[trigger] final(m).jobs()[k]) is Inst),
            forall|a: (int, int), b: (int, int)|
                owns(old(m).jobs(), trails, a, b) ==> owns(final(m).jobs(), r.1@, a, b),
            match r.0 {
                Move::Matched => accepting(h.ops, (pc as int, at@.0)) && final(caps)@ == old(caps)@,
                Move::Dead => !accepting(h.ops, (pc as int, at@.0)) && forall|b: (int, int)|
                    !steps(h.ops, h.text, (pc as int, at@.0), b),
                Move::To(pc2, at2) => {
                    &&& !accepting(h.ops, (pc as int, at@.0))
                    &&& pc2 < h.ops.len()
                    &&& placed(h.text, at2)
                    &&& steps(h.ops, h.text, (pc as int, at@.0), (pc2 as int, at2@.0))
                    &&& final(caps)@ == saved(h.ops, pc as int, at@.0, old(caps)@)
                    &&& chained(
                        final(m).jobs(),
                        r.1@,
                        final(m).jobs().len() as int,
                        trail.push((pc2 as int, at2@.0)),
                    )
                    &&& forall|b: (int, int)|
                        steps(h.ops, h.text, (pc as int, at@.0), b) ==> b == (pc2 as int, at2@.0)
                            || owns(final(m).jobs(), r.1@, (pc as int, at@.0), b)
                    &&& forall|b: (int, int)|
                        steps(h.ops, h.text, (pc as int, at@.0), b) ==> b == (pc2 as int, at2@.0)
                            || first_branch(h.ops, (pc as int, at@.0), (pc2 as int, at2@.0))
                },
            },
    {
        let ghost cur = (pc as int, at@.0);
        let ghost jobs = m.jobs();
        let ghost before = caps@;
        let ghost tried = self.tried(m);
        proof {
            reveal(Backtrack::ready);
            self.input.lemma_text_valid();
            assert(h.ops[pc as int] == self.prog.insts@[pc as int]@);
            assert(inst_ok(h.ops, pc as int));
            lemma_boundary_range(h.text, at@.0);
            lemma_stack_open(h, tried, jobs, trails, before);
        }
        match &self.prog.insts[pc] {
            Inst::Match => (Move::Matched, Ghost(trails)),
            Inst::Save(slot) => {
                let ghost mut trails2 = trails;
                if *slot < caps.len() {
                    let old_pos = caps[*slot];
                    self.push_save_restore(m, *slot, old_pos);
                    caps[*slot] = Some(at.pos());
                    proof {
                        let job = Job::SaveRestore { slot: *slot, old_pos };
                        assert(undo(job, caps@) =~= before);
                        lemma_stack_save(h, tried, jobs, trails, job, before, caps@);
                        lemma_owns_push(jobs, trails, job, Seq::empty());
                        trails2 = trails.push(Seq::empty());
                    }
                }
                proof {
                    lemma_chain_longer(m.jobs(), trails2, m.jobs().len() as int, trail, (pc + 1, at@.0));
                }
                (Move::To(pc + 1, at), Ghost(trails2))
            },
            Inst::Jump(to) => {
                proof {
                    lemma_chain_longer(jobs, trails, jobs.len() as int, trail, (*to as int, at@.0));
                }
                (Move::To(*to, at), Ghost(trails))
            },
            Inst::Split(x, y) => {
                self.push_split_next(m, *y, at);
                let ghost job = Job::SplitNext { pc: *y, at };
                let ghost trails2 = trails.push(trail.push(job_place(job)));
                proof {
                    lemma_stack_split(h, tried, jobs, trails, job, trail, before);
                    lemma_owns_push(jobs, trails, job, trail.push(job_place(job)));
                    assert(chained(
                        jobs.push(job),
                        trails2,
                        jobs.len() as int + 1,
                        trail.push((*x as int, at@.0)),
                    ));
                }
                (Move::To(*x, at), Ghost(trails2))
            },
            Inst::EmptyLook(look) => {
                let prev = self.input.previous_at(at.pos());
                if look.matches(prev.char(), at.char()) {
                    proof {
                        lemma_chain_longer(jobs, trails, jobs.len() as int, trail, (pc + 1, at@.0));
                    }
                    (Move::To(pc + 1, at), Ghost(trails))
                } else {
                    (Move::Dead, Ghost(trails))
                }
            },
            Inst::Char(one) => {
                if one.matches(at.char()) {
                    proof {
                        lemma_next_boundary(h.text, at@.0);
                    }
                    let at2 = self.input.at(at.next_pos());
                    proof {
                        lemma_chain_longer(jobs, trails, jobs.len() as int, trail, (pc + 1, at2@.0));
                    }
                    (Move::To(pc + 1, at2), Ghost(trails))
                } else {
                    (Move::Dead, Ghost(trails))
                }
            },
            Inst::Ranges(ranges) => {
                if ranges.matches(at.char()).is_some() {
                    proof {
                        lemma_next_boundary(h.text, at@.0);
                    }
                    let at2 = self.input.at(at.next_pos());
                    proof {
                        lemma_chain_longer(jobs, trails, jobs.len() as int, trail, (pc + 1, at2@.0));
                    }
                    (Move::To(pc + 1, at2), Ghost(trails))
                } else {
                    (Move::Dead, Ghost(trails))
                }
            },
        }
    }

    /// Runs the program from `pc0` at `at0`, along first branches, until it
    /// reaches `Match`, fails, or comes to a pair that was tried. `trail`
    /// is the way to `pc0` at `at0`; where the program reaches `Match`,
    /// the way to it is given back.
    fn step(
        &self,
        m: &mut BackMachine,
        caps: &mut [Option<usize>],
        pc0: InstIdx,
        at0: InputAt,
        Ghost(h): Ghost<Hunt>,
        Ghost(trails0): Ghost<Seq<Seq<(int, int)>>>,
        Ghost(trail0): Ghost<Seq<(int, int)>>,
    ) -> (r: (bool, Ghost<Seq<Seq<(int, int)>>>, Ghost<Seq<(int, int)>>))
        requires
            self.ready(h),
            pc0 < h.ops.len(),
            placed(h.text, at0),
            self.keyed(old(m)),
            stacked(h, self.tried(old(m)), old(m).jobs(), trails0, old(caps)@),
            forall|k: int| 0 <= k < old(m).jobs().len() ==> !((#[trigger] old(m).jobs()[k]) is Inst),
            searched(h, self.tried(old(m)), old(m).jobs(), trails0, set![(pc0 as int, at0@.0)]),
            on_trail(h, self.tried(old(m)), trail0, old(caps)@),
            trail0.len() > 0 && trail0.last() == (pc0 as int, at0@.0),
            chained(old(m).jobs(), trails0, old(m).jobs().len() as int, trail0),
        ensures
            final(caps)@.len() == old(caps)@.len(),
            self.keyed(final(m)),
            self.tried(old(m)).subset_of(self.tried(final(m))),
            final(m).jobs().len() - 3 * final(m).visited().len() <= old(m).jobs().len() - 3 * old(
                m,
            ).visited().len() + 1,
            old(m).visited().len() <= final(m).visited().len(),
            r.0 ==> preferred(h.ops, h.text, h.from, r.2@) && caps_after(h.ops, r.2@, h.caps0)
                == final(caps)@,
            !r.0 ==> {
                &&& stacked(h, self.tried(final(m)), final(m).jobs(), r.1@, final(caps)@)
                &&& forall|k: int|
                    0 <= k < final(m).jobs().len() ==> !((#[trigger] final(m).jobs()[k]) is Inst)
                &&& searched(h, self.tried(final(m)), final(m).jobs(), r.1@, Set::empty())
            },
    {
        let ghost n = h.ops.len() as int;
        let ghost len = h.text.len() as int;
        let ghost cap = n * (len + 1);
        let ghost mut trails = trails0;
        let ghost mut trail = trail0;
        let mut pc = pc0;
        let mut at = at0;
        proof {
            reveal(Backtrack::ready);
        }
        loop
            invariant
                self.ready(h),
                h.ops == self.ops(),
                h.text == self.text(),
                n == h.ops.len(),
                len == h.text.len(),
                cap == n * (len + 1),
                pc < n,
                placed(h.text, at),
                caps@.len() == old(caps)@.len(),
                self.keyed(m),
                stacked(h, self.tried(m), m.jobs(), trails, caps@),
                forall|k: int| 0 <= k < m.jobs().len() ==> !((#[trigger] m.jobs()[k]) is Inst),
                searched(h, self.tried(m), m.jobs(), trails, set![(pc as int, at@.0)]),
                on_trail(h, self.tried(m), trail, caps@),
                trail.len() > 0 && trail.last() == (pc as int, at@.0),
                chained(m.jobs(), trails, m.jobs().len() as int, trail),
                self.tried(old(m)).subset_of(self.tried(m)),
                m.jobs().len() - 3 * m.visited().len() <= old(m).jobs().len() - 3 * old(
                    m,
                ).visited().len(),
                old(m).visited().len() <= m.visited().len(),
            decreases cap - m.visited().len(),
        {
            let ghost cur = (pc as int, at@.0);
            let ghost tried = self.tried(m);
            let ghost jobs_before = m.jobs();
            let ghost trails_before = trails;
            let ghost caps_before = caps@;
            proof {
                lemma_keys_bound(m.visited(), n, len);
                lemma_trail_open(h, tried, trail, caps_before);
            }
            let (moved, Ghost(trails_after)) = self.advance(
                m,
                caps,
                pc,
                at,
                Ghost(h),
                Ghost(trails),
                Ghost(trail),
            );
            proof {
                trails = trails_after;
            }
            match moved {
                Move::Matched => {
                    proof {
                        lemma_trail_done(h, tried, trail, caps@);
                    }
                    return (true, Ghost(trails), Ghost(trail));
                },
                Move::Dead => {
                    proof {
                        lemma_searched_next(
                            h,
                            tried,
                            jobs_before,
                            trails_before,
                            m.jobs(),
                            trails,
                            cur,
                            cur,
                        );
                    }
                    return (false, Ghost(trails), Ghost(trail));
                },
                Move::To(pc2, at2) => {
                    pc = pc2;
                    at = at2;
                },
            }
            let ghost next = (pc as int, at@.0);
            proof {
                lemma_searched_next(
                    h,
                    tried,
                    jobs_before,
                    trails_before,
                    m.jobs(),
                    trails,
                    cur,
                    next,
                );
            }
            if self.has_visited(m, pc, at) {
                proof {
                    assert(self.tried(m) =~= tried);
                }
                return (false, Ghost(trails), Ghost(trail));
            }
            proof {
                lemma_trail_step(h, tried, trail, caps_before, next);
                lemma_stack_more(h, tried, tried.insert(next), m.jobs(), trails, caps@);
                trail = trail.push(next);
                lemma_keys_bound(m.visited(), n, len);
            }
        }
    }
}

/// 1 where the job on top of the stack is a job to run the program, else
/// 0.
pub open spec fn top_inst(jobs: Seq<Job>) -> int {
    if jobs.len() > 0 && jobs.last() is Inst {
        1
    } else {
        0
    }
}

impl<'r, 't> Backtrack<'r, 't> {
    /// Tries the program from its first instruction at `start`, and every
    /// branch that is put off on the way.
    fn backtrack(&self, m: &mut BackMachine, caps: &mut [Option<usize>], start: InputAt) -> (r: (
        bool,
        Ghost<Seq<(int, int)>>,
    ))
        requires
            self.prog.wf(),
            placed(self.text(), start),
            old(m).jobs().len() == 0,
            self.keyed(old(m)),
            closed(self.ops(), self.text(), self.tried(old(m))),
            forall|a: (int, int)| self.tried(old(m)).contains(a) ==> !accepting(self.ops(), a),
        ensures
            final(caps)@.len() == old(caps)@.len(),
            self.keyed(final(m)),
            r.0 == matches_at(self.ops(), self.text(), start@.0),
            r.0 ==> reports(self.ops(), self.text(), start@.0, r.1@, old(caps)@, final(caps)@)
                && preferred(self.ops(), self.text(), (0, start@.0), r.1@),
            !r.0 ==> {
                &&& final(caps)@ == old(caps)@
                &&& final(m).jobs().len() == 0
                &&& closed(self.ops(), self.text(), self.tried(final(m)))
                &&& forall|a: (int, int)| self.tried(final(m)).contains(a) ==> !accepting(self.ops(), a)
            },
    {
        let ghost h = Hunt {
            ops: self.ops(),
            text: self.text(),
            from: (0int, start@.0),
            caps0: caps@,
        };
        let ghost n = h.ops.len() as int;
        let ghost len = h.text.len() as int;
        let ghost cap = n * (len + 1);
        let ghost first = seq![h.from];
        proof {
            self.lemma_ready(h);
            lemma_closed_searched(h, self.tried(m));
            lemma_searched_add(h, self.tried(m), Seq::empty(), Seq::empty(), h.from);
            lemma_stack_none(h, self.tried(m));
            lemma_trail_start(h, self.tried(m).insert(h.from));
            assert(m.jobs() =~= Seq::<Job>::empty());
        }
        let Ghost(pushed) = self.push(
            m,
            0,
            start,
            Ghost(h),
            Ghost(caps@),
            Ghost(Seq::empty()),
            Ghost(first),
        );
        let ghost mut trails = pushed;
        loop
            invariant
                self.ready(h),
                h.ops == self.ops(),
                h.text == self.text(),
                h.from == (0int, start@.0),
                h.caps0 == old(caps)@,
                n == h.ops.len(),
                len == h.text.len(),
                cap == n * (len + 1),
                caps@.len() == h.caps0.len(),
                self.keyed(m),
                stacked(h, self.tried(m), m.jobs(), trails, caps@),
                searched(h, self.tried(m), m.jobs(), trails, pending(m.jobs())),
                self.tried(m).contains(h.from),
                forall|b: (int, int)| pending(m.jobs()).contains(b) ==> self.tried(m).contains(b),
            decreases 3 * (cap - m.visited().len()) + 2 * top_inst(m.jobs()) + m.jobs().len(),
        {
            let ghost jobs = m.jobs();
            let ghost before = caps@;
            let ghost tried = self.tried(m);
            proof {
                lemma_keys_bound(m.visited(), n, len);
                lemma_stack_open(h, tried, jobs, trails, before);
            }
            let job = match m.jobs.pop() {
                None => {
                    proof {
                        assert(pending(jobs) =~= Set::<(int, int)>::empty());
                        assert(jobs =~= Seq::<Job>::empty());
                        assert(trails =~= Seq::<Seq<(int, int)>>::empty());
                        lemma_searched_closed(h, tried);
                        lemma_closed_rejects(h.ops, h.text, tried, h.from);
                    }
                    return (false, Ghost(first));
                },
                Some(job) => job,
            };
            let ghost top = trails.last();
            proof {
                assert(m.jobs() =~= jobs.drop_last());
                assert(jobs.last() == job);
                if job is SplitNext {
                    assert(pending(jobs) =~= Set::<(int, int)>::empty());
                    lemma_second_lead(h, tried, jobs, trails, before);
                    lemma_searched_branch(h, tried, jobs, trails);
                    if !tried.contains(top.last()) {
                        lemma_trail_branch(h, tried, jobs, trails, before);
                    }
                } else {
                    lemma_searched_pop(h, tried, jobs, trails, pending(jobs));
                }
                lemma_stack_pop(h, tried, jobs, trails, before);
                trails = trails.drop_last();
            }
            match job {
                Job::Inst { pc, at } => {
                    proof {
                        assert(pending(jobs) =~= set![(pc as int, at@.0)]);
                    }
                    let (found, Ghost(trails_after), Ghost(win)) = self.step(
                        m,
                        caps,
                        pc,
                        at,
                        Ghost(h),
                        Ghost(trails),
                        Ghost(top),
                    );
                    if found {
                        proof {
                            assert(matches_at(h.ops, h.text, start@.0));
                        }
                        return (true, Ghost(win));
                    }
                    proof {
                        trails = trails_after;
                        assert(pending(m.jobs()) =~= Set::<(int, int)>::empty());
                    }
                },
                Job::SaveRestore { slot, old_pos } => {
                    caps[slot] = old_pos;
                    proof {
                        assert(caps@ == undo(job, before));
                        assert(pending(m.jobs()) =~= Set::<(int, int)>::empty());
                        assert(pending(jobs) =~= Set::<(int, int)>::empty());
                    }
                },
                Job::SplitNext { pc, at } => {
                    proof {
                        if tried.contains(top.last()) {
                            assert(tried.insert(top.last()) =~= tried);
                        }
                    }
                    let Ghost(trails_after) = self.push(
                        m,
                        pc,
                        at,
                        Ghost(h),
                        Ghost(before),
                        Ghost(trails),
                        Ghost(top),
                    );
                    proof {
                        trails = trails_after;
                    }
                },
            }
            proof {
                lemma_keys_bound(m.visited(), n, len);
            }
        }
    }
}

impl<'r, 't> Backtrack<'r, 't> {
    /// Tries the program from `at` and from each later place, in turn,
    /// until it matches.
    fn exec_(&self, m: &mut BackMachine, caps: &mut [Option<usize>], at: InputAt) -> (r: bool)
        requires
            self.prog.wf(),
            placed(self.text(), at),
            old(m).jobs().len() == 0,
            old(m).visited() == Set::<u128>::empty(),
        ensures
            final(caps)@.len() == old(caps)@.len(),
            final(m).visited().len() <= self.ops().len() * (self.text().len() + 1),
            chosen(self.ops(), self.text(), at@.0, old(caps)@, r, final(caps)@),
    {
        let ghost ops = self.ops();
        let ghost text = self.text();
        let ghost n = ops.len() as int;
        let ghost len = text.len() as int;
        let ghost start = at@.0;
        let ghost caps0 = caps@;
        let text_len = self.input.len();
        let insts_len = self.prog.insts.len();
        proof {
            self.input.lemma_text_valid();
            lemma_boundary_range(text, start);
            assert(n * (len + 1) <= u128::MAX) by (nonlinear_arith)
                requires
                    0 <= n <= 0xFFFF_FFFF_FFFF_FFFF,
                    0 <= len <= 0xFFFF_FFFF_FFFF_FFFF,
            ;
            assert(self.tried(m) =~= Set::<(int, int)>::empty());
            lemma_keys_bound(m.visited(), n, len);
        }
        if self.prog.anchored_begin {
            if !at.is_beginning() {
                proof {
                    lemma_anchored_from(ops, text, start);
                }
                return false;
            }
            return match self.input.prefix_at(self.prog.prefixes.as_slice(), at) {
                None => {
                    proof {
                        assert(crate::program::strings_of(self.prog.prefixes@).len() == 0);
                    }
                    false
                },
                Some(at2) => {
                    proof {
                        assert(crate::program::strings_of(self.prog.prefixes@).len() == 0);
                        assert(at2 == at);
                    }
                    let (r, Ghost(path)) = self.backtrack(m, caps, at2);
                    proof {
                        lemma_keys_bound(m.visited(), n, len);
                        lemma_anchored_from(ops, text, start);
                        if r {
                            lemma_found(ops, text, start, 0, path, caps0, caps@);
                        }
                    }
                    r
                },
            };
        }
        let mut cur = at;
        loop
            invariant
                self.prog.wf(),
                ops == self.ops(),
                text == self.text(),
                n == ops.len(),
                len == text.len(),
                start == at@.0,
                caps0 == old(caps)@,
                caps@ == caps0,
                placed(text, cur),
                start <= cur@.0,
                none_before(ops, text, start, cur@.0),
                m.jobs().len() == 0,
                self.keyed(m),
                closed(ops, text, self.tried(m)),
                forall|a: (int, int)| self.tried(m).contains(a) ==> !accepting(ops, a),
            decreases len - cur@.0,
        {
            let ghost here = cur@.0;
            proof {
                lemma_boundary_range(text, here);
                lemma_keys_bound(m.visited(), n, len);
            }
            cur = match self.input.prefix_at(self.prog.prefixes.as_slice(), cur) {
                None => {
                    proof {
                        lemma_skipped(self.prog.prefixes@, ops, text, start, here, len + 1);
                        lemma_none_left(ops, text, start, len + 1);
                    }
                    return false;
                },
                Some(at2) => at2,
            };
            proof {
                lemma_skipped(self.prog.prefixes@, ops, text, start, here, cur@.0);
                lemma_boundary_range(text, cur@.0);
            }
            let (found, Ghost(path)) = self.backtrack(m, caps, cur);
            if found {
                proof {
                    lemma_found(ops, text, start, cur@.0, path, caps0, caps@);
                    lemma_keys_bound(m.visited(), n, len);
                }
                return true;
            }
            proof {
                lemma_one_more(ops, text, start, cur@.0);
                lemma_keys_bound(m.visited(), n, len);
            }
            if cur.is_end() {
                proof {
                    lemma_none_left(ops, text, start, len + 1);
                }
                return false;
            }
            proof {
                lemma_next_boundary(text, cur@.0);
            }
            cur = self.input.at(cur.next_pos());
        }
    }

    /// Runs the backtracker with the scratch space `m`, which it clears
    /// first. Reports whether `prog` matches `text` somewhere at or after
    /// `start`; if it does, `caps` holds the slots of the preferred match
    /// from the first offset from which there is one. No more pairs of
    /// instruction and offset are tried than there are.
    pub fn exec_with(
        prog: &'r Program,
        m: &mut BackMachine,
        caps: &mut [Option<usize>],
        text: &'t str,
        start: usize,
    ) -> (r: bool)
        requires
            prog.wf(),
            vstd::utf8::is_char_boundary(text.spec_bytes(), start as int),
        ensures
            final(caps)@.len() == old(caps)@.len(),
            final(m).visited().len() <= prog.insts@.len() * (text.spec_bytes().len() + 1),
            chosen(prog.ops(), text.spec_bytes(), start as int, old(caps)@, r, final(caps)@),
    {
        let input = CharInput::new(text);
        let at = input.at(start);
        m.clear();
        let b = Backtrack { prog, input };
        b.exec_(m, caps, at)
    }

    /// Reports whether `prog` matches `text` somewhere at or after `start`;
    /// if it does, `caps` holds the slots of the preferred match from the
    /// first offset from which there is one.
    pub fn exec(prog: &'r Program, caps: &mut [Option<usize>], text: &'t str, start: usize) -> (r:
        bool)
        requires
            prog.wf(),
            vstd::utf8::is_char_boundary(text.spec_bytes(), start as int),
        ensures
            final(caps)@.len() == old(caps)@.len(),
            chosen(prog.ops(), text.spec_bytes(), start as int, old(caps)@, r, final(caps)@),
    {
        let mut m = prog.backtrack.get();
        let matched = Self::exec_with(prog, &mut m, caps, text, start);
        prog.backtrack.put(m);
        matched
    }
}

} // verus!
