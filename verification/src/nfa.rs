//! The lock-step simulation: it keeps the threads of all paths through
//! the program at one offset, in the order in which a backtracking search
//! would try them, and steps them over one character at a time.

use crate::choice::lemma_chosen_bare;
use crate::input::{
    boundary, lemma_boundary_range, lemma_next_boundary, lemma_prev_of_next, next_pos, placed,
    CharInput, Input, InputAt,
};
use crate::laws::{
    lemma_anchored, lemma_anchored_from, lemma_found, lemma_none_left, lemma_skipped, none_before,
};
use crate::order::{
    entry, grew, handed, led, lemma_entry_child, lemma_entry_copy, lemma_entry_open,
    lemma_entry_second, lemma_entry_seed, lemma_entry_top, lemma_grew_last, lemma_grew_one,
    lemma_grew_present, lemma_grew_two, lemma_grown_once, lemma_grown_thrice, lemma_grown_twice,
    lemma_handed_more, lemma_handed_start, lemma_led_grew, lemma_none_led, lemma_root_lead,
    lemma_rooted_open, lemma_routed_bound, lemma_routed_empty, lemma_routed_end, lemma_routed_none,
    lemma_routed_on, lemma_routed_open, lemma_routed_seed, lemma_traced_len, pushed, routed, traced,
};
use crate::pool::Factory;
use crate::program::{captures_of, inst_ok, wf_ops, Inst, LookInst, Op, Program};
use crate::run::{
    accepting, accepts, caps_after, chosen, is_match, is_path, is_run, leftmost, lemma_accepts_back,
    lemma_caps_len, lemma_path_arrives, lemma_path_boundary, lemma_path_crosses, lemma_path_head,
    lemma_path_mono, lemma_path_tail, lemma_reach_start, lemma_reach_step, lemma_step_stays,
    matches_at, outcome, preferred, reaches, reports, saved, step_at, steps, Slots,
};
use vstd::prelude::*;
use vstd::string::*;

verus! {

/// One thread of the simulation: an instruction and the slots of the path
/// that led to it.
#[derive(Debug)]
pub struct Thread {
    pub pc: usize,
    pub caps: Vec<Option<usize>>,
}

/// A set of threads with at most one thread for each instruction, in the
/// order in which they were added.
#[derive(Debug)]
pub struct Threads {
    dense: Vec<Thread>,
    sparse: Vec<usize>,
    size: usize,
}

/// The two thread lists of a simulation.
#[derive(Debug)]
pub struct NfaThreads {
    clist: Threads,
    nlist: Threads,
}

/// Makes the thread lists for a program of a given size.
#[derive(Clone, Copy, Debug)]
pub struct ThreadsMaker {
    num_insts: usize,
    ncaps: usize,
}

impl Clone for Thread {
    fn clone(&self) -> (r: Thread)
        ensures
            r.pc == self.pc,
            r.caps@ == self.caps@,
    {
        Thread { pc: self.pc, caps: self.caps.clone() }
    }
}

/// Distinct numbers below `n` are at most `n`, and fewer if one number
/// below `n` is not among them.
pub proof fn lemma_room(pcs: Seq<int>, n: int, other: int)
    requires
        pcs.no_duplicates(),
        forall|i: int| 0 <= i < pcs.len() ==> 0 <= #[trigger] pcs[i] < n,
        0 <= n,
    ensures
        pcs.len() <= n,
        0 <= other < n && !pcs.contains(other) ==> pcs.len() < n,
{
    pcs.unique_seq_to_set();
    vstd::set_lib::lemma_int_range(0, n);
    let all = vstd::set_lib::set_int_range(0, n);
    assert(pcs.to_set().subset_of(all)) by {
        assert forall|x: int| pcs.to_set().contains(x) implies all.contains(x) by {
            let i = choose|i: int| 0 <= i < pcs.len() && pcs[i] == x;
        }
    }
    vstd::set_lib::lemma_len_subset(pcs.to_set(), all);
    if 0 <= other < n && !pcs.contains(other) {
        let rest = all.remove(other);
        assert(pcs.to_set().subset_of(rest)) by {
            assert forall|x: int| pcs.to_set().contains(x) implies rest.contains(x) by {
                let i = choose|i: int| 0 <= i < pcs.len() && pcs[i] == x;
            }
        }
        vstd::set_lib::lemma_len_subset(pcs.to_set(), rest);
    }
}

impl Threads {
    /// The instructions of the threads, in the order in which they were
    /// added.
    pub closed spec fn pcs(&self) -> Seq<int> {
        Seq::new(self.size as nat, |i: int| self.dense@[i].pc as int)
    }

    /// The slots kept at index `i`, which are those of thread `i` where
    /// there is one.
    pub closed spec fn slots(&self, i: int) -> Slots {
        self.dense@[i].caps@
    }

    /// The slots of the threads, in the order of the threads.
    pub closed spec fn all_slots(&self) -> Seq<Slots> {
        Seq::new(self.size as nat, |i: int| self.dense@[i].caps@)
    }

    /// The number of instructions that the set has room for.
    pub closed spec fn room(&self) -> nat {
        self.dense@.len()
    }

    /// `all_slots` holds the slots of each thread.
    pub proof fn lemma_all_slots(&self)
        ensures
            self.all_slots().len() == self.pcs().len(),
            forall|i: int| 0 <= i < self.pcs().len() ==> #[trigger] self.all_slots()[i] == self.slots(i),
    {
    }

    /// The threads are distinct instructions, each below `room`.
    pub closed spec fn wf(&self) -> bool {
        &&& self.sparse@.len() == self.dense@.len()
        &&& self.size <= self.dense@.len()
        &&& forall|i: int|
            0 <= i < self.size ==> (#[trigger] self.dense@[i]).pc < self.dense@.len()
                && self.sparse@[self.dense@[i].pc as int] == i
    }

    /// Every index holds `width` slots.
    pub closed spec fn uniform(&self, width: nat) -> bool {
        forall|i: int| 0 <= i < self.dense@.len() ==> (#[trigger] self.dense@[i]).caps@.len() == width
    }

    /// What `wf` says of the threads.
    pub proof fn lemma_wf(&self)
        requires
            self.wf(),
        ensures
            self.pcs().no_duplicates(),
            self.pcs().len() <= self.room(),
            forall|i: int| 0 <= i < self.pcs().len() ==> 0 <= #[trigger] self.pcs()[i] < self.room(),
    {
        let pcs = self.pcs();
        assert forall|i: int, j: int| 0 <= i < pcs.len() && 0 <= j < pcs.len() && i != j implies pcs[i]
            != pcs[j] by {
            assert(self.sparse@[self.dense@[i].pc as int] == i);
            assert(self.sparse@[self.dense@[j].pc as int] == j);
        }
    }

    /// What `uniform` says of the slots.
    pub proof fn lemma_uniform(&self, width: nat, i: int)
        requires
            self.uniform(width),
            0 <= i < self.room(),
        ensures
            self.slots(i).len() == width,
    {
    }

    /// A set without threads, with room for `num_insts` instructions and
    /// with `2 * ncaps` empty slots at each index.
    pub fn new(num_insts: usize, ncaps: usize) -> (r: Threads)
        requires
            ncaps * 2 <= usize::MAX,
        ensures
            r.wf(),
            r.room() == num_insts,
            r.uniform((ncaps * 2) as nat),
            r.pcs().len() == 0,
            forall|k: int|
                0 <= k < num_insts ==> #[trigger] r.slots(k) == Seq::new(
                    (ncaps * 2) as nat,
                    |i: int| None::<usize>,
                ),
    {
        let mut dense: Vec<Thread> = Vec::new();
        let mut sparse: Vec<usize> = Vec::new();
        let mut i: usize = 0;
        while i < num_insts
            invariant
                i <= num_insts,
                ncaps * 2 <= usize::MAX,
                dense@.len() == i,
                sparse@.len() == i,
                forall|j: int| 0 <= j < i ==> (#[trigger] dense@[j]).caps@.len() == ncaps * 2,
                forall|j: int|
                    0 <= j < i ==> (#[trigger] dense@[j]).caps@ == Seq::new(
                        (ncaps * 2) as nat,
                        |i: int| None::<usize>,
                    ),
            decreases num_insts - i,
        {
            let caps: Vec<Option<usize>> = vec![None; ncaps * 2];
            dense.push(Thread { pc: 0, caps });
            sparse.push(0);
            i += 1;
        }
        Threads { dense, sparse, size: 0 }
    }

    /// The number of threads.
    pub fn len(&self) -> (r: usize)
        ensures
            r == self.pcs().len(),
    {
        self.size
    }

    /// Whether a thread is for `pc`.
    pub fn contains(&self, pc: usize) -> (r: bool)
        requires
            self.wf(),
            pc < self.room(),
        ensures
            r == self.pcs().contains(pc as int),
    {
        let s = self.sparse[pc];
        let r = s < self.size && self.dense[s].pc == pc;
        proof {
            if r {
                assert(self.pcs()[s as int] == pc);
            } else if self.pcs().contains(pc as int) {
                let i = choose|i: int| 0 <= i < self.pcs().len() && self.pcs()[i] == pc as int;
                assert(self.sparse@[self.dense@[i].pc as int] == i);
            }
        }
        r
    }

    /// Adds a thread for `pc` and returns its index.
    pub fn add(&mut self, pc: usize) -> (i: usize)
        requires
            old(self).wf(),
            pc < old(self).room(),
            !old(self).pcs().contains(pc as int),
        ensures
            final(self).wf(),
            final(self).room() == old(self).room(),
            final(self).pcs() == old(self).pcs().push(pc as int),
            i == old(self).pcs().len(),
            forall|k: int| 0 <= k < old(self).room() ==> final(self).slots(k) == old(self).slots(k),
            forall|width: nat| old(self).uniform(width) ==> final(self).uniform(width),
    {
        proof {
            self.lemma_wf();
            lemma_room(self.pcs(), self.room() as int, pc as int);
            assert(self.pcs().len() == self.size);
        }
        let i = self.size;
        let n = self.dense.len();
        assert(i < n);
        self.dense[i].pc = pc;
        assert(forall|k: int| 0 <= k < n && k != i ==> self.dense@[k] == old(self).dense@[k]);
        assert(self.dense@[i as int].caps == old(self).dense@[i as int].caps);
        assert(self.dense@[i as int].pc == pc);
        self.sparse[pc] = i;
        self.size += 1;
        proof {
            assert(self.pcs() =~= old(self).pcs().push(pc as int));
            assert forall|j: int| 0 <= j < self.size implies (#[trigger] self.dense@[j]).pc < n
                && self.sparse@[self.dense@[j].pc as int] == j by {
                if j < i {
                    assert(old(self).pcs()[j] == old(self).dense@[j].pc);
                    assert(old(self).pcs().contains(old(self).pcs()[j]));
                }
            }
        }
        i
    }

    /// Forgets every thread.
    pub fn empty(&mut self)
        requires
            old(self).wf(),
        ensures
            final(self).wf(),
            final(self).pcs().len() == 0,
            final(self).room() == old(self).room(),
            forall|k: int| 0 <= k < old(self).room() ==> final(self).slots(k) == old(self).slots(k),
            forall|width: nat| old(self).uniform(width) ==> final(self).uniform(width),
    {
        self.size = 0;
    }

    /// The instruction of thread `i`.
    pub fn pc(&self, i: usize) -> (r: usize)
        requires
            self.wf(),
            i < self.pcs().len(),
        ensures
            r == self.pcs()[i as int],
    {
        self.dense[i].pc
    }

    /// Thread `i`, to read and to write. The set stays well formed where
    /// the thread is for the instruction it was for.
    pub fn thread(&mut self, i: usize) -> (r: &mut Thread)
        requires
            old(self).wf(),
            i < old(self).room(),
        ensures
            i < old(self).pcs().len() ==> r.pc == old(self).pcs()[i as int],
            r.caps@ == old(self).slots(i as int),
            final(self).room() == old(self).room(),
            final(self).slots(i as int) == final(r).caps@,
            forall|k: int| 0 <= k < old(self).room() && k != i ==> final(self).slots(k) == old(self).slots(k),
            final(r).pc == r.pc ==> final(self).wf() && final(self).pcs() =~= old(self).pcs(),
    {
        &mut self.dense[i]
    }

    /// The slots of thread `i`, to read and to write.
    pub fn caps(&mut self, i: usize) -> (r: &mut Vec<Option<usize>>)
        requires
            old(self).wf(),
            i < old(self).room(),
        ensures
            r@ == old(self).slots(i as int),
            final(self).pcs() =~= old(self).pcs(),
            final(self).room() == old(self).room(),
            final(self).wf(),
            final(self).slots(i as int) == final(r)@,
            forall|k: int| 0 <= k < old(self).room() && k != i ==> final(self).slots(k) == old(self).slots(k),
            forall|width: nat|
                old(self).uniform(width) && final(r)@.len() == width ==> final(self).uniform(width),
            final(r)@ == r@ ==> final(self).all_slots() =~= old(self).all_slots(),
    {
        &mut self.dense[i].caps
    }
}

impl NfaThreads {
    /// The threads at the current offset.
    pub closed spec fn current(&self) -> Threads {
        self.clist
    }

    /// The threads at the next offset.
    pub closed spec fn upcoming(&self) -> Threads {
        self.nlist
    }

    /// Both lists are sets for a program of `n` instructions, and every
    /// thread has `width` slots.
    #[verifier::opaque]
    pub open spec fn fits(&self, n: nat, width: nat) -> bool {
        &&& self.current().wf()
        &&& self.current().room() == n
        &&& self.current().uniform(width)
        &&& self.upcoming().wf()
        &&& self.upcoming().room() == n
        &&& self.upcoming().uniform(width)
    }

    /// Two lists without threads for a program of `num_insts` instructions
    /// and `ncaps` groups.
    pub fn new(num_insts: usize, ncaps: usize) -> (r: NfaThreads)
        requires
            ncaps * 2 <= usize::MAX,
        ensures
            r.fits(num_insts as nat, (ncaps * 2) as nat),
            r.current().pcs().len() == 0,
            r.upcoming().pcs().len() == 0,
    {
        reveal(NfaThreads::fits);
        NfaThreads { clist: Threads::new(num_insts, ncaps), nlist: Threads::new(num_insts, ncaps) }
    }

    /// Exchanges the two lists.
    pub fn swap(&mut self)
        ensures
            final(self).current() == old(self).upcoming(),
            final(self).upcoming() == old(self).current(),
            forall|n: nat, width: nat| old(self).fits(n, width) ==> final(self).fits(n, width),
    {
        reveal(NfaThreads::fits);
        std::mem::swap(&mut self.clist, &mut self.nlist);
    }

    /// Forgets the threads at the current offset.
    pub fn empty_current(&mut self)
        ensures
            final(self).current().pcs().len() == 0,
            final(self).upcoming() == old(self).upcoming(),
            forall|n: nat, width: nat| old(self).fits(n, width) ==> final(self).fits(n, width),
    {
        reveal(NfaThreads::fits);
        if self.clist.size != 0 {
            self.clist.size = 0;
        }
    }

    /// Forgets the threads at the next offset.
    pub fn empty_upcoming(&mut self)
        ensures
            final(self).upcoming().pcs().len() == 0,
            final(self).current() == old(self).current(),
            forall|n: nat, width: nat| old(self).fits(n, width) ==> final(self).fits(n, width),
    {
        reveal(NfaThreads::fits);
        if self.nlist.size != 0 {
            self.nlist.size = 0;
        }
    }

    /// The number of threads at the current offset.
    pub fn current_len(&self) -> (r: usize)
        ensures
            r == self.current().pcs().len(),
    {
        self.clist.len()
    }
}

impl ThreadsMaker {
    #[verifier::type_invariant]
    spec fn valid(self) -> bool {
        self.ncaps * 2 <= usize::MAX
    }

    /// The number of instructions that the lists are made for.
    pub closed spec fn num_insts(self) -> nat {
        self.num_insts as nat
    }

    /// The number of slots that each thread is made with.
    pub closed spec fn width(self) -> nat {
        (self.ncaps * 2) as nat
    }

    /// A maker of thread lists for a program of `num_insts` instructions
    /// and `ncaps` groups.
    pub fn new(num_insts: usize, ncaps: usize) -> (r: ThreadsMaker)
        requires
            ncaps * 2 <= usize::MAX,
        ensures
            r.num_insts() == num_insts,
            r.width() == ncaps * 2,
    {
        ThreadsMaker { num_insts, ncaps }
    }
}

impl Factory<NfaThreads> for ThreadsMaker {
    open spec fn makes(&self, v: NfaThreads) -> bool {
        v.fits(self.num_insts(), self.width())
    }

    fn create(&self) -> (v: NfaThreads) {
        proof {
            use_type_invariant(self);
        }
        NfaThreads::new(self.num_insts, self.ncaps)
    }
}

/// The instruction at `pc` is one that a thread waits at: it consumes a
/// character or is `Match`.
pub open spec fn leaf(ops: Seq<Op>, pc: int) -> bool {
    0 <= pc < ops.len() && (ops[pc] is Match || ops[pc] is Char || ops[pc] is Ranges)
}

/// A step that consumes no character.
pub open spec fn eps_step(ops: Seq<Op>, text: Seq<u8>, a: (int, int), b: (int, int)) -> bool {
    steps(ops, text, a, b) && !leaf(ops, a.0)
}

/// The slots `c` are the first slots of `tc`.
pub open spec fn prefix_of(c: Slots, tc: Slots) -> bool {
    c.len() <= tc.len() && forall|s: int| 0 <= s < c.len() ==> c[s] == tc[s]
}

/// Some path leads from the first instruction at offset `q` to the
/// instruction `pc` at offset `pos`.
pub open spec fn joins(ops: Seq<Op>, text: Seq<u8>, q: int, pc: int, pos: int) -> bool {
    exists|path: Seq<(int, int)>|
        #![trigger is_path(ops, text, path)]
        is_path(ops, text, path) && path[0] == (0int, q) && path.last() == (pc, pos)
}

/// What the search is given: the program, the text, the offset to search
/// from and the slots as they were.
pub struct Given {
    pub ops: Seq<Op>,
    pub text: Seq<u8>,
    pub start: int,
    pub caps0: Slots,
}

impl Given {
    /// The instructions are a program, the text is UTF-8, and the search
    /// starts at a boundary.
    pub open spec fn wf(self) -> bool {
        wf_ops(self.ops) && boundary(self.text, self.start)
    }
}

/// A thread for `pc` at offset `pos` that stands for a path from the first
/// instruction at offset `s`: there is such a path, and if the thread waits
/// at `pc`, its slots `tc` begin with the slots of the path.
pub open spec fn sound_thread(g: Given, pc: int, s: int, pos: int, tc: Slots) -> bool {
    &&& g.start <= s <= pos
    &&& boundary(g.text, s)
    &&& exists|c: Slots|
        #![trigger reaches(g.ops, g.text, (0, s), (pc, pos), g.caps0, c)]
        reaches(g.ops, g.text, (0, s), (pc, pos), g.caps0, c) && (leaf(g.ops, pc) ==> prefix_of(c, tc))
}

/// A list of threads at offset `pos`: their instructions, the offsets
/// where their paths start, and their slots.
pub struct Front {
    pub pcs: Seq<int>,
    pub starts: Seq<int>,
    pub slots: Seq<Slots>,
    pub pos: int,
}

impl Front {
    /// The three sequences are of one length.
    pub open spec fn shaped(self) -> bool {
        self.starts.len() == self.pcs.len() && self.slots.len() == self.pcs.len()
    }

    /// The threads `lo..hi` are sound.
    #[verifier::opaque]
    pub open spec fn sound(self, g: Given, lo: int, hi: int) -> bool {
        forall|i: int|
            lo <= i < hi ==> sound_thread(g, #[trigger] self.pcs[i], self.starts[i], self.pos, self.slots[i])
    }

    /// The paths of later threads start no earlier.
    #[verifier::opaque]
    pub open spec fn ordered(self) -> bool {
        forall|i: int, j: int|
            0 <= i <= j < self.starts.len() ==> #[trigger] self.starts[i] <= #[trigger] self.starts[j]
    }

    /// Some thread is for `pc`, with a path that starts at or before `q`.
    pub open spec fn has(self, pc: int, q: int) -> bool {
        exists|m: int| 0 <= m < self.pcs.len() && #[trigger] self.pcs[m] == pc && self.starts[m] <= q
    }

    /// From each of the threads `lo..hi`, every step that consumes no
    /// character leads to a thread whose path starts no later.
    #[verifier::opaque]
    pub open spec fn closed(self, g: Given, lo: int, hi: int) -> bool {
        forall|i: int, b: (int, int)|
            lo <= i < hi && #[trigger] eps_step(g.ops, g.text, (self.pcs[i], self.pos), b) ==> self.has(
                b.0,
                self.starts[i],
            )
    }

    /// Every instruction that a path from an offset `q` in `start..bound`
    /// reaches at `pos`, and from which a `Match` can be reached, has a
    /// thread with a path that starts at or before `q`.
    #[verifier::opaque]
    pub open spec fn complete(self, g: Given, bound: int) -> bool {
        forall|q: int, pc: int|
            g.start <= q < bound && boundary(g.text, q) && #[trigger] joins(g.ops, g.text, q, pc, self.pos)
                && accepts(g.ops, g.text, (pc, self.pos)) ==> self.has(pc, q)
    }

    /// The list without its threads from `len` on.
    pub open spec fn take(self, len: int) -> Front {
        Front {
            pcs: self.pcs.take(len),
            starts: self.starts.take(len),
            slots: self.slots.take(len),
            pos: self.pos,
        }
    }
}

/// Every match from an offset in `start..bound` ends at or after `upto`.
#[verifier::opaque]
pub open spec fn none_ends_before(g: Given, bound: int, upto: int) -> bool {
    forall|q: int, path: Seq<(int, int)>|
        g.start <= q < bound && boundary(g.text, q) && #[trigger] is_run(g.ops, g.text, path, (0, q))
            ==> path.last().1 >= upto
}

/// `path` is a match from offset `p` that turns the slots as they were
/// into `caps`.
#[verifier::opaque]
pub open spec fn won(g: Given, p: int, path: Seq<(int, int)>, caps: Slots) -> bool {
    reports(g.ops, g.text, p, path, g.caps0, caps)
}

/// The search is over with the result `res` and the slots `caps`: `res`
/// says whether there is a match; if there is one, `caps` holds the slots
/// of a match from the first offset from which there is one, and else the
/// slots as they were.
#[verifier::opaque]
pub open spec fn settled(g: Given, res: bool, caps: Slots) -> bool {
    &&& outcome(g.ops, g.text, g.start, g.caps0, res, caps)
    &&& g.caps0.len() > 0 ==> chosen(g.ops, g.text, g.start, g.caps0, res, caps)
}

/// A path leads from the first instruction at offset `p` to `pc` at
/// `pos`, and the slots `tc` begin with the slots of that path.
#[verifier::opaque]
pub open spec fn carries(g: Given, p: int, pc: int, pos: int, tc: Slots) -> bool {
    exists|c: Slots|
        #![trigger reaches(g.ops, g.text, (0, p), (pc, pos), g.caps0, c)]
        reaches(g.ops, g.text, (0, p), (pc, pos), g.caps0, c) && prefix_of(c, tc)
}

/// The first instruction at an offset carries the slots as they were.
pub proof fn lemma_carry_start(g: Given, p: int)
    ensures
        carries(g, p, 0, p, g.caps0),
{
    reveal(carries);
    lemma_reach_start(g.ops, g.text, (0, p), g.caps0);
}

/// What a place carries, the places one step further carry, with the save
/// of the step applied.
pub proof fn lemma_carry_step(g: Given, p: int, pc: int, pos: int, tc: Slots, b: (int, int))
    requires
        carries(g, p, pc, pos, tc),
        steps(g.ops, g.text, (pc, pos), b),
        g.caps0.len() <= tc.len(),
    ensures
        carries(g, p, b.0, b.1, saved(g.ops, pc, pos, tc)),
{
    reveal(carries);
    let c = choose|c: Slots|
        #![trigger reaches(g.ops, g.text, (0, p), (pc, pos), g.caps0, c)]
        reaches(g.ops, g.text, (0, p), (pc, pos), g.caps0, c) && prefix_of(c, tc);
    lemma_reach_step(g.ops, g.text, (0, p), (pc, pos), b, g.caps0, c);
    let c2 = saved(g.ops, pc, pos, c);
    assert(reaches(g.ops, g.text, (0, p), b, g.caps0, c2));
    assert(prefix_of(c2, saved(g.ops, pc, pos, tc)));
}

/// Slots that agree with `tc` on the first slots carry what `tc` carries.
pub proof fn lemma_carry_copy(g: Given, p: int, pc: int, pos: int, tc: Slots, copy: Slots)
    requires
        carries(g, p, pc, pos, tc),
        g.caps0.len() <= copy.len(),
        g.caps0.len() <= tc.len(),
        forall|s: int| 0 <= s < g.caps0.len() ==> copy[s] == tc[s],
    ensures
        carries(g, p, pc, pos, copy),
{
    reveal(carries);
    let c = choose|c: Slots|
        #![trigger reaches(g.ops, g.text, (0, p), (pc, pos), g.caps0, c)]
        reaches(g.ops, g.text, (0, p), (pc, pos), g.caps0, c) && prefix_of(c, tc);
    lemma_reach_len(g, p, pc, pos, c);
    assert(prefix_of(c, copy));
}

/// The slots of a path are as many as the slots it started with.
pub proof fn lemma_reach_len(g: Given, p: int, pc: int, pos: int, c: Slots)
    requires
        reaches(g.ops, g.text, (0, p), (pc, pos), g.caps0, c),
    ensures
        c.len() == g.caps0.len(),
{
    let path = choose|path: Seq<(int, int)>|
        #![trigger is_path(g.ops, g.text, path)]
        is_path(g.ops, g.text, path) && path[0] == (0int, p) && path.last() == (pc, pos) && caps_after(
            g.ops,
            path,
            g.caps0,
        ) == c;
    lemma_caps_len(g.ops, path, g.caps0);
}

/// A thread that carries its slots is sound; one that does not wait at its
/// instruction is sound with any slots.
pub proof fn lemma_carry_sound(g: Given, p: int, pc: int, pos: int, tc: Slots, any: Slots)
    requires
        carries(g, p, pc, pos, tc),
        g.start <= p <= pos,
        boundary(g.text, p),
    ensures
        sound_thread(g, pc, p, pos, tc),
        !leaf(g.ops, pc) ==> sound_thread(g, pc, p, pos, any),
{
    reveal(carries);
    let c = choose|c: Slots|
        #![trigger reaches(g.ops, g.text, (0, p), (pc, pos), g.caps0, c)]
        reaches(g.ops, g.text, (0, p), (pc, pos), g.caps0, c) && prefix_of(c, tc);
    assert(reaches(g.ops, g.text, (0, p), (pc, pos), g.caps0, c));
}

/// The threads `lo..hi` of a list are new threads for paths from offset
/// `p`: each is sound, and from each, every step that consumes no
/// character leads to an instruction in the list.
#[verifier::opaque]
pub open spec fn fresh(
    g: Given,
    p: int,
    pos: int,
    pcs: Seq<int>,
    slots: Seq<Slots>,
    lo: int,
    hi: int,
) -> bool {
    &&& forall|i: int| lo <= i < hi ==> sound_thread(g, #[trigger] pcs[i], p, pos, slots[i])
    &&& forall|i: int, b: (int, int)|
        lo <= i < hi && #[trigger] eps_step(g.ops, g.text, (pcs[i], pos), b) ==> pcs.contains(b.0)
}

/// No threads are new threads.
pub proof fn lemma_fresh_none(g: Given, p: int, pos: int, pcs: Seq<int>, slots: Seq<Slots>, lo: int)
    ensures
        fresh(g, p, pos, pcs, slots, lo, lo),
{
    reveal(fresh);
}

/// One sound thread whose steps lead into the list is a new thread.
pub proof fn lemma_fresh_one(g: Given, p: int, pos: int, pcs: Seq<int>, slots: Seq<Slots>, i: int)
    requires
        sound_thread(g, pcs[i], p, pos, slots[i]),
        forall|b: (int, int)| eps_step(g.ops, g.text, (pcs[i], pos), b) ==> pcs.contains(b.0),
    ensures
        fresh(g, p, pos, pcs, slots, i, i + 1),
{
    reveal(fresh);
}

/// New threads stay new threads when the list grows, and new threads that
/// follow new threads are new threads together.
pub proof fn lemma_fresh_join(
    g: Given,
    p: int,
    pos: int,
    pcs1: Seq<int>,
    slots1: Seq<Slots>,
    pcs2: Seq<int>,
    slots2: Seq<Slots>,
    lo: int,
    mid: int,
    hi: int,
)
    requires
        fresh(g, p, pos, pcs1, slots1, lo, mid),
        fresh(g, p, pos, pcs2, slots2, mid, hi),
        0 <= lo <= mid <= pcs1.len() <= pcs2.len(),
        pcs1.len() == slots1.len(),
        pcs2.len() == slots2.len(),
        pcs1 == pcs2.take(pcs1.len() as int),
        forall|i: int| lo <= i < mid ==> slots1[i] == slots2[i],
    ensures
        fresh(g, p, pos, pcs2, slots2, lo, hi),
{
    reveal(fresh);
    assert forall|i: int| lo <= i < mid implies pcs1[i] == pcs2[i] by {
        assert(pcs2.take(pcs1.len() as int)[i] == pcs2[i]);
    }
    assert forall|i: int, b: (int, int)|
        lo <= i < hi && #[trigger] eps_step(g.ops, g.text, (pcs2[i], pos), b) implies pcs2.contains(
        b.0,
    ) by {
        if i < mid {
            assert(pcs1[i] == pcs2[i]);
            assert(eps_step(g.ops, g.text, (pcs1[i], pos), b));
            assert(pcs1.contains(b.0));
            let m = choose|m: int| 0 <= m < pcs1.len() && pcs1[m] == b.0;
            assert(pcs2.take(pcs1.len() as int)[m] == pcs2[m]);
        }
    }
}

/// Copies the first slots of `src` over the first slots of `dst`, as many
/// as both have.
fn copy_slots(dst: &mut [Option<usize>], src: &[Option<usize>])
    ensures
        final(dst)@.len() == old(dst)@.len(),
        forall|s: int|
            0 <= s < old(dst)@.len() ==> final(dst)@[s] == (if s < src@.len() {
                src@[s]
            } else {
                old(dst)@[s]
            }),
{
    let n = if dst.len() < src.len() {
        dst.len()
    } else {
        src.len()
    };
    let mut i: usize = 0;
    while i < n
        invariant
            i <= n,
            n <= src@.len(),
            n <= dst@.len(),
            dst@.len() == old(dst)@.len(),
            forall|s: int| 0 <= s < i ==> dst@[s] == src@[s],
            forall|s: int| i <= s < dst@.len() ==> dst@[s] == old(dst)@[s],
        decreases n - i,
    {
        dst[i] = src[i];
        i += 1;
    }
}

/// A list that was `pcs0` with the slots `slots0` has become `pcs9` with
/// `slots9` by adding threads for paths from offset `p`: what was there is
/// there, `pc` is there, and what came is new threads.
#[verifier::opaque]
pub open spec fn added(
    g: Given,
    p: int,
    pos: int,
    pc: int,
    pcs0: Seq<int>,
    slots0: Seq<Slots>,
    pcs9: Seq<int>,
    slots9: Seq<Slots>,
) -> bool {
    &&& pcs0.len() == slots0.len()
    &&& pcs9.len() == slots9.len()
    &&& pcs0.len() <= pcs9.len()
    &&& pcs0 == pcs9.take(pcs0.len() as int)
    &&& slots0 == slots9.take(pcs0.len() as int)
    &&& pcs9.contains(pc)
    &&& fresh(g, p, pos, pcs9, slots9, pcs0.len() as int, pcs9.len() as int)
}

/// Nothing is added for an instruction that has a thread.
pub proof fn lemma_added_present(
    g: Given,
    p: int,
    pos: int,
    pc: int,
    pcs0: Seq<int>,
    slots0: Seq<Slots>,
)
    requires
        pcs0.len() == slots0.len(),
        pcs0.contains(pc),
    ensures
        added(g, p, pos, pc, pcs0, slots0, pcs0, slots0),
{
    reveal(added);
    lemma_fresh_none(g, p, pos, pcs0, slots0, pcs0.len() as int);
    assert(pcs0.take(pcs0.len() as int) =~= pcs0);
    assert(slots0.take(pcs0.len() as int) =~= slots0);
}

/// One sound thread is added for an instruction from which no step that
/// consumes no character leads on.
pub proof fn lemma_added_last(
    g: Given,
    p: int,
    pos: int,
    pc: int,
    pcs0: Seq<int>,
    slots0: Seq<Slots>,
    tc: Slots,
)
    requires
        pcs0.len() == slots0.len(),
        sound_thread(g, pc, p, pos, tc),
        forall|b: (int, int)| !eps_step(g.ops, g.text, (pc, pos), b),
    ensures
        added(g, p, pos, pc, pcs0, slots0, pcs0.push(pc), slots0.push(tc)),
{
    reveal(added);
    let pcs9 = pcs0.push(pc);
    let slots9 = slots0.push(tc);
    assert(pcs9.take(pcs0.len() as int) =~= pcs0);
    assert(slots9.take(pcs0.len() as int) =~= slots0);
    assert(pcs9[pcs0.len() as int] == pc);
    lemma_fresh_one(g, p, pos, pcs9, slots9, pcs0.len() as int);
}

/// A thread for `pc` and what was added for the one instruction `next`
/// that its steps lead to are what is added for `pc`.
pub proof fn lemma_added_one(
    g: Given,
    p: int,
    pos: int,
    pc: int,
    next: int,
    pcs0: Seq<int>,
    slots0: Seq<Slots>,
    tc: Slots,
    pcs9: Seq<int>,
    slots9: Seq<Slots>,
)
    requires
        pcs0.len() == slots0.len(),
        !leaf(g.ops, pc),
        sound_thread(g, pc, p, pos, tc),
        forall|b: (int, int)| eps_step(g.ops, g.text, (pc, pos), b) ==> b.0 == next,
        added(g, p, pos, next, pcs0.push(pc), slots0.push(tc), pcs9, slots9),
    ensures
        added(g, p, pos, pc, pcs0, slots0, pcs9, slots9),
{
    reveal(added);
    let len0 = pcs0.len() as int;
    let pcs1 = pcs0.push(pc);
    let slots1 = slots0.push(tc);
    assert(pcs9.take(len0 + 1)[len0] == pcs9[len0]);
    assert(slots9.take(len0 + 1)[len0] == slots9[len0]);
    assert(pcs9.take(len0) =~= pcs0) by {
        assert forall|i: int| 0 <= i < len0 implies pcs9[i] == pcs0[i] by {
            assert(pcs9.take(len0 + 1)[i] == pcs9[i]);
        }
    }
    assert(slots9.take(len0) =~= slots0) by {
        assert forall|i: int| 0 <= i < len0 implies slots9[i] == slots0[i] by {
            assert(slots9.take(len0 + 1)[i] == slots9[i]);
        }
    }
    lemma_fresh_one(g, p, pos, pcs9, slots9, len0);
    assert(pcs9.take(pcs9.len() as int) =~= pcs9);
    lemma_fresh_join(g, p, pos, pcs9, slots9, pcs9, slots9, len0, len0 + 1, pcs9.len() as int);
}

/// A thread for a split and what was added for its two branches, one
/// after the other, are what is added for the split.
pub proof fn lemma_added_two(
    g: Given,
    p: int,
    pos: int,
    pc: int,
    x: int,
    y: int,
    pcs0: Seq<int>,
    slots0: Seq<Slots>,
    tc: Slots,
    pcs2: Seq<int>,
    slots2: Seq<Slots>,
    pcs9: Seq<int>,
    slots9: Seq<Slots>,
)
    requires
        pcs0.len() == slots0.len(),
        !leaf(g.ops, pc),
        sound_thread(g, pc, p, pos, tc),
        forall|b: (int, int)| eps_step(g.ops, g.text, (pc, pos), b) ==> b.0 == x || b.0 == y,
        added(g, p, pos, x, pcs0.push(pc), slots0.push(tc), pcs2, slots2),
        added(g, p, pos, y, pcs2, slots2, pcs9, slots9),
    ensures
        added(g, p, pos, pc, pcs0, slots0, pcs9, slots9),
{
    reveal(added);
    let len0 = pcs0.len() as int;
    let len2 = pcs2.len() as int;
    assert forall|i: int| 0 <= i < len2 implies pcs2[i] == pcs9[i] && slots2[i] == slots9[i] by {
        assert(pcs9.take(len2)[i] == pcs9[i]);
        assert(slots9.take(len2)[i] == slots9[i]);
    }
    lemma_fresh_join(g, p, pos, pcs2, slots2, pcs9, slots9, len0 + 1, len2, pcs9.len() as int);
    let m = choose|m: int| 0 <= m < pcs2.len() && pcs2[m] == x;
    assert(pcs9[m] == x);
    assert(pcs9.take(len0 + 1) =~= pcs0.push(pc)) by {
        assert forall|i: int| 0 <= i <= len0 implies pcs9[i] == pcs0.push(pc)[i] by {
            assert(pcs2.take(len0 + 1)[i] == pcs2[i]);
        }
    }
    assert(slots9.take(len0 + 1) =~= slots0.push(tc)) by {
        assert forall|i: int| 0 <= i <= len0 implies slots9[i] == slots0.push(tc)[i] by {
            assert(slots2.take(len0 + 1)[i] == slots2[i]);
        }
    }
    assert(added(g, p, pos, x, pcs0.push(pc), slots0.push(tc), pcs9, slots9)) by {
        assert(pcs9.contains(x));
    }
    lemma_added_one_of(g, p, pos, pc, pcs0, slots0, tc, pcs9, slots9);
}

/// A thread for `pc`, and new threads behind it among which every step
/// from `pc` ends, are what is added for `pc`.
proof fn lemma_added_one_of(
    g: Given,
    p: int,
    pos: int,
    pc: int,
    pcs0: Seq<int>,
    slots0: Seq<Slots>,
    tc: Slots,
    pcs9: Seq<int>,
    slots9: Seq<Slots>,
)
    requires
        pcs0.len() == slots0.len(),
        pcs9.len() == slots9.len(),
        pcs0.len() < pcs9.len(),
        !leaf(g.ops, pc),
        sound_thread(g, pc, p, pos, tc),
        forall|b: (int, int)| eps_step(g.ops, g.text, (pc, pos), b) ==> pcs9.contains(b.0),
        pcs9.take(pcs0.len() as int + 1) == pcs0.push(pc),
        slots9.take(pcs0.len() as int + 1) == slots0.push(tc),
        fresh(g, p, pos, pcs9, slots9, pcs0.len() as int + 1, pcs9.len() as int),
    ensures
        added(g, p, pos, pc, pcs0, slots0, pcs9, slots9),
{
    reveal(added);
    let len0 = pcs0.len() as int;
    assert(pcs9.take(len0 + 1)[len0] == pcs9[len0]);
    assert(slots9.take(len0 + 1)[len0] == slots9[len0]);
    assert(pcs9.take(len0) =~= pcs0) by {
        assert forall|i: int| 0 <= i < len0 implies pcs9[i] == pcs0[i] by {
            assert(pcs9.take(len0 + 1)[i] == pcs9[i]);
        }
    }
    assert(slots9.take(len0) =~= slots0) by {
        assert forall|i: int| 0 <= i < len0 implies slots9[i] == slots0[i] by {
            assert(slots9.take(len0 + 1)[i] == slots9[i]);
        }
    }
    lemma_fresh_one(g, p, pos, pcs9, slots9, len0);
    assert(pcs9.take(pcs9.len() as int) =~= pcs9);
    lemma_fresh_join(g, p, pos, pcs9, slots9, pcs9, slots9, len0, len0 + 1, pcs9.len() as int);
}

/// The steps from an instruction that consume no character.
pub proof fn lemma_eps_steps(g: Given, pc: int, pos: int)
    requires
        0 <= pc < g.ops.len(),
    ensures
        forall|b: (int, int)| #[trigger]
            eps_step(g.ops, g.text, (pc, pos), b) ==> (match g.ops[pc] {
                Op::Save(_) => b == (pc + 1, pos),
                Op::Jump(to) => b == (to as int, pos),
                Op::Split(x, y) => b == (x as int, pos) || b == (y as int, pos),
                Op::Look(_) => b == (pc + 1, pos),
                _ => false,
            }),
{
}

impl Front {
    /// The list after threads for paths from offset `p` were added, so
    /// that its instructions are `pcs9` and its slots `slots9`.
    pub open spec fn grown(self, pcs9: Seq<int>, slots9: Seq<Slots>, p: int) -> Front {
        Front {
            pcs: pcs9,
            starts: Seq::new(
                pcs9.len(),
                |i: int|
                    if i < self.starts.len() {
                        self.starts[i]
                    } else {
                        p
                    },
            ),
            slots: slots9,
            pos: self.pos,
        }
    }

    /// No path of a thread starts behind `p`.
    #[verifier::opaque]
    pub open spec fn below(self, p: int) -> bool {
        forall|i: int| 0 <= i < self.starts.len() ==> #[trigger] self.starts[i] <= p
    }

    /// The threads are sound and in order, and their steps that consume no
    /// character stay in the list.
    pub open spec fn good(self, g: Given) -> bool {
        &&& self.shaped()
        &&& self.sound(g, 0, self.pcs.len() as int)
        &&& self.ordered()
        &&& self.closed(g, 0, self.pcs.len() as int)
    }

    /// The list with no thread at offset `pos`.
    pub open spec fn none(pos: int) -> Front {
        Front { pcs: Seq::empty(), starts: Seq::empty(), slots: Seq::empty(), pos }
    }
}

/// The list with no thread is good, and below every offset.
pub proof fn lemma_none_good(g: Given, pos: int, p: int)
    ensures
        Front::none(pos).good(g),
        Front::none(pos).below(p),
{
    reveal(Front::sound);
    reveal(Front::ordered);
    reveal(Front::closed);
    reveal(Front::below);
}

/// A good list to which threads were added for paths from an offset that
/// is behind no path of the list is a good list, and holds what it held.
pub proof fn lemma_grow(
    g: Given,
    f0: Front,
    p: int,
    pc: int,
    pcs9: Seq<int>,
    slots9: Seq<Slots>,
)
    requires
        f0.good(g),
        f0.below(p),
        f0.pcs.len() == f0.slots.len(),
        added(g, p, f0.pos, pc, f0.pcs, f0.slots, pcs9, slots9),
    ensures
        f0.grown(pcs9, slots9, p).good(g),
        f0.grown(pcs9, slots9, p).below(p),
        f0.grown(pcs9, slots9, p).has(pc, p),
        forall|pc2: int, s: int| f0.has(pc2, s) ==> f0.grown(pcs9, slots9, p).has(pc2, s),
{
    reveal(added);
    reveal(fresh);
    reveal(Front::sound);
    reveal(Front::ordered);
    reveal(Front::closed);
    reveal(Front::below);
    let f9 = f0.grown(pcs9, slots9, p);
    let len0 = f0.pcs.len() as int;
    assert forall|i: int| 0 <= i < len0 implies f9.pcs[i] == f0.pcs[i] && f9.slots[i] == f0.slots[i]
        && f9.starts[i] == f0.starts[i] by {
        assert(pcs9.take(len0)[i] == pcs9[i]);
        assert(slots9.take(len0)[i] == slots9[i]);
    }
    assert forall|pc2: int, s: int| f0.has(pc2, s) implies f9.has(pc2, s) by {
        let m = choose|m: int| 0 <= m < f0.pcs.len() && #[trigger] f0.pcs[m] == pc2 && f0.starts[m] <= s;
        assert(f9.pcs[m] == pc2 && f9.starts[m] <= s);
    }
    assert forall|i: int, b: (int, int)|
        0 <= i < f9.pcs.len() && #[trigger] eps_step(g.ops, g.text, (f9.pcs[i], f9.pos), b) implies f9.has(
        b.0,
        f9.starts[i],
    ) by {
        if i < len0 {
            assert(eps_step(g.ops, g.text, (f0.pcs[i], f0.pos), b));
            assert(f0.has(b.0, f0.starts[i]));
        } else {
            assert(pcs9.contains(b.0));
            let m = choose|m: int| 0 <= m < pcs9.len() && pcs9[m] == b.0;
            assert(f9.pcs[m] == b.0 && f9.starts[m] <= p);
        }
    }
    let m = choose|m: int| 0 <= m < pcs9.len() && pcs9[m] == pc;
    assert(f9.pcs[m] == pc && f9.starts[m] <= p);
}

/// Where a list holds a thread for a place on a path that stays at the
/// list's offset from then on, it holds a thread for the place where the
/// path ends, with a path that starts no later.
pub proof fn lemma_closure_walk(
    g: Given,
    f: Front,
    path: Seq<(int, int)>,
    t: int,
    s: int,
)
    requires
        g.wf(),
        f.shaped(),
        f.closed(g, 0, f.pcs.len() as int),
        is_path(g.ops, g.text, path),
        boundary(g.text, f.pos),
        0 <= t < path.len(),
        forall|u: int| t <= u < path.len() ==> path[u].1 == f.pos,
        f.has(path[t].0, s),
    ensures
        f.has(path.last().0, s),
    decreases path.len() - t,
{
    if t < path.len() - 1 {
        reveal(Front::closed);
        let m = choose|m: int| 0 <= m < f.pcs.len() && #[trigger] f.pcs[m] == path[t].0 && f.starts[m] <= s;
        assert(step_at(g.ops, g.text, path, t));
        assert(path[t] == (path[t].0, f.pos));
        lemma_step_stays(g.ops, g.text, path[t], path[t + 1]);
        assert(eps_step(g.ops, g.text, (f.pcs[m], f.pos), path[t + 1]));
        assert(f.has(path[t + 1].0, f.starts[m]));
        let m2 = choose|m2: int|
            0 <= m2 < f.pcs.len() && #[trigger] f.pcs[m2] == path[t + 1].0 && f.starts[m2] <= f.starts[m];
        assert(f.pcs[m2] == path[t + 1].0 && f.starts[m2] <= s);
        lemma_closure_walk(g, f, path, t + 1, s);
    }
}

/// A place that a path from the first instruction at `q` reaches, and
/// from which a `Match` can be reached, is on a match from `q`.
pub proof fn lemma_join_match(g: Given, q: int, pc: int, pos: int)
    requires
        joins(g.ops, g.text, q, pc, pos),
        accepts(g.ops, g.text, (pc, pos)),
    ensures
        matches_at(g.ops, g.text, q),
{
    let path = choose|path: Seq<(int, int)>|
        #![trigger is_path(g.ops, g.text, path)]
        is_path(g.ops, g.text, path) && path[0] == (0int, q) && path.last() == (pc, pos);
    lemma_accepts_back(g.ops, g.text, path);
}

/// Every place on a match from `q` is one that a path from `q` reaches
/// and from which a `Match` can be reached.
pub proof fn lemma_on_run(g: Given, path: Seq<(int, int)>, q: int, t: int)
    requires
        is_run(g.ops, g.text, path, (0, q)),
        0 <= t < path.len(),
    ensures
        joins(g.ops, g.text, q, path[t].0, path[t].1),
        accepts(g.ops, g.text, path[t]),
{
    lemma_path_head(g.ops, g.text, path, t);
    assert(is_path(g.ops, g.text, path.take(t + 1)));
    crate::run::lemma_run_tail(g.ops, g.text, path, (0, q), t);
}

/// Where no match starts before `bound`, every list is complete up to
/// `bound`, and no match from before `bound` ends anywhere.
pub proof fn lemma_restart(g: Given, f: Front, bound: int, upto: int)
    requires
        none_before(g.ops, g.text, g.start, bound),
    ensures
        f.complete(g, bound),
        none_ends_before(g, bound, upto),
{
    reveal(Front::complete);
    reveal(none_ends_before);
    assert forall|q: int, pc: int|
        g.start <= q < bound && boundary(g.text, q) && #[trigger] joins(g.ops, g.text, q, pc, f.pos)
            && accepts(g.ops, g.text, (pc, f.pos)) implies f.has(pc, q) by {
        lemma_join_match(g, q, pc, f.pos);
    }
    assert forall|q: int, path: Seq<(int, int)>|
        g.start <= q < bound && boundary(g.text, q) && #[trigger] is_run(g.ops, g.text, path, (0, q))
        implies path.last().1 >= upto by {
        assert(matches_at(g.ops, g.text, q));
    }
}

/// Where a list that is complete up to `bound` holds no thread, and every
/// match from before `bound` ends at or behind the list's offset, no match
/// starts before `bound`.
pub proof fn lemma_none_alive(g: Given, f: Front, bound: int)
    requires
        g.wf(),
        f.pcs.len() == 0,
        f.complete(g, bound),
        none_ends_before(g, bound, f.pos),
        boundary(g.text, f.pos),
        bound <= f.pos + 1,
    ensures
        none_before(g.ops, g.text, g.start, bound),
{
    reveal(Front::complete);
    reveal(none_ends_before);
    assert forall|q: int| g.start <= q < bound && boundary(g.text, q) implies !#[trigger] matches_at(
        g.ops,
        g.text,
        q,
    ) by {
        if matches_at(g.ops, g.text, q) {
            let path = choose|path: Seq<(int, int)>| is_run(g.ops, g.text, path, (0, q));
            let t = lemma_path_arrives(g.ops, g.text, path, f.pos, 0);
            lemma_on_run(g, path, q, t);
            assert(f.has(path[t].0, q));
        }
    }
}

/// No match from before `bound` ends before `upto`, where none starts
/// before `bound`.
pub proof fn lemma_none_after(g: Given, bound: int, upto: int)
    requires
        g.wf(),
        none_ends_before(g, bound, upto),
        upto > g.text.len(),
    ensures
        none_before(g.ops, g.text, g.start, bound),
{
    reveal(none_ends_before);
    assert forall|q: int| g.start <= q < bound && boundary(g.text, q) implies !#[trigger] matches_at(
        g.ops,
        g.text,
        q,
    ) by {
        if matches_at(g.ops, g.text, q) {
            let path = choose|path: Seq<(int, int)>| is_run(g.ops, g.text, path, (0, q));
            lemma_path_boundary(g.ops, g.text, path, path.len() - 1);
        }
    }
}

/// The instruction `pc` consumes the character at offset `pos`.
pub open spec fn consumes(g: Given, pc: int, pos: int) -> bool {
    &&& 0 <= pc < g.ops.len()
    &&& g.ops[pc] is Char || g.ops[pc] is Ranges
    &&& steps(g.ops, g.text, (pc, pos), (pc + 1, next_pos(g.text, pos)))
}

/// For each of the first `i` threads of `cur` whose instruction consumes
/// the character at the offset of `cur`, `nxt` holds a thread for the next
/// instruction, with a path that starts no later.
#[verifier::opaque]
pub open spec fn carried(g: Given, cur: Front, nxt: Front, i: int) -> bool {
    forall|j: int|
        0 <= j < i && consumes(g, #[trigger] cur.pcs[j], cur.pos) ==> nxt.has(cur.pcs[j] + 1, cur.starts[j])
}

/// None of the first `i` threads is at a `Match`.
#[verifier::opaque]
pub open spec fn no_match(g: Given, cur: Front, i: int) -> bool {
    forall|j: int| 0 <= j < i ==> !accepting(g.ops, (#[trigger] cur.pcs[j], cur.pos))
}

/// The paths of the threads from `i` on start at or behind `bound`.
#[verifier::opaque]
pub open spec fn rest_from(cur: Front, i: int, bound: int) -> bool {
    forall|j: int| i <= j < cur.starts.len() ==> bound <= #[trigger] cur.starts[j]
}

/// After the first `i` threads of `cur` were stepped, with no `Match`
/// among them, no match from before `bound` ends at the offset of `cur`.
pub proof fn lemma_pass_none(g: Given, cur: Front, i: int, bound1: int, bound2: int)
    requires
        g.wf(),
        cur.shaped(),
        cur.complete(g, bound1),
        none_ends_before(g, bound1, cur.pos),
        no_match(g, cur, i),
        rest_from(cur, i, bound2),
        bound2 <= bound1,
        0 <= i <= cur.pcs.len(),
    ensures
        none_ends_before(g, bound2, cur.pos + 1),
{
    reveal(Front::complete);
    reveal(none_ends_before);
    reveal(no_match);
    reveal(rest_from);
    assert forall|q: int, path: Seq<(int, int)>|
        g.start <= q < bound2 && boundary(g.text, q) && #[trigger] is_run(g.ops, g.text, path, (0, q))
        implies path.last().1 >= cur.pos + 1 by {
        if path.last().1 == cur.pos {
            lemma_on_run(g, path, q, path.len() - 1);
            assert(cur.has(path.last().0, q));
            let m = choose|m: int|
                0 <= m < cur.pcs.len() && #[trigger] cur.pcs[m] == path.last().0 && cur.starts[m] <= q;
            assert(m < i);
            assert(accepting(g.ops, (cur.pcs[m], cur.pos)));
        }
    }
}

/// After the first `i` threads of `cur` were stepped, the list `nxt` of
/// what they led to is complete up to `bound`, if no path of a later
/// thread starts before `bound`.
pub proof fn lemma_pass_complete(
    g: Given,
    cur: Front,
    nxt: Front,
    i: int,
    bound1: int,
    bound2: int,
)
    requires
        g.wf(),
        cur.shaped(),
        nxt.shaped(),
        cur.complete(g, bound1),
        nxt.closed(g, 0, nxt.pcs.len() as int),
        boundary(g.text, cur.pos),
        cur.pos < g.text.len(),
        nxt.pos == next_pos(g.text, cur.pos),
        carried(g, cur, nxt, i),
        rest_from(cur, i, bound2),
        bound2 <= bound1 <= cur.pos + 1,
        0 <= i <= cur.pcs.len(),
    ensures
        nxt.complete(g, bound2),
{
    reveal(Front::complete);
    reveal(carried);
    reveal(rest_from);
    lemma_next_boundary(g.text, cur.pos);
    lemma_prev_of_next(g.text, cur.pos);
    assert forall|q: int, pc: int|
        g.start <= q < bound2 && boundary(g.text, q) && #[trigger] joins(g.ops, g.text, q, pc, nxt.pos)
            && accepts(g.ops, g.text, (pc, nxt.pos)) implies nxt.has(pc, q) by {
        let path = choose|path: Seq<(int, int)>|
            #![trigger is_path(g.ops, g.text, path)]
            is_path(g.ops, g.text, path) && path[0] == (0int, q) && path.last() == (pc, nxt.pos);
        let t = lemma_path_crosses(g.ops, g.text, path);
        lemma_prev_of_next(g.text, path[t].1);
        assert(path[t].1 == cur.pos);
        lemma_path_head(g.ops, g.text, path, t);
        assert(is_path(g.ops, g.text, path.take(t + 1)));
        assert(joins(g.ops, g.text, q, path[t].0, cur.pos));
        lemma_path_tail(g.ops, g.text, path, t);
        lemma_accepts_back(g.ops, g.text, path.subrange(t, path.len() as int));
        assert(cur.has(path[t].0, q));
        let m = choose|m: int|
            0 <= m < cur.pcs.len() && #[trigger] cur.pcs[m] == path[t].0 && cur.starts[m] <= q;
        assert(m < i);
        assert(consumes(g, cur.pcs[m], cur.pos));
        assert(nxt.has(path[t].0 + 1, cur.starts[m]));
        let m2 = choose|m2: int|
            0 <= m2 < nxt.pcs.len() && #[trigger] nxt.pcs[m2] == path[t].0 + 1 && nxt.starts[m2]
                <= cur.starts[m];
        assert(nxt.pcs[m2] == path[t + 1].0 && nxt.starts[m2] <= q);
        lemma_closure_walk(g, nxt, path, t + 1, q);
    }
}

/// What holds up to a bound holds up to each later bound before which no
/// further boundary lies.
pub proof fn lemma_bump(g: Given, f: Front, bound: int, later: int, upto: int, further: int)
    requires
        g.wf(),
        f.complete(g, bound),
        none_ends_before(g, bound, upto),
        bound <= later,
        none_before(g.ops, g.text, bound, later),
        upto <= further,
        forall|k: int| upto <= k < further ==> !boundary(g.text, k),
    ensures
        f.complete(g, later),
        none_ends_before(g, later, further),
{
    reveal(Front::complete);
    reveal(none_ends_before);
    assert forall|q: int, pc: int|
        g.start <= q < later && boundary(g.text, q) && #[trigger] joins(g.ops, g.text, q, pc, f.pos)
            && accepts(g.ops, g.text, (pc, f.pos)) implies f.has(pc, q) by {
        if bound <= q {
            lemma_join_match(g, q, pc, f.pos);
        }
    }
    assert forall|q: int, path: Seq<(int, int)>|
        g.start <= q < later && boundary(g.text, q) && #[trigger] is_run(g.ops, g.text, path, (0, q))
        implies path.last().1 >= further by {
        if bound <= q {
            assert(matches_at(g.ops, g.text, q));
        } else {
            lemma_path_boundary(g.ops, g.text, path, path.len() - 1);
        }
    }
}

/// A sound thread that waits at its instruction carries its slots.
pub proof fn lemma_sound_carry(g: Given, f: Front, i: int)
    requires
        f.shaped(),
        f.sound(g, 0, f.pcs.len() as int),
        0 <= i < f.pcs.len(),
    ensures
        g.start <= f.starts[i] <= f.pos,
        boundary(g.text, f.starts[i]),
        leaf(g.ops, f.pcs[i]) ==> carries(g, f.starts[i], f.pcs[i], f.pos, f.slots[i]),
{
    reveal(Front::sound);
    reveal(carries);
    assert(sound_thread(g, f.pcs[i], f.starts[i], f.pos, f.slots[i]));
}

/// A good list that holds a thread for the first instruction with a path
/// from its own offset, and all that a list held that was complete up to
/// its offset, is complete up to behind its offset.
pub proof fn lemma_seed(g: Given, f0: Front, f9: Front)
    requires
        g.wf(),
        f0.pos == f9.pos,
        boundary(g.text, f9.pos),
        f0.complete(g, f0.pos),
        none_ends_before(g, f0.pos, f0.pos),
        forall|pc: int, s: int| f0.has(pc, s) ==> f9.has(pc, s),
        f9.good(g),
        f9.has(0, f9.pos),
    ensures
        f9.complete(g, f9.pos + 1),
        none_ends_before(g, f9.pos + 1, f9.pos),
{
    reveal(Front::complete);
    reveal(none_ends_before);
    let k = f9.pos;
    assert forall|q: int, pc: int|
        g.start <= q < k + 1 && boundary(g.text, q) && #[trigger] joins(g.ops, g.text, q, pc, k)
            && accepts(g.ops, g.text, (pc, k)) implies f9.has(pc, q) by {
        if q < k {
            assert(f0.has(pc, q));
        } else {
            let path = choose|path: Seq<(int, int)>|
                #![trigger is_path(g.ops, g.text, path)]
                is_path(g.ops, g.text, path) && path[0] == (0int, q) && path.last() == (pc, k);
            assert forall|u: int| 0 <= u < path.len() implies path[u].1 == k by {
                lemma_path_mono(g.ops, g.text, path, 0, u);
                lemma_path_mono(g.ops, g.text, path, u, path.len() - 1);
            }
            lemma_closure_walk(g, f9, path, 0, k);
        }
    }
    assert forall|q: int, path: Seq<(int, int)>|
        g.start <= q < k + 1 && boundary(g.text, q) && #[trigger] is_run(g.ops, g.text, path, (0, q))
        implies path.last().1 >= k by {
        if q == k {
            lemma_path_mono(g.ops, g.text, path, 0, path.len() - 1);
        }
    }
}

/// The first offset from `from` on from which the program matches, where
/// it matches from `found`.
pub proof fn lemma_least(ops: Seq<Op>, text: Seq<u8>, start: int, from: int, found: int) -> (p: int)
    requires
        start <= from <= found,
        boundary(text, found),
        matches_at(ops, text, found),
        none_before(ops, text, start, from),
    ensures
        leftmost(ops, text, start, p),
    decreases found - from,
{
    if from == found {
        found
    } else if boundary(text, from) && matches_at(ops, text, from) {
        from
    } else {
        lemma_least(ops, text, start, from + 1, found)
    }
}

/// A match that is found with no slots to fill is reported as the leftmost
/// match.
pub proof fn lemma_existence(ops: Seq<Op>, text: Seq<u8>, start: int, found: int, caps: Slots)
    requires
        start <= found,
        boundary(text, found),
        matches_at(ops, text, found),
        caps.len() == 0,
    ensures
        is_match(ops, text, start),
        exists|p: int, path: Seq<(int, int)>|
            leftmost(ops, text, start, p) && #[trigger] reports(ops, text, p, path, caps, caps),
{
    let p = lemma_least(ops, text, start, start, found);
    let path = choose|path: Seq<(int, int)>| is_run(ops, text, path, (0, p));
    lemma_caps_len(ops, path, caps);
    assert(caps_after(ops, path, caps) =~= caps);
    assert(reports(ops, text, p, path, caps, caps));
}

/// A match that is found with no slots to fill settles the search.
pub proof fn lemma_settled_early(g: Given, found: int, caps: Slots)
    requires
        g.start <= found,
        boundary(g.text, found),
        matches_at(g.ops, g.text, found),
        caps.len() == 0,
        g.caps0 == caps,
    ensures
        settled(g, true, caps),
{
    reveal(settled);
    lemma_existence(g.ops, g.text, g.start, found, caps);
    assert(outcome(g.ops, g.text, g.start, g.caps0, true, caps));
}

/// One more stepped thread: what was carried is carried, where the list
/// of what the threads led to holds what it held, and holds what the new
/// thread led to.
pub proof fn lemma_carried_more(g: Given, cur: Front, nxt0: Front, nxt9: Front, i: int)
    requires
        carried(g, cur, nxt0, i),
        forall|pc: int, s: int| nxt0.has(pc, s) ==> nxt9.has(pc, s),
        consumes(g, cur.pcs[i], cur.pos) ==> nxt9.has(cur.pcs[i] + 1, cur.starts[i]),
    ensures
        carried(g, cur, nxt9, i + 1),
{
    reveal(carried);
}

/// One more stepped thread that is at no `Match`.
pub proof fn lemma_no_match_more(g: Given, cur: Front, i: int)
    requires
        no_match(g, cur, i),
        !accepting(g.ops, (cur.pcs[i], cur.pos)),
    ensures
        no_match(g, cur, i + 1),
{
    reveal(no_match);
}

/// Nothing was stepped yet.
pub proof fn lemma_pass_start(g: Given, cur: Front, nxt: Front)
    ensures
        carried(g, cur, nxt, 0),
        no_match(g, cur, 0),
{
    reveal(carried);
    reveal(no_match);
}

/// In a list in order, the paths of the threads from `i` on start no
/// earlier than that of thread `i`; and behind the last thread there are
/// none.
pub proof fn lemma_rest(cur: Front, i: int, bound: int)
    requires
        cur.ordered(),
        0 <= i <= cur.starts.len(),
        i < cur.starts.len() ==> bound <= cur.starts[i],
    ensures
        rest_from(cur, i, bound),
{
    reveal(Front::ordered);
    reveal(rest_from);
}

/// What is below an offset is below each later offset, and a list in
/// order below the start of the path of a thread is below the start of the
/// next.
pub proof fn lemma_below(f: Front, p: int, later: int)
    requires
        f.below(p),
        p <= later,
    ensures
        f.below(later),
{
    reveal(Front::below);
}

/// The path of each thread of a list starts at or before what the list is
/// below, and no later than the paths of the threads behind it.
pub proof fn lemma_starts(f: Front, top: int, i: int)
    requires
        f.ordered(),
        f.below(top),
        0 <= i < f.starts.len(),
    ensures
        f.starts[i] <= top,
        i + 1 < f.starts.len() ==> f.starts[i] <= f.starts[i + 1],
{
    reveal(Front::ordered);
    reveal(Front::below);
}

/// How one round of the simulation ended.
enum Round {
    /// The search is over, with this result.
    Done(bool),
    /// The search goes on at a place; the flag says whether a match was
    /// found so far.
    On(InputAt, bool),
}

/// A run of the simulation on one text with one program.
pub struct Nfa<'r, 't> {
    prog: &'r Program,
    input: CharInput<'t>,
}

impl Threads {
    /// Copies the first slots of `src` over the first slots of thread `i`.
    fn store(&mut self, i: usize, src: &[Option<usize>])
        requires
            old(self).wf(),
            i < old(self).pcs().len(),
        ensures
            final(self).wf(),
            final(self).room() == old(self).room(),
            final(self).pcs() == old(self).pcs(),
            forall|width: nat| old(self).uniform(width) ==> final(self).uniform(width),
            final(self).all_slots().len() == old(self).all_slots().len(),
            forall|k: int|
                0 <= k < old(self).pcs().len() && k != i ==> final(self).all_slots()[k] == old(
                    self,
                ).all_slots()[k],
            final(self).all_slots()[i as int].len() == old(self).all_slots()[i as int].len(),
            forall|s: int|
                0 <= s < old(self).all_slots()[i as int].len() ==> final(self).all_slots()[i as int][s]
                    == (if s < src@.len() {
                    src@[s]
                } else {
                    old(self).all_slots()[i as int][s]
                }),
    {
        let t = &mut self.dense[i].caps;
        copy_slots(t.as_mut_slice(), src);
        proof {
            assert(self.pcs() =~= old(self).pcs());
        }
    }
}

impl<'r, 't> Nfa<'r, 't> {
    /// The instructions of the program.
    pub closed spec fn ops(&self) -> Seq<Op> {
        self.prog.ops()
    }

    /// The bytes of the text.
    pub closed spec fn text(&self) -> Seq<u8> {
        self.input.text()
    }

    /// The program is well formed, and `g` is what this run is given.
    #[verifier::opaque]
    pub closed spec fn ready(&self, g: Given) -> bool {
        &&& self.prog.wf()
        &&& g.ops == self.prog.ops()
        &&& g.text == self.input.text()
        &&& g.wf()
    }

    /// The number of slots of each thread.
    pub closed spec fn width(&self) -> nat {
        2 * captures_of(self.prog.ops())
    }

    /// A run with a well-formed program, from a boundary, is ready.
    proof fn lemma_ready(&self, g: Given)
        requires
            self.prog.wf(),
            g.ops == self.ops(),
            g.text == self.text(),
            boundary(g.text, g.start),
        ensures
            self.ready(g),
            g.wf(),
    {
        reveal(Nfa::ready);
    }

    /// Adds to `nlist` a thread for `pc` and for every instruction that can
    /// be reached from it at `at` without consuming a character, unless
    /// there is one. `thread_caps` are the slots of the path to `pc`; they
    /// are changed on the way and are the same at the end.
    fn add(
        &self,
        nlist: &mut Threads,
        pc: usize,
        thread_caps: &mut [Option<usize>],
        at: InputAt,
        Ghost(g): Ghost<Given>,
        Ghost(p): Ghost<int>,
        Ghost(cs): Ghost<Seq<int>>,
        Ghost(paths): Ghost<Seq<Seq<(int, int)>>>,
        Ghost(way): Ghost<Seq<(int, int)>>,
    ) -> (r: Ghost<Seq<Seq<(int, int)>>>)
        requires
            self.ready(g),
            old(nlist).wf(),
            old(nlist).room() == g.ops.len(),
            old(nlist).uniform(self.width()),
            g.caps0.len() <= self.width(),
            g.caps0.len() <= old(thread_caps)@.len(),
            pc < g.ops.len(),
            placed(g.text, at),
            g.start <= p <= at@.0,
            boundary(g.text, p),
            carries(g, p, pc as int, at@.0, old(thread_caps)@),
            way.len() > 0 && way.last() == (pc as int, at@.0),
            entry(g, old(nlist).front(cs, at@.0), paths, way, p, old(thread_caps)@),
        ensures
            final(nlist).wf(),
            final(nlist).room() == g.ops.len(),
            final(nlist).uniform(self.width()),
            final(thread_caps)@ == old(thread_caps)@,
            old(nlist).pcs().len() <= final(nlist).pcs().len(),
            added(
                g,
                p,
                at@.0,
                pc as int,
                old(nlist).pcs(),
                old(nlist).all_slots(),
                final(nlist).pcs(),
                final(nlist).all_slots(),
            ),
            grew(
                g,
                p,
                way,
                old(nlist).front(cs, at@.0),
                paths,
                old(nlist).front(cs, at@.0).grown(final(nlist).pcs(), final(nlist).all_slots(), p),
                r@,
            ),
        decreases g.ops.len() - old(nlist).pcs().len(),
    {
        let ghost pos = at@.0;
        let ghost pcs0 = nlist.pcs();
        let ghost slots0 = nlist.all_slots();
        let ghost tc0 = thread_caps@;
        let ghost f0 = nlist.front(cs, pos);
        proof {
            reveal(Nfa::ready);
            nlist.lemma_all_slots();
            nlist.lemma_wf();
            lemma_entry_open(g, f0, paths, way, p, tc0);
        }
        if nlist.contains(pc) {
            proof {
                lemma_added_present(g, p, pos, pc as int, pcs0, slots0);
                lemma_grew_present(g, p, way, f0, paths, tc0);
                assert(f0.grown(pcs0, slots0, p) == f0) by {
                    assert(f0.grown(pcs0, slots0, p).starts =~= f0.starts);
                }
            }
            return Ghost(paths);
        }
        let ti = nlist.add(pc);
        let ghost slots1 = nlist.all_slots();
        let ghost stale = slots1[ti as int];
        let ghost cs1 = cs.push(p);
        let ghost paths1 = paths.push(way);
        let ghost f1 = nlist.front(cs1, pos);
        let ghost mut paths9 = paths1;
        proof {
            nlist.lemma_all_slots();
            nlist.lemma_wf();
            assert(slots1 =~= slots0.push(stale));
            assert(f1 == pushed(f0, pc as int, p, stale));
            assert(g.ops[pc as int] == self.prog.insts@[pc as int]@);
            assert(inst_ok(g.ops, pc as int));
            lemma_eps_steps(g, pc as int, pos);
            lemma_carry_sound(g, p, pc as int, pos, tc0, stale);
        }
        match &self.prog.insts[pc] {
            Inst::EmptyLook(look) => {
                let prev = self.input.previous_at(at.pos());
                if look.matches(prev.char(), at.char()) {
                    proof {
                        lemma_carry_step(g, p, pc as int, pos, tc0, (pc + 1, pos));
                        lemma_entry_child(g, p, way, f0, paths, tc0, stale, (pc + 1, pos));
                    }
                    let Ghost(got) = self.add(
                        nlist,
                        pc + 1,
                        thread_caps,
                        at,
                        Ghost(g),
                        Ghost(p),
                        Ghost(cs1),
                        Ghost(paths1),
                        Ghost(way.push((pc + 1, pos))),
                    );
                    proof {
                        paths9 = got;
                        lemma_added_one(
                            g,
                            p,
                            pos,
                            pc as int,
                            pc + 1,
                            pcs0,
                            slots0,
                            stale,
                            nlist.pcs(),
                            nlist.all_slots(),
                        );
                        lemma_grown_twice(f0, pc as int, stale, nlist.pcs(), nlist.all_slots(), p);
                        lemma_grew_one(
                            g,
                            p,
                            way,
                            f0,
                            paths,
                            tc0,
                            stale,
                            (pc + 1, pos),
                            f0.grown(nlist.pcs(), nlist.all_slots(), p),
                            paths9,
                        );
                    }
                } else {
                    proof {
                        lemma_added_last(g, p, pos, pc as int, pcs0, slots0, stale);
                        lemma_grew_last(g, p, way, f0, paths, tc0, stale);
                        lemma_grown_once(f0, pc as int, stale, p);
                    }
                }
            },
            Inst::Save(slot) => {
                proof {
                    lemma_carry_step(g, p, pc as int, pos, tc0, (pc + 1, pos));
                    lemma_entry_child(g, p, way, f0, paths, tc0, stale, (pc + 1, pos));
                }
                if *slot >= thread_caps.len() {
                    let Ghost(got) = self.add(
                        nlist,
                        pc + 1,
                        thread_caps,
                        at,
                        Ghost(g),
                        Ghost(p),
                        Ghost(cs1),
                        Ghost(paths1),
                        Ghost(way.push((pc + 1, pos))),
                    );
                    proof {
                        paths9 = got;
                    }
                } else {
                    let old = thread_caps[*slot];
                    thread_caps[*slot] = Some(at.pos());
                    let Ghost(got) = self.add(
                        nlist,
                        pc + 1,
                        thread_caps,
                        at,
                        Ghost(g),
                        Ghost(p),
                        Ghost(cs1),
                        Ghost(paths1),
                        Ghost(way.push((pc + 1, pos))),
                    );
                    thread_caps[*slot] = old;
                    proof {
                        paths9 = got;
                        assert(thread_caps@ =~= tc0);
                    }
                }
                proof {
                    lemma_added_one(
                        g,
                        p,
                        pos,
                        pc as int,
                        pc + 1,
                        pcs0,
                        slots0,
                        stale,
                        nlist.pcs(),
                        nlist.all_slots(),
                    );
                    lemma_grown_twice(f0, pc as int, stale, nlist.pcs(), nlist.all_slots(), p);
                    lemma_grew_one(
                        g,
                        p,
                        way,
                        f0,
                        paths,
                        tc0,
                        stale,
                        (pc + 1, pos),
                        f0.grown(nlist.pcs(), nlist.all_slots(), p),
                        paths9,
                    );
                }
            },
            Inst::Jump(to) => {
                proof {
                    lemma_carry_step(g, p, pc as int, pos, tc0, (*to as int, pos));
                    lemma_entry_child(g, p, way, f0, paths, tc0, stale, (*to as int, pos));
                }
                let Ghost(got) = self.add(
                    nlist,
                    *to,
                    thread_caps,
                    at,
                    Ghost(g),
                    Ghost(p),
                    Ghost(cs1),
                    Ghost(paths1),
                    Ghost(way.push((*to as int, pos))),
                );
                proof {
                    paths9 = got;
                    lemma_added_one(
                        g,
                        p,
                        pos,
                        pc as int,
                        *to as int,
                        pcs0,
                        slots0,
                        stale,
                        nlist.pcs(),
                        nlist.all_slots(),
                    );
                    lemma_grown_twice(f0, pc as int, stale, nlist.pcs(), nlist.all_slots(), p);
                    lemma_grew_one(
                        g,
                        p,
                        way,
                        f0,
                        paths,
                        tc0,
                        stale,
                        (*to as int, pos),
                        f0.grown(nlist.pcs(), nlist.all_slots(), p),
                        paths9,
                    );
                }
            },
            Inst::Split(x, y) => {
                proof {
                    lemma_carry_step(g, p, pc as int, pos, tc0, (*x as int, pos));
                    lemma_carry_step(g, p, pc as int, pos, tc0, (*y as int, pos));
                    lemma_entry_child(g, p, way, f0, paths, tc0, stale, (*x as int, pos));
                }
                let Ghost(got2) = self.add(
                    nlist,
                    *x,
                    thread_caps,
                    at,
                    Ghost(g),
                    Ghost(p),
                    Ghost(cs1),
                    Ghost(paths1),
                    Ghost(way.push((*x as int, pos))),
                );
                let ghost pcs2 = nlist.pcs();
                let ghost slots2 = nlist.all_slots();
                let ghost f2 = f1.grown(pcs2, slots2, p);
                proof {
                    reveal(added);
                    nlist.lemma_all_slots();
                    lemma_entry_second(
                        g,
                        p,
                        way,
                        f0,
                        paths,
                        tc0,
                        stale,
                        (*x as int, pos),
                        (*y as int, pos),
                        f2,
                        got2,
                    );
                    assert(f2 == nlist.front(f2.starts, pos));
                }
                let Ghost(got9) = self.add(
                    nlist,
                    *y,
                    thread_caps,
                    at,
                    Ghost(g),
                    Ghost(p),
                    Ghost(f2.starts),
                    Ghost(got2),
                    Ghost(way.push((*y as int, pos))),
                );
                proof {
                    paths9 = got9;
                    lemma_added_two(
                        g,
                        p,
                        pos,
                        pc as int,
                        *x as int,
                        *y as int,
                        pcs0,
                        slots0,
                        stale,
                        pcs2,
                        slots2,
                        nlist.pcs(),
                        nlist.all_slots(),
                    );
                    lemma_grown_thrice(
                        f0,
                        pc as int,
                        stale,
                        pcs2,
                        slots2,
                        nlist.pcs(),
                        nlist.all_slots(),
                        p,
                    );
                    lemma_grew_two(
                        g,
                        p,
                        way,
                        f0,
                        paths,
                        tc0,
                        stale,
                        (*x as int, pos),
                        (*y as int, pos),
                        f2,
                        got2,
                        f0.grown(nlist.pcs(), nlist.all_slots(), p),
                        paths9,
                    );
                }
            },
            _ => {
                nlist.store(ti, thread_caps);
                proof {
                    nlist.lemma_all_slots();
                    let copy = nlist.all_slots()[ti as int];
                    lemma_carry_copy(g, p, pc as int, pos, tc0, copy);
                    lemma_carry_sound(g, p, pc as int, pos, copy, tc0);
                    assert(nlist.all_slots() =~= slots0.push(copy));
                    lemma_added_last(g, p, pos, pc as int, pcs0, slots0, copy);
                    lemma_entry_copy(g, f0, paths, way, p, tc0, copy);
                    lemma_grew_last(g, p, way, f0, paths, tc0, copy);
                    lemma_grown_once(f0, pc as int, copy, p);
                }
            },
        }
        Ghost(paths9)
    }
}

impl Threads {
    /// The threads as a list at offset `pos`, with `starts` as the offsets
    /// where their paths start.
    pub open spec fn front(&self, starts: Seq<int>, pos: int) -> Front {
        Front { pcs: self.pcs(), starts, slots: self.all_slots(), pos }
    }
}

impl<'r, 't> Nfa<'r, 't> {
    /// Steps the thread for `pc` with the slots `thread_caps` over the
    /// character at `at`: at a `Match`, copies the slots to `caps` and says
    /// so; at an instruction that consumes the character, adds threads for
    /// what follows to `nlist`.
    fn step(
        &self,
        caps: &mut [Option<usize>],
        nlist: &mut Threads,
        thread_caps: &mut [Option<usize>],
        pc: usize,
        at: InputAt,
        at_next: InputAt,
        Ghost(g): Ghost<Given>,
        Ghost(p): Ghost<int>,
        Ghost(ns): Ghost<Seq<int>>,
        Ghost(np): Ghost<Seq<Seq<(int, int)>>>,
        Ghost(way): Ghost<Seq<(int, int)>>,
    ) -> (r: (bool, Ghost<Seq<Seq<(int, int)>>>))
        requires
            self.ready(g),
            old(nlist).wf(),
            old(nlist).room() == g.ops.len(),
            old(nlist).uniform(self.width()),
            g.caps0.len() <= self.width(),
            g.caps0.len() <= old(thread_caps)@.len(),
            old(caps)@.len() == g.caps0.len(),
            pc < g.ops.len(),
            placed(g.text, at),
            at@.1 is Some ==> placed(g.text, at_next) && at_next@.0 == next_pos(g.text, at@.0),
            g.start <= p <= at@.0,
            boundary(g.text, p),
            leaf(g.ops, pc as int) ==> carries(g, p, pc as int, at@.0, old(thread_caps)@),
            accepting(g.ops, (pc as int, at@.0)) ==> is_run(g.ops, g.text, way, (0, p)) && prefix_of(
                caps_after(g.ops, way, g.caps0),
                old(thread_caps)@,
            ),
            consumes(g, pc as int, at@.0) ==> entry(
                g,
                old(nlist).front(ns, at_next@.0),
                np,
                way.push((pc + 1, at_next@.0)),
                p,
                old(thread_caps)@,
            ),
        ensures
            final(nlist).wf(),
            final(nlist).room() == g.ops.len(),
            final(nlist).uniform(self.width()),
            final(thread_caps)@ == old(thread_caps)@,
            final(caps)@.len() == old(caps)@.len(),
            r.0 == accepting(g.ops, (pc as int, at@.0)),
            r.0 ==> won(g, p, way, final(caps)@),
            !r.0 ==> final(caps)@ == old(caps)@,
            consumes(g, pc as int, at@.0) ==> added(
                g,
                p,
                at_next@.0,
                pc + 1,
                old(nlist).pcs(),
                old(nlist).all_slots(),
                final(nlist).pcs(),
                final(nlist).all_slots(),
            ),
            consumes(g, pc as int, at@.0) ==> grew(
                g,
                p,
                way.push((pc + 1, at_next@.0)),
                old(nlist).front(ns, at_next@.0),
                np,
                old(nlist).front(ns, at_next@.0).grown(final(nlist).pcs(), final(nlist).all_slots(), p),
                r.1@,
            ),
            !consumes(g, pc as int, at@.0) ==> final(nlist).pcs() == old(nlist).pcs(),
            !consumes(g, pc as int, at@.0) ==> final(nlist).all_slots() == old(nlist).all_slots(),
            !consumes(g, pc as int, at@.0) ==> r.1@ == np,
    {
        let ghost pos = at@.0;
        let ghost tc0 = thread_caps@;
        proof {
            reveal(Nfa::ready);
            assert(g.ops[pc as int] == self.prog.insts@[pc as int]@);
            assert(inst_ok(g.ops, pc as int));
            lemma_boundary_range(g.text, pos);
        }
        match &self.prog.insts[pc] {
            Inst::Match => {
                copy_slots(caps, thread_caps);
                proof {
                    reveal(won);
                    lemma_caps_len(g.ops, way, g.caps0);
                    assert(caps@ =~= caps_after(g.ops, way, g.caps0));
                }
                (true, Ghost(np))
            },
            Inst::Char(inst) => {
                if inst.matches(at.char()) {
                    proof {
                        lemma_next_boundary(g.text, pos);
                        lemma_carry_step(g, p, pc as int, pos, tc0, (pc + 1, at_next@.0));
                    }
                    let got = self.add(
                        nlist,
                        pc + 1,
                        thread_caps,
                        at_next,
                        Ghost(g),
                        Ghost(p),
                        Ghost(ns),
                        Ghost(np),
                        Ghost(way.push((pc + 1, at_next@.0))),
                    );
                    (false, got)
                } else {
                    (false, Ghost(np))
                }
            },
            Inst::Ranges(inst) => {
                if inst.matches(at.char()).is_some() {
                    proof {
                        lemma_next_boundary(g.text, pos);
                        lemma_carry_step(g, p, pc as int, pos, tc0, (pc + 1, at_next@.0));
                    }
                    let got = self.add(
                        nlist,
                        pc + 1,
                        thread_caps,
                        at_next,
                        Ghost(g),
                        Ghost(p),
                        Ghost(ns),
                        Ghost(np),
                        Ghost(way.push((pc + 1, at_next@.0))),
                    );
                    (false, got)
                } else {
                    (false, Ghost(np))
                }
            },
            _ => (false, Ghost(np)),
        }
    }

    /// Steps thread `i` of the current list over the character at `at`.
    fn step_at(
        &self,
        q: &mut NfaThreads,
        caps: &mut [Option<usize>],
        i: usize,
        at: InputAt,
        at_next: InputAt,
        Ghost(g): Ghost<Given>,
        Ghost(p): Ghost<int>,
        Ghost(ns): Ghost<Seq<int>>,
        Ghost(np): Ghost<Seq<Seq<(int, int)>>>,
        Ghost(way): Ghost<Seq<(int, int)>>,
    ) -> (r: (bool, Ghost<Seq<Seq<(int, int)>>>))
        requires
            self.ready(g),
            old(q).fits(g.ops.len(), self.width()),
            i < old(q).current().pcs().len(),
            g.caps0.len() <= self.width(),
            old(caps)@.len() == g.caps0.len(),
            placed(g.text, at),
            at@.1 is Some ==> placed(g.text, at_next) && at_next@.0 == next_pos(g.text, at@.0),
            g.start <= p <= at@.0,
            boundary(g.text, p),
            leaf(g.ops, old(q).current().pcs()[i as int]) ==> carries(
                g,
                p,
                old(q).current().pcs()[i as int],
                at@.0,
                old(q).current().all_slots()[i as int],
            ),
            accepting(g.ops, (old(q).current().pcs()[i as int], at@.0)) ==> is_run(
                g.ops,
                g.text,
                way,
                (0, p),
            ) && prefix_of(caps_after(g.ops, way, g.caps0), old(q).current().all_slots()[i as int]),
            consumes(g, old(q).current().pcs()[i as int], at@.0) ==> entry(
                g,
                old(q).upcoming().front(ns, at_next@.0),
                np,
                way.push((old(q).current().pcs()[i as int] + 1, at_next@.0)),
                p,
                old(q).current().all_slots()[i as int],
            ),
        ensures
            final(q).fits(g.ops.len(), self.width()),
            final(q).current().pcs() == old(q).current().pcs(),
            final(q).current().all_slots() == old(q).current().all_slots(),
            final(caps)@.len() == old(caps)@.len(),
            r.0 == accepting(g.ops, (old(q).current().pcs()[i as int], at@.0)),
            r.0 ==> won(g, p, way, final(caps)@),
            !r.0 ==> final(caps)@ == old(caps)@,
            consumes(g, old(q).current().pcs()[i as int], at@.0) ==> added(
                g,
                p,
                at_next@.0,
                old(q).current().pcs()[i as int] + 1,
                old(q).upcoming().pcs(),
                old(q).upcoming().all_slots(),
                final(q).upcoming().pcs(),
                final(q).upcoming().all_slots(),
            ),
            consumes(g, old(q).current().pcs()[i as int], at@.0) ==> grew(
                g,
                p,
                way.push((old(q).current().pcs()[i as int] + 1, at_next@.0)),
                old(q).upcoming().front(ns, at_next@.0),
                np,
                old(q).upcoming().front(ns, at_next@.0).grown(
                    final(q).upcoming().pcs(),
                    final(q).upcoming().all_slots(),
                    p,
                ),
                r.1@,
            ),
            !consumes(g, old(q).current().pcs()[i as int], at@.0) ==> final(q).upcoming().pcs() == old(
                q,
            ).upcoming().pcs(),
            !consumes(g, old(q).current().pcs()[i as int], at@.0) ==> final(q).upcoming().all_slots()
                == old(q).upcoming().all_slots(),
            !consumes(g, old(q).current().pcs()[i as int], at@.0) ==> r.1@ == np,
    {
        proof {
            reveal(NfaThreads::fits);
            q.clist.lemma_all_slots();
            q.clist.lemma_wf();
            q.clist.lemma_uniform(self.width(), i as int);
        }
        let pc = q.clist.pc(i);
        let tc = q.clist.caps(i);
        self.step(
            caps,
            &mut q.nlist,
            tc.as_mut_slice(),
            pc,
            at,
            at_next,
            Ghost(g),
            Ghost(p),
            Ghost(ns),
            Ghost(np),
            Ghost(way),
        )
    }

    /// Steps the threads of the current list in turn over the character at
    /// `at`, up to the first that is at a `Match`, and says whether there
    /// was one.
    fn pass(
        &self,
        q: &mut NfaThreads,
        caps: &mut [Option<usize>],
        at: InputAt,
        at_next: InputAt,
        Ghost(g): Ghost<Given>,
        Ghost(cs): Ghost<Seq<int>>,
        Ghost(cp): Ghost<Seq<Seq<(int, int)>>>,
        Ghost(top): Ghost<int>,
    ) -> (r: (bool, Ghost<Seq<int>>, Ghost<int>, Ghost<Seq<Seq<(int, int)>>>))
        requires
            self.ready(g),
            g.wf(),
            old(q).fits(g.ops.len(), self.width()),
            old(q).upcoming().pcs().len() == 0,
            g.caps0.len() <= self.width(),
            old(caps)@.len() == g.caps0.len(),
            placed(g.text, at),
            at@.1 is Some ==> placed(g.text, at_next) && at_next@.0 == next_pos(g.text, at@.0),
            at@.1 is None ==> at_next@.0 == at@.0,
            old(q).current().front(cs, at@.0).good(g),
            old(q).current().front(cs, at@.0).below(top),
            traced(g, old(q).current().front(cs, at@.0), cp, 0, cs.len() as int),
            led(g, old(q).current().front(cs, at@.0), cp),
        ensures
            final(q).fits(g.ops.len(), self.width()),
            final(caps)@.len() == old(caps)@.len(),
            final(q).current().pcs() == old(q).current().pcs(),
            final(q).upcoming().front(r.1@, at_next@.0).good(g),
            0 <= r.2@ <= cs.len(),
            r.0 <==> r.2@ < cs.len(),
            r.0 ==> accepting(g.ops, (old(q).current().pcs()[r.2@], at@.0)),
            r.0 ==> won(g, cs[r.2@], cp[r.2@], final(caps)@),
            r.0 ==> final(q).upcoming().front(r.1@, at_next@.0).below(cs[r.2@]),
            !r.0 ==> final(caps)@ == old(caps)@,
            final(q).upcoming().front(r.1@, at_next@.0).below(top),
            carried(
                g,
                old(q).current().front(cs, at@.0),
                final(q).upcoming().front(r.1@, at_next@.0),
                r.2@,
            ),
            no_match(g, old(q).current().front(cs, at@.0), r.2@),
            traced(
                g,
                final(q).upcoming().front(r.1@, at_next@.0),
                r.3@,
                0,
                final(q).upcoming().pcs().len() as int,
            ),
            led(g, final(q).upcoming().front(r.1@, at_next@.0), r.3@),
            handed(
                g,
                old(q).current().front(cs, at@.0),
                final(q).upcoming().front(r.1@, at_next@.0),
                r.2@,
            ),
    {
        let ghost cur = q.current().front(cs, at@.0);
        let ghost pos2 = at_next@.0;
        let ghost mut ns: Seq<int> = Seq::empty();
        let ghost mut np: Seq<Seq<(int, int)>> = Seq::empty();
        let n = q.current_len();
        let mut i: usize = 0;
        proof {
            q.upcoming().lemma_all_slots();
            assert(q.upcoming().pcs() =~= Seq::<int>::empty());
            assert(q.upcoming().all_slots() =~= Seq::<Slots>::empty());
            assert(q.upcoming().front(ns, pos2) == Front::none(pos2));
            lemma_none_good(g, pos2, top);
            if 0 < n {
                lemma_none_good(g, pos2, cs[0]);
            }
            lemma_pass_start(g, cur, q.upcoming().front(ns, pos2));
            lemma_none_led(g, pos2);
            lemma_handed_start(g, cur, q.upcoming().front(ns, pos2));
            lemma_boundary_range(g.text, at@.0);
        }
        while i < n
            invariant
                self.ready(g),
                g.wf(),
                q.fits(g.ops.len(), self.width()),
                g.caps0.len() <= self.width(),
                caps@.len() == g.caps0.len(),
                caps@ == old(caps)@,
                placed(g.text, at),
                at@.1 is Some ==> placed(g.text, at_next) && at_next@.0 == next_pos(g.text, at@.0),
                at@.1 is None ==> at_next@.0 == at@.0,
                pos2 == at_next@.0,
                pos2 == next_pos(g.text, at@.0),
                n == cs.len(),
                i <= n,
                cur == old(q).current().front(cs, at@.0),
                cur.good(g),
                cur.below(top),
                traced(g, cur, cp, 0, n as int),
                led(g, cur, cp),
                q.current().pcs() == cur.pcs,
                q.current().all_slots() == cur.slots,
                q.upcoming().front(ns, pos2).good(g),
                q.upcoming().front(ns, pos2).below(top),
                i < n ==> q.upcoming().front(ns, pos2).below(cs[i as int]),
                carried(g, cur, q.upcoming().front(ns, pos2), i as int),
                no_match(g, cur, i as int),
                traced(g, q.upcoming().front(ns, pos2), np, 0, q.upcoming().pcs().len() as int),
                led(g, q.upcoming().front(ns, pos2), np),
                handed(g, cur, q.upcoming().front(ns, pos2), i as int),
            decreases n - i,
        {
            let ghost p = cs[i as int];
            let ghost nxt0 = q.upcoming().front(ns, pos2);
            let ghost np0 = np;
            let ghost way = cp[i as int];
            let ghost next = (cur.pcs[i as int] + 1, pos2);
            proof {
                lemma_sound_carry(g, cur, i as int);
                lemma_starts(cur, top, i as int);
                lemma_rooted_open(g, cur, cp, i as int);
                lemma_traced_len(g, nxt0, np0);
                if consumes(g, cur.pcs[i as int], at@.0) {
                    lemma_entry_top(g, cur, cp, i as int, nxt0, np0);
                }
            }
            let (hit, Ghost(got)) = self.step_at(
                q,
                caps,
                i,
                at,
                at_next,
                Ghost(g),
                Ghost(p),
                Ghost(ns),
                Ghost(np),
                Ghost(way),
            );
            if hit {
                return (true, Ghost(ns), Ghost(i as int), Ghost(np));
            }
            proof {
                if consumes(g, cur.pcs[i as int], at@.0) {
                    lemma_grow(
                        g,
                        nxt0,
                        p,
                        cur.pcs[i as int] + 1,
                        q.upcoming().pcs(),
                        q.upcoming().all_slots(),
                    );
                    lemma_root_lead(g, cur, cp, i as int, nxt0);
                    lemma_led_grew(
                        g,
                        p,
                        way.push(next),
                        nxt0,
                        np0,
                        nxt0.grown(q.upcoming().pcs(), q.upcoming().all_slots(), p),
                        got,
                    );
                    ns = nxt0.grown(q.upcoming().pcs(), q.upcoming().all_slots(), p).starts;
                    np = got;
                }
                let nxt9 = q.upcoming().front(ns, pos2);
                lemma_carried_more(g, cur, nxt0, nxt9, i as int);
                lemma_no_match_more(g, cur, i as int);
                lemma_handed_more(g, cur, nxt0, nxt9, i as int);
                if consumes(g, cur.pcs[i as int], at@.0) {
                    lemma_below(nxt9, p, top);
                }
                if i + 1 < n {
                    lemma_below(nxt9, p, cs[i + 1]);
                }
            }
            i += 1;
        }
        (false, Ghost(ns), Ghost(n as int), Ghost(np))
    }
}

/// What holds between two steps of the simulation: the current list `cur`
/// is good and complete up to `bound`, and no match from before `bound`
/// ends before the offset of `cur`. While no match was found, `bound` is
/// that offset and the slots are as they were; once one was found, `bound`
/// is where the best match so far starts, `win` is its path, and `caps`
/// holds its slots.
#[verifier::opaque]
pub open spec fn steady(
    g: Given,
    cur: Front,
    matched: bool,
    bound: int,
    win: Seq<(int, int)>,
    caps: Slots,
) -> bool {
    &&& cur.good(g)
    &&& cur.complete(g, bound)
    &&& none_ends_before(g, bound, cur.pos)
    &&& boundary(g.text, cur.pos)
    &&& g.start <= cur.pos
    &&& !matched ==> bound == cur.pos && caps == g.caps0 && cur.below(cur.pos - 1)
    &&& matched ==> {
        &&& g.start <= bound <= cur.pos
        &&& boundary(g.text, bound)
        &&& cur.below(bound)
        &&& won(g, bound, win, caps)
        &&& caps.len() > 0
    }
}

/// What holds before the threads of `cur` are stepped: as `steady`, but
/// while no match was found, `cur` is complete up to behind its offset.
#[verifier::opaque]
pub open spec fn primed(
    g: Given,
    cur: Front,
    matched: bool,
    bound: int,
    win: Seq<(int, int)>,
    caps: Slots,
) -> bool {
    &&& cur.good(g)
    &&& cur.complete(g, bound)
    &&& none_ends_before(g, bound, cur.pos)
    &&& boundary(g.text, cur.pos)
    &&& g.start <= cur.pos
    &&& !matched ==> bound == cur.pos + 1 && caps == g.caps0 && cur.below(cur.pos)
    &&& matched ==> {
        &&& g.start <= bound <= cur.pos
        &&& boundary(g.text, bound)
        &&& cur.below(bound)
        &&& won(g, bound, win, caps)
        &&& caps.len() > 0
    }
}

/// What the list is below before its threads are stepped.
pub open spec fn top_of(cur: Front, matched: bool, bound: int) -> int {
    if matched {
        bound
    } else {
        cur.pos
    }
}

/// At the start, with no thread, the simulation is steady.
pub proof fn lemma_steady_start(g: Given, win: Seq<(int, int)>)
    requires
        g.wf(),
    ensures
        steady(g, Front::none(g.start), false, g.start, win, g.caps0),
{
    reveal(steady);
    lemma_none_good(g, g.start, g.start - 1);
    lemma_restart(g, Front::none(g.start), g.start, g.start);
}

/// With no thread left, no match starts before the bound; and if a match
/// was found, it is the leftmost.
pub proof fn lemma_steady_empty(
    g: Given,
    cur: Front,
    matched: bool,
    bound: int,
    win: Seq<(int, int)>,
    caps: Slots,
)
    requires
        g.wf(),
        steady(g, cur, matched, bound, win, caps),
        cur.pcs.len() == 0,
        matched ==> preferred(g.ops, g.text, (0, bound), win),
    ensures
        none_before(g.ops, g.text, g.start, bound),
        g.start <= cur.pos,
        !matched ==> bound == cur.pos && caps == g.caps0,
        matched ==> settled(g, true, caps),
{
    reveal(steady);
    reveal(settled);
    reveal(won);
    lemma_none_alive(g, cur, bound);
    if matched {
        lemma_found(g.ops, g.text, g.start, bound, win, g.caps0, caps);
    }
}

/// With no match before an offset, the simulation is steady there with no
/// thread.
pub proof fn lemma_steady_skip(g: Given, pos: int, win: Seq<(int, int)>)
    requires
        g.wf(),
        boundary(g.text, pos),
        g.start <= pos,
        none_before(g.ops, g.text, g.start, pos),
    ensures
        steady(g, Front::none(pos), false, pos, win, g.caps0),
{
    reveal(steady);
    lemma_none_good(g, pos, pos - 1);
    lemma_restart(g, Front::none(pos), pos, pos);
}

/// What is needed to add the thread for the start of the program.
pub proof fn lemma_steady_open(
    g: Given,
    cur: Front,
    bound: int,
    win: Seq<(int, int)>,
    caps: Slots,
)
    requires
        steady(g, cur, false, bound, win, caps),
    ensures
        cur.good(g),
        cur.below(cur.pos),
        carries(g, cur.pos, 0, cur.pos, caps),
        boundary(g.text, cur.pos),
        g.start <= cur.pos,
        caps == g.caps0,
{
    reveal(steady);
    lemma_below(cur, cur.pos - 1, cur.pos);
    lemma_carry_start(g, cur.pos);
}

/// After the thread for the start of the program was added, the list is
/// ready to be stepped.
pub proof fn lemma_steady_seed(
    g: Given,
    cur: Front,
    bound: int,
    win: Seq<(int, int)>,
    caps: Slots,
    pcs9: Seq<int>,
    slots9: Seq<Slots>,
)
    requires
        g.wf(),
        steady(g, cur, false, bound, win, caps),
        added(g, cur.pos, cur.pos, 0, cur.pcs, cur.slots, pcs9, slots9),
    ensures
        primed(g, cur.grown(pcs9, slots9, cur.pos), false, cur.pos + 1, win, caps),
{
    reveal(steady);
    reveal(primed);
    lemma_below(cur, cur.pos - 1, cur.pos);
    lemma_grow(g, cur, cur.pos, 0, pcs9, slots9);
    lemma_seed(g, cur, cur.grown(pcs9, slots9, cur.pos));
}

/// Where no thread is added for the start of the program, the list is
/// ready to be stepped: either a match was found, or the program asks for
/// the start of the text and the list holds threads.
pub proof fn lemma_steady_hold(
    g: Given,
    cur: Front,
    matched: bool,
    bound: int,
    win: Seq<(int, int)>,
    caps: Slots,
)
    requires
        g.wf(),
        steady(g, cur, matched, bound, win, caps),
        !matched ==> cur.pcs.len() > 0 && g.ops[1] == Op::Look(LookInst::StartText),
    ensures
        primed(g, cur, matched, if matched {
            bound
        } else {
            cur.pos + 1
        }, win, caps),
{
    reveal(steady);
    reveal(primed);
    if !matched {
        let k = cur.pos;
        lemma_sound_carry(g, cur, 0);
        lemma_starts(cur, k - 1, 0);
        if matches_at(g.ops, g.text, k) {
            lemma_anchored(g.ops, g.text, k);
        }
        lemma_bump(g, cur, k, k + 1, k, k);
        lemma_below(cur, k - 1, k);
    }
}

/// What is needed to step the threads.
pub proof fn lemma_primed_open(
    g: Given,
    cur: Front,
    matched: bool,
    bound: int,
    win: Seq<(int, int)>,
    caps: Slots,
)
    requires
        primed(g, cur, matched, bound, win, caps),
    ensures
        cur.good(g),
        cur.below(top_of(cur, matched, bound)),
        boundary(g.text, cur.pos),
        !matched ==> caps == g.caps0,
{
    reveal(primed);
}

/// A thread at a `Match` was found: its path is the best match so far.
pub proof fn lemma_hit(
    g: Given,
    cur: Front,
    matched: bool,
    bound: int,
    idx: int,
    path: Seq<(int, int)>,
    caps: Slots,
)
    requires
        cur.good(g),
        cur.below(top_of(cur, matched, bound)),
        0 <= idx < cur.pcs.len(),
        won(g, cur.starts[idx], path, caps),
    ensures
        g.start <= cur.starts[idx] <= cur.pos,
        cur.starts[idx] <= top_of(cur, matched, bound),
        boundary(g.text, cur.starts[idx]),
        matches_at(g.ops, g.text, cur.starts[idx]),
{
    reveal(won);
    lemma_sound_carry(g, cur, idx);
    lemma_starts(cur, top_of(cur, matched, bound), idx);
}

/// After the threads of `cur` were stepped at the end of the text: a match
/// that was found is the leftmost, and if none was found there is none.
pub proof fn lemma_pass_end(
    g: Given,
    cur: Front,
    before: bool,
    bound1: int,
    win1: Seq<(int, int)>,
    caps1: Slots,
    hit: bool,
    idx: int,
    win: Seq<(int, int)>,
    caps: Slots,
)
    requires
        g.wf(),
        primed(g, cur, before, bound1, win1, caps1),
        cur.pos == g.text.len(),
        0 <= idx <= cur.pcs.len(),
        hit <==> idx < cur.pcs.len(),
        no_match(g, cur, idx),
        hit ==> won(g, cur.starts[idx], win, caps),
        !hit ==> caps == caps1 && win == win1,
        hit || before ==> preferred(g.ops, g.text, (0, if hit {
            cur.starts[idx]
        } else {
            bound1
        }), win),
    ensures
        settled(g, hit || before, caps),
{
    reveal(primed);
    reveal(settled);
    reveal(won);
    let k = cur.pos;
    let bound = if hit {
        cur.starts[idx]
    } else {
        bound1
    };
    if hit {
        lemma_hit(g, cur, before, bound1, idx, win, caps);
    }
    lemma_rest(cur, idx, bound);
    lemma_pass_none(g, cur, idx, bound1, bound);
    lemma_none_after(g, bound, k + 1);
    if hit || before {
        lemma_found(g.ops, g.text, g.start, bound, win, g.caps0, caps);
    } else {
        lemma_none_left(g.ops, g.text, g.start, k + 1);
    }
}

/// After the threads of `cur` were stepped before the end of the text, the
/// simulation is steady at the next offset, with the list `nxt` of what
/// the threads led to.
pub proof fn lemma_pass_on(
    g: Given,
    cur: Front,
    nxt: Front,
    before: bool,
    bound1: int,
    win1: Seq<(int, int)>,
    caps1: Slots,
    hit: bool,
    idx: int,
    win: Seq<(int, int)>,
    caps: Slots,
)
    requires
        g.wf(),
        primed(g, cur, before, bound1, win1, caps1),
        cur.pos < g.text.len(),
        nxt.pos == next_pos(g.text, cur.pos),
        nxt.good(g),
        nxt.below(top_of(cur, before, bound1)),
        hit ==> nxt.below(cur.starts[idx]),
        0 <= idx <= cur.pcs.len(),
        hit <==> idx < cur.pcs.len(),
        carried(g, cur, nxt, idx),
        no_match(g, cur, idx),
        hit ==> won(g, cur.starts[idx], win, caps) && caps.len() > 0,
        !hit ==> caps == caps1 && win == win1,
    ensures
        steady(g, nxt, hit || before, if hit {
            cur.starts[idx]
        } else if before {
            bound1
        } else {
            nxt.pos
        }, win, caps),
{
    reveal(primed);
    reveal(steady);
    let k = cur.pos;
    let bound = if hit {
        cur.starts[idx]
    } else {
        bound1
    };
    if hit {
        lemma_hit(g, cur, before, bound1, idx, win, caps);
    }
    lemma_rest(cur, idx, bound);
    lemma_pass_none(g, cur, idx, bound1, bound);
    lemma_next_boundary(g.text, k);
    lemma_pass_complete(g, cur, nxt, idx, bound1, bound);
    if hit || before {
        lemma_bump(g, nxt, bound, bound, k + 1, nxt.pos);
    } else {
        lemma_bump(g, nxt, k + 1, nxt.pos, k + 1, nxt.pos);
        lemma_below(nxt, k, nxt.pos - 1);
    }
}

impl<'r, 't> Nfa<'r, 't> {
    /// With no thread left: says where the simulation goes on, if it does.
    /// It ends if a match was found, if the program asks for the start of
    /// the text and `at` is behind it, or if none of the program's
    /// prefixes stands in the rest of the text.
    fn restart(
        &self,
        q: &NfaThreads,
        at: InputAt,
        matched: bool,
        Ghost(g): Ghost<Given>,
        Ghost(cs): Ghost<Seq<int>>,
        Ghost(cp): Ghost<Seq<Seq<(int, int)>>>,
        Ghost(bound): Ghost<int>,
        Ghost(win): Ghost<Seq<(int, int)>>,
        Ghost(caps): Ghost<Slots>,
    ) -> (r: Option<InputAt>)
        requires
            self.ready(g),
            q.current().pcs().len() == 0,
            placed(g.text, at),
            steady(g, q.current().front(cs, at@.0), matched, bound, win, caps),
            routed(g, q.current().front(cs, at@.0), cp, matched, bound, win),
        ensures
            match r {
                None => settled(g, matched, caps),
                Some(found) => {
                    &&& !matched
                    &&& placed(g.text, found)
                    &&& at@.0 <= found@.0
                    &&& steady(g, Front::none(found@.0), false, found@.0, win, caps)
                    &&& routed(g, Front::none(found@.0), Seq::empty(), false, found@.0, win)
                },
            },
    {
        proof {
            reveal(Nfa::ready);
            if matched {
                lemma_routed_empty(g, q.current().front(cs, at@.0), cp, bound, win);
            }
            lemma_steady_empty(g, q.current().front(cs, at@.0), matched, bound, win, caps);
            lemma_boundary_range(g.text, at@.0);
        }
        if matched {
            return None;
        }
        if !at.is_beginning() && self.prog.anchored_begin {
            proof {
                reveal(settled);
                lemma_anchored_from(g.ops, g.text, g.start);
            }
            return None;
        }
        match self.input.prefix_at(self.prog.prefixes.as_slice(), at) {
            None => {
                proof {
                    reveal(settled);
                    lemma_skipped(
                        self.prog.prefixes@,
                        g.ops,
                        g.text,
                        g.start,
                        at@.0,
                        g.text.len() as int + 1,
                    );
                    lemma_none_left(g.ops, g.text, g.start, g.text.len() as int + 1);
                }
                None
            },
            Some(found) => {
                proof {
                    lemma_skipped(self.prog.prefixes@, g.ops, g.text, g.start, at@.0, found@.0);
                    lemma_steady_skip(g, found@.0, win);
                    lemma_routed_none(g, found@.0, found@.0, win);
                }
                Some(found)
            },
        }
    }

    /// Adds the thread for the start of the program at `at`, unless a match
    /// was found, or the program asks for the start of the text and there
    /// are threads.
    fn prime(
        &self,
        q: &mut NfaThreads,
        caps: &mut [Option<usize>],
        at: InputAt,
        matched: bool,
        Ghost(g): Ghost<Given>,
        Ghost(cs): Ghost<Seq<int>>,
        Ghost(cp): Ghost<Seq<Seq<(int, int)>>>,
        Ghost(bound): Ghost<int>,
        Ghost(win): Ghost<Seq<(int, int)>>,
    ) -> (r: (Ghost<Seq<int>>, Ghost<Seq<Seq<(int, int)>>>))
        requires
            self.ready(g),
            old(q).fits(g.ops.len(), self.width()),
            old(q).upcoming().pcs().len() == 0,
            old(caps)@.len() == g.caps0.len(),
            g.caps0.len() <= self.width(),
            placed(g.text, at),
            steady(g, old(q).current().front(cs, at@.0), matched, bound, win, old(caps)@),
            routed(g, old(q).current().front(cs, at@.0), cp, matched, bound, win),
            matched ==> old(q).current().pcs().len() > 0,
        ensures
            final(q).fits(g.ops.len(), self.width()),
            final(q).upcoming().pcs().len() == 0,
            final(caps)@ == old(caps)@,
            primed(g, final(q).current().front(r.0@, at@.0), matched, if matched {
                bound
            } else {
                at@.0 + 1
            }, win, final(caps)@),
            routed(g, final(q).current().front(r.0@, at@.0), r.1@, matched, if matched {
                bound
            } else {
                at@.0 + 1
            }, win),
    {
        let ghost k = at@.0;
        let ghost cur0 = q.current().front(cs, k);
        proof {
            reveal(Nfa::ready);
            reveal(NfaThreads::fits);
        }
        if q.clist.len() == 0 || (!self.prog.anchored_begin && !matched) {
            proof {
                lemma_steady_open(g, cur0, bound, win, caps@);
                lemma_routed_open(g, cur0, cp, matched, bound, win);
                lemma_entry_seed(g, cur0, cp, caps@);
                q.clist.lemma_all_slots();
            }
            let ghost seed = seq![(0int, k)];
            let Ghost(got) = self.add(
                &mut q.clist,
                0,
                caps,
                at,
                Ghost(g),
                Ghost(k),
                Ghost(cs),
                Ghost(cp),
                Ghost(seed),
            );
            proof {
                lemma_steady_seed(
                    g,
                    cur0,
                    bound,
                    win,
                    caps@,
                    q.current().pcs(),
                    q.current().all_slots(),
                );
                lemma_routed_seed(
                    g,
                    cur0,
                    cp,
                    bound,
                    win,
                    cur0.grown(q.current().pcs(), q.current().all_slots(), k),
                    got,
                    k + 1,
                );
            }
            (Ghost(cur0.grown(q.current().pcs(), q.current().all_slots(), k).starts), Ghost(got))
        } else {
            proof {
                lemma_steady_hold(g, cur0, matched, bound, win, caps@);
                if !matched {
                    lemma_routed_bound(g, cur0, cp, bound, win, k + 1);
                }
            }
            (Ghost(cs), Ghost(cp))
        }
    }

    /// Steps the threads over the character at `at`. Says how the search
    /// ended, if it did: with the first match in existence mode, or at the
    /// end of the text. Else makes the list of what the threads led to the
    /// current list and says where the simulation goes on.
    fn advance(
        &self,
        q: &mut NfaThreads,
        caps: &mut [Option<usize>],
        at: InputAt,
        before: bool,
        Ghost(g): Ghost<Given>,
        Ghost(cs): Ghost<Seq<int>>,
        Ghost(cp): Ghost<Seq<Seq<(int, int)>>>,
        Ghost(bound1): Ghost<int>,
        Ghost(win1): Ghost<Seq<(int, int)>>,
    ) -> (r: (
        Round,
        Ghost<Seq<int>>,
        Ghost<int>,
        Ghost<Seq<(int, int)>>,
        Ghost<Seq<Seq<(int, int)>>>,
    ))
        requires
            self.ready(g),
            g.wf(),
            g.ops == self.ops(),
            g.text == self.text(),
            old(q).fits(g.ops.len(), self.width()),
            old(q).upcoming().pcs().len() == 0,
            old(caps)@.len() == g.caps0.len(),
            g.caps0.len() <= self.width(),
            placed(g.text, at),
            primed(g, old(q).current().front(cs, at@.0), before, bound1, win1, old(caps)@),
            routed(g, old(q).current().front(cs, at@.0), cp, before, bound1, win1),
        ensures
            final(q).fits(g.ops.len(), self.width()),
            final(caps)@.len() == old(caps)@.len(),
            match r.0 {
                Round::Done(res) => settled(g, res, final(caps)@),
                Round::On(next, matched) => {
                    &&& placed(g.text, next)
                    &&& at@.0 < next@.0 <= g.text.len()
                    &&& final(q).upcoming().pcs().len() == 0
                    &&& steady(
                        g,
                        final(q).current().front(r.1@, next@.0),
                        matched,
                        r.2@,
                        r.3@,
                        final(caps)@,
                    )
                    &&& routed(g, final(q).current().front(r.1@, next@.0), r.4@, matched, r.2@, r.3@)
                },
            },
    {
        let ghost k = at@.0;
        let ghost cur = q.current().front(cs, k);
        let ghost top = top_of(cur, before, bound1);
        let ghost caps1 = caps@;
        proof {
            lemma_primed_open(g, cur, before, bound1, win1, caps@);
            lemma_routed_open(g, cur, cp, before, bound1, win1);
            lemma_boundary_range(g.text, k);
            if at@.1 is Some {
                lemma_next_boundary(g.text, k);
            }
        }
        let at_next = self.input.at(at.next_pos());
        let (hit, Ghost(ns), Ghost(idx), Ghost(np)) = self.pass(
            q,
            caps,
            at,
            at_next,
            Ghost(g),
            Ghost(cs),
            Ghost(cp),
            Ghost(top),
        );
        let ghost nxt = q.upcoming().front(ns, at_next@.0);
        let ghost mut win = win1;
        if hit {
            proof {
                win = cp[idx];
                lemma_hit(g, cur, before, bound1, idx, win, caps@);
            }
            if caps.len() == 0 {
                proof {
                    assert(caps@ =~= g.caps0);
                    lemma_settled_early(g, cs[idx], caps@);
                }
                return (
                    Round::Done(true),
                    Ghost(ns),
                    Ghost(bound1),
                    Ghost(win),
                    Ghost(np),
                );
            }
        }
        let matched = hit || before;
        if at.is_end() {
            proof {
                if matched {
                    lemma_routed_end(g, cur, cp, before, bound1, win1, nxt, hit, idx);
                }
                lemma_pass_end(g, cur, before, bound1, win1, caps1, hit, idx, win, caps@);
            }
            return (Round::Done(matched), Ghost(ns), Ghost(bound1), Ghost(win), Ghost(np));
        }
        let ghost bound = if hit {
            cs[idx]
        } else if before {
            bound1
        } else {
            at_next@.0
        };
        proof {
            lemma_pass_on(g, cur, nxt, before, bound1, win1, caps1, hit, idx, win, caps@);
            lemma_routed_on(g, cur, cp, nxt, np, before, bound1, win1, hit, idx);
            lemma_boundary_range(g.text, at_next@.0);
        }
        q.swap();
        q.empty_upcoming();
        (Round::On(at_next, matched), Ghost(ns), Ghost(bound), Ghost(win), Ghost(np))
    }

    /// Runs the simulation from `at` on: at each offset in turn, adds a
    /// thread for the start of the program unless a match was found, and
    /// steps every thread over the character there.
    fn exec(&self, q: &mut NfaThreads, caps: &mut [Option<usize>], at: InputAt) -> (r: bool)
        requires
            self.prog.wf(),
            placed(self.text(), at),
            old(q).fits(self.ops().len(), self.width()),
            old(caps)@.len() <= self.width(),
        ensures
            final(q).fits(self.ops().len(), self.width()),
            final(caps)@.len() == old(caps)@.len(),
            chosen(self.ops(), self.text(), at@.0, old(caps)@, r, final(caps)@),
    {
        let ghost g = Given { ops: self.ops(), text: self.text(), start: at@.0, caps0: caps@ };
        let ghost mut cs: Seq<int> = Seq::empty();
        let ghost mut cp: Seq<Seq<(int, int)>> = Seq::empty();
        let ghost mut bound: int = at@.0;
        let ghost mut win: Seq<(int, int)> = Seq::empty();
        let mut matched = false;
        let mut cur_at = at;
        q.empty_current();
        q.empty_upcoming();
        proof {
            self.input.lemma_text_valid();
            self.lemma_ready(g);
            q.current().lemma_all_slots();
            assert(q.current().pcs() =~= Seq::<int>::empty());
            assert(q.current().all_slots() =~= Seq::<Slots>::empty());
            assert(q.current().front(cs, at@.0) == Front::none(at@.0));
            lemma_steady_start(g, win);
            lemma_routed_none(g, at@.0, at@.0, win);
        }
        loop
            invariant
                self.ready(g),
                g.wf(),
                g.ops == self.ops(),
                g.text == self.text(),
                g.start == at@.0,
                g.caps0 == old(caps)@,
                q.fits(g.ops.len(), self.width()),
                q.upcoming().pcs().len() == 0,
                caps@.len() == g.caps0.len(),
                g.caps0.len() <= self.width(),
                placed(g.text, cur_at),
                cur_at@.0 <= g.text.len(),
                steady(g, q.current().front(cs, cur_at@.0), matched, bound, win, caps@),
                routed(g, q.current().front(cs, cur_at@.0), cp, matched, bound, win),
            decreases g.text.len() - cur_at@.0,
        {
            if q.current_len() == 0 {
                match self.restart(
                    q,
                    cur_at,
                    matched,
                    Ghost(g),
                    Ghost(cs),
                    Ghost(cp),
                    Ghost(bound),
                    Ghost(win),
                    Ghost(caps@),
                ) {
                    None => {
                        proof {
                            reveal(settled);
                            if g.caps0.len() == 0 {
                                lemma_chosen_bare(g.ops, g.text, g.start, g.caps0, matched, caps@);
                            }
                        }
                        return matched;
                    },
                    Some(found) => {
                        cur_at = found;
                    },
                }
                proof {
                    bound = cur_at@.0;
                    cs = Seq::empty();
                    cp = Seq::empty();
                    q.current().lemma_all_slots();
                    assert(q.current().pcs() =~= Seq::<int>::empty());
                    assert(q.current().all_slots() =~= Seq::<Slots>::empty());
                    assert(q.current().front(cs, cur_at@.0) == Front::none(cur_at@.0));
                }
            }
            let ghost k = cur_at@.0;
            let (Ghost(primed_cs), Ghost(primed_cp)) = self.prime(
                q,
                caps,
                cur_at,
                matched,
                Ghost(g),
                Ghost(cs),
                Ghost(cp),
                Ghost(bound),
                Ghost(win),
            );
            proof {
                cs = primed_cs;
                cp = primed_cp;
                if !matched {
                    bound = k + 1;
                }
            }
            let (round, Ghost(cs2), Ghost(bound2), Ghost(win2), Ghost(cp2)) = self.advance(
                q,
                caps,
                cur_at,
                matched,
                Ghost(g),
                Ghost(cs),
                Ghost(cp),
                Ghost(bound),
                Ghost(win),
            );
            match round {
                Round::Done(res) => {
                    proof {
                        reveal(settled);
                        if g.caps0.len() == 0 {
                            lemma_chosen_bare(g.ops, g.text, g.start, g.caps0, res, caps@);
                        }
                    }
                    return res;
                },
                Round::On(next, found) => {
                    cur_at = next;
                    matched = found;
                },
            }
            proof {
                cs = cs2;
                cp = cp2;
                bound = bound2;
                win = win2;
            }
        }
    }

    /// Reports whether `prog` matches `text` somewhere at or after `start`;
    /// if it does, `caps` holds the slots of the preferred match from the
    /// first offset from which there is one.
    pub fn run(prog: &'r Program, caps: &mut [Option<usize>], text: &'t str, start: usize) -> (r:
        bool)
        requires
            prog.wf(),
            vstd::utf8::is_char_boundary(text.spec_bytes(), start as int),
            old(caps)@.len() <= 2 * captures_of(prog.ops()),
        ensures
            final(caps)@.len() == old(caps)@.len(),
            chosen(prog.ops(), text.spec_bytes(), start as int, old(caps)@, r, final(caps)@),
    {
        let mut q = prog.nfa_threads.get();
        let input = CharInput::new(text);
        let at = input.at(start);
        let nfa = Nfa { prog, input };
        let matched = nfa.exec(&mut q, caps, at);
        prog.nfa_threads.put(q);
        matched
    }
}

} // verus!
