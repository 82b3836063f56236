//! The order of the threads of the simulation: each thread has the path
//! that a search which tries first branches first would take to it.

use crate::input::{boundary, lemma_boundary_range, lemma_next_boundary, next_pos};
use crate::nfa::{consumes, eps_step, leaf, lemma_closure_walk, no_match, prefix_of, Front, Given};
use crate::program::Op;
use crate::run::{
    accepting, accepts, caps_after, diverge, first_branch, is_path, is_run, lead,
    lemma_accepts_back, lemma_fork, lemma_last_here, lemma_lead_push, lemma_path_boundary,
    lemma_path_mono, lemma_path_push, lemma_path_stays, lemma_path_tail, lemma_run_head,
    lemma_step_stays, preferred, saved, simple, step_at, steps,
};
use vstd::prelude::*;

verus! {

/// A thread before thread `e` is for the instruction `pc`.
pub open spec fn has_before(f: Front, e: int, pc: int) -> bool {
    exists|m: int| 0 <= m < e && #[trigger] f.pcs[m] == pc
}

/// A thread before thread `e` has the path `way`.
pub open spec fn sits(f: Front, paths: Seq<Seq<(int, int)>>, e: int, way: Seq<(int, int)>) -> bool {
    exists|m: int| 0 <= m < e && #[trigger] f.pcs[m] == way.last().0 && paths[m] == way
}

/// Each place of `way` but the last that is at the offset of the list has
/// a thread before thread `e`, whose path is `way` up to that place.
pub open spec fn lined(f: Front, paths: Seq<Seq<(int, int)>>, e: int, way: Seq<(int, int)>) -> bool {
    forall|t: int|
        0 <= t < way.len() - 1 && (#[trigger] way[t]).1 == f.pos ==> sits(f, paths, e, way.take(t + 1))
}

/// From each thread before thread `e` that is not on `gray`, every step
/// that consumes no character leads to a thread before `e`.
pub open spec fn shut(g: Given, f: Front, e: int, gray: Seq<(int, int)>) -> bool {
    forall|a: int, b: (int, int)|
        0 <= a < e && #[trigger] eps_step(g.ops, g.text, (f.pcs[a], f.pos), b) ==> has_before(f, e, b.0)
            || gray.contains((f.pcs[a], f.pos))
}

/// The instruction that the first branch of a split leads to.
pub open spec fn first_of(op: Op) -> int {
    match op {
        Op::Split(x, _) => x as int,
        _ => 0,
    }
}

/// Where the last step of `way` is the second branch of a split at the
/// offset of the list, a thread before thread `e` is for the first.
pub open spec fn after_first(g: Given, f: Front, e: int, way: Seq<(int, int)>) -> bool {
    way.len() >= 2 && way[way.len() - 2].1 == f.pos && 0 <= way[way.len() - 2].0 < g.ops.len()
        && g.ops[way[way.len() - 2].0] is Split ==> first_branch(
        g.ops,
        way[way.len() - 2],
        way.last(),
    ) || has_before(f, e, first_of(g.ops[way[way.len() - 2].0]))
}

/// Thread `e` has its path: a path from the first instruction at the
/// offset where it starts to the thread's instruction, on which no place
/// comes twice. Each place on it at the offset of the list has a thread
/// before `e`; each thread before `e` that is not on it has what its steps
/// lead to before `e`; and if the thread waits at its instruction, its
/// slots begin with the slots of the path.
pub open spec fn rooted(g: Given, f: Front, paths: Seq<Seq<(int, int)>>, e: int) -> bool {
    let way = paths[e];
    &&& is_path(g.ops, g.text, way)
    &&& way[0] == (0int, f.starts[e])
    &&& way.last() == (f.pcs[e], f.pos)
    &&& simple(way)
    &&& leaf(g.ops, f.pcs[e]) ==> prefix_of(caps_after(g.ops, way, g.caps0), f.slots[e])
    &&& lined(f, paths, e, way)
    &&& shut(g, f, e, way.drop_last())
    &&& after_first(g, f, e, way)
}

/// The threads `lo..hi` have their paths.
#[verifier::opaque]
pub open spec fn traced(g: Given, f: Front, paths: Seq<Seq<(int, int)>>, lo: int, hi: int) -> bool {
    &&& paths.len() == f.pcs.len()
    &&& forall|e: int| lo <= e < hi ==> rooted(g, f, paths, e)
}

/// Thread `e` waits at its instruction, and a `Match` can be reached from
/// it.
pub open spec fn live_leaf(g: Given, f: Front, e: int) -> bool {
    leaf(g.ops, f.pcs[e]) && accepts(g.ops, g.text, (f.pcs[e], f.pos))
}

/// No thread before thread `e` is one that waits and from which a `Match`
/// can be reached.
pub open spec fn none_live(g: Given, f: Front, e: int) -> bool {
    forall|m: int| 0 <= m < e ==> !live_leaf(g, f, m)
}

/// The path of the first thread that waits and from which a `Match` can be
/// reached takes the first branch wherever a match from its start parts
/// from it.
#[verifier::opaque]
pub open spec fn led(g: Given, f: Front, paths: Seq<Seq<(int, int)>>) -> bool {
    forall|e: int|
        0 <= e < f.pcs.len() && #[trigger] live_leaf(g, f, e) && none_live(g, f, e) ==> lead(
            g.ops,
            g.text,
            (0, f.starts[e]),
            paths[e],
        )
}

/// The list `f9` with the paths `paths9` is the list `f0` with `paths0`
/// and more threads behind.
pub open spec fn extends(
    f0: Front,
    paths0: Seq<Seq<(int, int)>>,
    f9: Front,
    paths9: Seq<Seq<(int, int)>>,
) -> bool {
    &&& f0.pos == f9.pos
    &&& f0.pcs.len() <= f9.pcs.len()
    &&& f0.shaped()
    &&& f9.shaped()
    &&& paths0.len() == f0.pcs.len()
    &&& paths9.len() == f9.pcs.len()
    &&& forall|i: int|
        0 <= i < f0.pcs.len() ==> (#[trigger] f9.pcs[i]) == f0.pcs[i] && f9.starts[i] == f0.starts[i]
            && f9.slots[i] == f0.slots[i] && paths9[i] == paths0[i]
}

/// The places of a match from where it parts from the path of a thread by
/// the first branch of a split, as long as it stays at the offset of the
/// list, have threads before that thread.
proof fn lemma_walk(
    g: Given,
    f: Front,
    my: int,
    other: Seq<(int, int)>,
    from: (int, int),
    d: int,
    t: int,
)
    requires
        is_run(g.ops, g.text, other, from),
        boundary(g.text, from.1),
        simple(other),
        shut(g, f, my, other.take(d)),
        0 < d <= t < other.len(),
        forall|u: int| d <= u <= t ==> (#[trigger] other[u]).1 == f.pos,
        has_before(f, my, other[d].0),
    ensures
        has_before(f, my, other[t].0),
    decreases t - d,
{
    if t > d {
        lemma_walk(g, f, my, other, from, d, t - 1);
        let a = choose|a: int| 0 <= a < my && #[trigger] f.pcs[a] == other[t - 1].0;
        assert(step_at(g.ops, g.text, other, t - 1));
        assert(other[t - 1].1 == f.pos);
        assert(other[t].1 == f.pos);
        lemma_path_boundary(g.ops, g.text, other, t - 1);
        lemma_step_stays(g.ops, g.text, other[t - 1], other[t]);
        assert(eps_step(g.ops, g.text, (f.pcs[a], f.pos), other[t]));
        if other.take(d).contains((f.pcs[a], f.pos)) {
            let u = choose|u: int| 0 <= u < other.take(d).len() && other.take(d)[u] == (f.pcs[a], f.pos);
            assert(other[u] == other[t - 1]);
        }
    }
}

/// Where a match parts from the path of the first thread that waits and
/// can reach a `Match`, at the offset of the list, the path takes the first
/// branch.
proof fn lemma_led_inner(
    g: Given,
    f: Front,
    paths: Seq<Seq<(int, int)>>,
    e: int,
    other: Seq<(int, int)>,
    d: int,
)
    requires
        traced(g, f, paths, 0, f.pcs.len() as int),
        0 <= e < f.pcs.len(),
        live_leaf(g, f, e),
        none_live(g, f, e),
        boundary(g.text, f.starts[e]),
        is_run(g.ops, g.text, other, (0, f.starts[e])),
        simple(other),
        diverge(paths[e], other, d),
        paths[e][d - 1].1 == f.pos,
    ensures
        first_branch(g.ops, paths[e][d - 1], paths[e][d]),
{
    reveal(traced);
    let way = paths[e];
    let z = way[d - 1];
    let from = (0int, f.starts[e]);
    assert(rooted(g, f, paths, e));
    lemma_path_stays(g.ops, g.text, way, d - 1, d, way.len() - 1);
    assert(step_at(g.ops, g.text, way, d - 1));
    assert(other.take(d)[d - 1] == way.take(d)[d - 1]);
    assert(step_at(g.ops, g.text, other, d - 1));
    lemma_fork(g.ops, g.text, z, way[d], other[d]);
    if !first_branch(g.ops, z, way[d]) {
        let wy = way.take(d + 1);
        let my = if d == way.len() - 1 {
            assert(wy =~= way);
            e
        } else {
            assert(sits(f, paths, e, way.take(d + 1)));
            choose|m: int| 0 <= m < e && #[trigger] f.pcs[m] == wy.last().0 && paths[m] == wy
        };
        assert(rooted(g, f, paths, my));
        assert(wy.drop_last() =~= other.take(d));
        assert(wy[wy.len() - 2] == z);
        assert(has_before(f, my, other[d].0));
        let t = lemma_last_here(g.ops, g.text, other, from, d);
        lemma_walk(g, f, my, other, from, d, t);
        let m2 = choose|m: int| 0 <= m < my && #[trigger] f.pcs[m] == other[t].0;
        assert(other[t] == (f.pcs[m2], f.pos));
        assert(live_leaf(g, f, m2));
    }
}

/// A list whose first live thread takes first branches does so after
/// threads were added behind it whose paths all go on from the path
/// `root`, which comes to the offset of the list with its last step only:
/// if no thread waited that can reach a `Match`, `root` must take first
/// branches.
pub proof fn lemma_led_span(
    g: Given,
    f0: Front,
    paths0: Seq<Seq<(int, int)>>,
    f9: Front,
    paths9: Seq<Seq<(int, int)>>,
    root: Seq<(int, int)>,
    p: int,
)
    requires
        extends(f0, paths0, f9, paths9),
        traced(g, f9, paths9, 0, f9.pcs.len() as int),
        led(g, f0, paths0),
        boundary(g.text, p),
        root.len() > 0,
        root[0] == (0int, p),
        root.last().1 == f9.pos,
        spans(f9, paths9, f0.pcs.len() as int, root, p),
        none_live(g, f0, f0.pcs.len() as int) && accepts(g.ops, g.text, root.last()) ==> lead(
            g.ops,
            g.text,
            (0, p),
            root,
        ),
    ensures
        led(g, f9, paths9),
{
    reveal(led);
    let lo = f0.pcs.len() as int;
    assert forall|e: int|
        0 <= e < f9.pcs.len() && #[trigger] live_leaf(g, f9, e) && none_live(g, f9, e) implies lead(
        g.ops,
        g.text,
        (0, f9.starts[e]),
        paths9[e],
    ) by {
        if e < lo {
            assert(f9.pcs[e] == f0.pcs[e]);
            assert(live_leaf(g, f0, e));
            assert forall|m: int| 0 <= m < e implies !live_leaf(g, f0, m) by {
                assert(f9.pcs[m] == f0.pcs[m]);
                assert(!live_leaf(g, f9, m));
            }
        } else {
            let way = paths9[e];
            let n = root.len() as int;
            assert(f9.starts[e] == p);
            assert(rooted(g, f9, paths9, e)) by {
                reveal(traced);
            }
            assert forall|m: int| 0 <= m < lo implies !live_leaf(g, f0, m) by {
                assert(f9.pcs[m] == f0.pcs[m]);
                assert(!live_leaf(g, f9, m));
            }
            assert(way.take(n)[n - 1] == root[n - 1]);
            lemma_path_tail(g.ops, g.text, way, n - 1);
            lemma_accepts_back(g.ops, g.text, way.subrange(n - 1, way.len() as int));
            assert(lead(g.ops, g.text, (0, p), root));
            assert forall|other: Seq<(int, int)>, d: int|
                is_run(g.ops, g.text, other, (0, p)) && simple(other) && #[trigger] diverge(
                    way,
                    other,
                    d,
                ) implies first_branch(g.ops, way[d - 1], way[d]) by {
                if d < n {
                    assert(root.take(d) =~= way.take(d)) by {
                        assert forall|i: int| 0 <= i < d implies root[i] == way[i] by {
                            assert(way.take(n)[i] == root[i]);
                        }
                    }
                    assert(way.take(n)[d] == root[d]);
                    assert(way.take(n)[d - 1] == root[d - 1]);
                    assert(diverge(root, other, d));
                } else {
                    lemma_path_stays(g.ops, g.text, way, n - 1, d - 1, way.len() - 1);
                    lemma_led_inner(g, f9, paths9, e, other, d);
                }
            }
        }
    }
}

/// The list `f` with one more thread, for `pc`, from offset `p`, with the
/// slots `tc`.
pub open spec fn pushed(f: Front, pc: int, p: int, tc: Seq<Option<usize>>) -> Front {
    Front { pcs: f.pcs.push(pc), starts: f.starts.push(p), slots: f.slots.push(tc), pos: f.pos }
}

/// What is given when threads are added for the end of the path `way` from
/// offset `p`: `way` is a path to the offset of the list, no place comes
/// twice before its end, its places at that offset have threads, every
/// other thread has what its steps lead to, and the slots `tc` begin with
/// the slots of `way`.
#[verifier::opaque]
pub open spec fn entry(
    g: Given,
    f: Front,
    paths: Seq<Seq<(int, int)>>,
    way: Seq<(int, int)>,
    p: int,
    tc: Seq<Option<usize>>,
) -> bool {
    &&& f.shaped()
    &&& paths.len() == f.pcs.len()
    &&& way.len() > 0
    &&& is_path(g.ops, g.text, way)
    &&& way[0] == (0int, p)
    &&& way.last().1 == f.pos
    &&& boundary(g.text, p)
    &&& simple(way.drop_last())
    &&& lined(f, paths, f.pcs.len() as int, way)
    &&& shut(g, f, f.pcs.len() as int, way.drop_last())
    &&& after_first(g, f, f.pcs.len() as int, way)
    &&& prefix_of(caps_after(g.ops, way, g.caps0), tc)
}

/// The threads of `f` from index `lo` on started at `p`, and the path of
/// each goes on from the path `root`.
pub open spec fn spans(
    f: Front,
    paths: Seq<Seq<(int, int)>>,
    lo: int,
    root: Seq<(int, int)>,
    p: int,
) -> bool {
    forall|e: int|
        #![trigger f.starts[e]]
        #![trigger paths[e]]
        0 <= e && lo <= e < f.pcs.len() ==> f.starts[e] == p && paths[e].len() >= root.len()
            && paths[e].take(root.len() as int) == root
}

/// What holds when threads were added for the end of the path `way` from
/// offset `p`: the list is the list that was with threads behind, which
/// have their paths, from `p`, that go on from `way`; every thread that is
/// not on `way` before its end has what its steps lead to; and there is a
/// thread for the end of `way`.
#[verifier::opaque]
pub open spec fn grew(
    g: Given,
    p: int,
    way: Seq<(int, int)>,
    f0: Front,
    paths0: Seq<Seq<(int, int)>>,
    f9: Front,
    paths9: Seq<Seq<(int, int)>>,
) -> bool {
    &&& extends(f0, paths0, f9, paths9)
    &&& spans(f9, paths9, f0.pcs.len() as int, way, p)
    &&& traced(g, f9, paths9, f0.pcs.len() as int, f9.pcs.len() as int)
    &&& shut(g, f9, f9.pcs.len() as int, way.drop_last())
    &&& has_before(f9, f9.pcs.len() as int, way.last().0)
}

/// A thread has its path in a longer list if it has it in the list.
proof fn lemma_rooted_more(
    g: Given,
    f0: Front,
    paths0: Seq<Seq<(int, int)>>,
    f9: Front,
    paths9: Seq<Seq<(int, int)>>,
    e: int,
)
    requires
        extends(f0, paths0, f9, paths9),
        0 <= e < f0.pcs.len(),
        rooted(g, f0, paths0, e),
    ensures
        rooted(g, f9, paths9, e),
{
    let way = paths0[e];
    assert(f9.pcs[e] == f0.pcs[e]);
    assert forall|t: int| 0 <= t < way.len() - 1 && (#[trigger] way[t]).1 == f9.pos implies sits(
        f9,
        paths9,
        e,
        way.take(t + 1),
    ) by {
        assert(sits(f0, paths0, e, way.take(t + 1)));
        let m = choose|m: int|
            0 <= m < e && #[trigger] f0.pcs[m] == way.take(t + 1).last().0 && paths0[m] == way.take(
                t + 1,
            );
        assert(f9.pcs[m] == f0.pcs[m]);
    }
    lemma_shut_more(g, f0, f9, e, way.drop_last());
    if has_before(f0, e, first_of(g.ops[way[way.len() - 2].0])) {
        lemma_before_more(f0, f9, e, first_of(g.ops[way[way.len() - 2].0]));
    }
}

/// What is before a thread in a list is before it in a longer list.
proof fn lemma_before_more(f0: Front, f9: Front, e: int, pc: int)
    requires
        f0.pcs.len() <= f9.pcs.len(),
        forall|i: int| 0 <= i < f0.pcs.len() ==> (#[trigger] f9.pcs[i]) == f0.pcs[i],
        0 <= e <= f0.pcs.len(),
        has_before(f0, e, pc),
    ensures
        has_before(f9, e, pc),
{
    let m = choose|m: int| 0 <= m < e && #[trigger] f0.pcs[m] == pc;
    assert(f9.pcs[m] == f0.pcs[m]);
}

/// The threads before a thread that have what their steps lead to have it
/// in a longer list.
proof fn lemma_shut_more(g: Given, f0: Front, f9: Front, e: int, gray: Seq<(int, int)>)
    requires
        f0.pos == f9.pos,
        f0.pcs.len() <= f9.pcs.len(),
        forall|i: int| 0 <= i < f0.pcs.len() ==> (#[trigger] f9.pcs[i]) == f0.pcs[i],
        0 <= e <= f0.pcs.len(),
        shut(g, f0, e, gray),
    ensures
        shut(g, f9, e, gray),
{
    assert forall|a: int, b: (int, int)|
        0 <= a < e && #[trigger] eps_step(g.ops, g.text, (f9.pcs[a], f9.pos), b) implies has_before(
        f9,
        e,
        b.0,
    ) || gray.contains((f9.pcs[a], f9.pos)) by {
        assert(f9.pcs[a] == f0.pcs[a]);
        assert(eps_step(g.ops, g.text, (f0.pcs[a], f0.pos), b));
        if has_before(f0, e, b.0) {
            lemma_before_more(f0, f9, e, b.0);
        }
    }
}

/// The threads of a list have their paths in a longer list.
pub proof fn lemma_traced_more(
    g: Given,
    f0: Front,
    paths0: Seq<Seq<(int, int)>>,
    f9: Front,
    paths9: Seq<Seq<(int, int)>>,
    lo: int,
    hi: int,
)
    requires
        extends(f0, paths0, f9, paths9),
        0 <= lo <= hi <= f0.pcs.len(),
        traced(g, f0, paths0, lo, hi),
    ensures
        traced(g, f9, paths9, lo, hi),
{
    reveal(traced);
    assert forall|e: int| lo <= e < hi implies rooted(g, f9, paths9, e) by {
        lemma_rooted_more(g, f0, paths0, f9, paths9, e);
    }
}

/// Threads that have their paths, one span behind the other, have them
/// together.
pub proof fn lemma_traced_join(
    g: Given,
    f: Front,
    paths: Seq<Seq<(int, int)>>,
    lo: int,
    mid: int,
    hi: int,
)
    requires
        traced(g, f, paths, lo, mid),
        traced(g, f, paths, mid, hi),
    ensures
        traced(g, f, paths, lo, hi),
{
    reveal(traced);
}

/// The end of `way` is not among its places before, where it has no thread
/// in the list.
proof fn lemma_way_simple(g: Given, f: Front, paths: Seq<Seq<(int, int)>>, way: Seq<(int, int)>, p: int)
    requires
        way.len() > 0,
        is_path(g.ops, g.text, way),
        way[0] == (0int, p),
        boundary(g.text, p),
        way.last().1 == f.pos,
        simple(way.drop_last()),
        lined(f, paths, f.pcs.len() as int, way),
        !f.pcs.contains(way.last().0),
    ensures
        simple(way),
{
    let n = way.len() as int;
    assert forall|i: int, j: int| 0 <= i < j < n implies way[i] != way[j] by {
        if j < n - 1 {
            assert(way.drop_last()[i] == way[i] && way.drop_last()[j] == way[j]);
        } else if way[i] == way[j] {
            assert(way[i].1 == f.pos);
            assert(sits(f, paths, f.pcs.len() as int, way.take(i + 1)));
            let m = choose|m: int|
                0 <= m < f.pcs.len() && #[trigger] f.pcs[m] == way.take(i + 1).last().0 && paths[m]
                    == way.take(i + 1);
            assert(f.pcs[m] == way.last().0);
        }
    }
}

/// Nothing is added for an instruction that has a thread.
pub proof fn lemma_grew_present(
    g: Given,
    p: int,
    way: Seq<(int, int)>,
    f: Front,
    paths: Seq<Seq<(int, int)>>,
    tc: Seq<Option<usize>>,
)
    requires
        entry(g, f, paths, way, p, tc),
        f.pcs.contains(way.last().0),
    ensures
        grew(g, p, way, f, paths, f, paths),
{
    reveal(entry);
    reveal(grew);
    reveal(traced);
    let m = choose|m: int| 0 <= m < f.pcs.len() && f.pcs[m] == way.last().0;
    assert(f.pcs[m] == way.last().0);
}

/// The new thread for the end of `way` has its path.
proof fn lemma_rooted_new(
    g: Given,
    p: int,
    way: Seq<(int, int)>,
    f: Front,
    paths: Seq<Seq<(int, int)>>,
    tc: Seq<Option<usize>>,
    kept: Seq<Option<usize>>,
)
    requires
        entry(g, f, paths, way, p, tc),
        !f.pcs.contains(way.last().0),
        leaf(g.ops, way.last().0) ==> prefix_of(caps_after(g.ops, way, g.caps0), kept),
    ensures
        extends(f, paths, pushed(f, way.last().0, p, kept), paths.push(way)),
        rooted(g, pushed(f, way.last().0, p, kept), paths.push(way), f.pcs.len() as int),
        simple(way),
{
    reveal(entry);
    let f1 = pushed(f, way.last().0, p, kept);
    let paths1 = paths.push(way);
    let lo = f.pcs.len() as int;
    lemma_way_simple(g, f, paths, way, p);
    assert forall|t: int| 0 <= t < way.len() - 1 && (#[trigger] way[t]).1 == f1.pos implies sits(
        f1,
        paths1,
        lo,
        way.take(t + 1),
    ) by {
        assert(sits(f, paths, lo, way.take(t + 1)));
        let m = choose|m: int|
            0 <= m < lo && #[trigger] f.pcs[m] == way.take(t + 1).last().0 && paths[m] == way.take(
                t + 1,
            );
        assert(f1.pcs[m] == f.pcs[m] && paths1[m] == paths[m]);
    }
    lemma_shut_more(g, f, f1, lo, way.drop_last());
    if way.len() >= 2 && has_before(f, lo, first_of(g.ops[way[way.len() - 2].0])) {
        lemma_before_more(f, f1, lo, first_of(g.ops[way[way.len() - 2].0]));
    }
}

/// One thread is added for an instruction from which no step that
/// consumes no character leads on.
pub proof fn lemma_grew_last(
    g: Given,
    p: int,
    way: Seq<(int, int)>,
    f: Front,
    paths: Seq<Seq<(int, int)>>,
    tc: Seq<Option<usize>>,
    kept: Seq<Option<usize>>,
)
    requires
        entry(g, f, paths, way, p, tc),
        !f.pcs.contains(way.last().0),
        leaf(g.ops, way.last().0) ==> prefix_of(caps_after(g.ops, way, g.caps0), kept),
        forall|b: (int, int)| !eps_step(g.ops, g.text, way.last(), b),
    ensures
        grew(g, p, way, f, paths, pushed(f, way.last().0, p, kept), paths.push(way)),
{
    lemma_rooted_new(g, p, way, f, paths, tc, kept);
    reveal(entry);
    reveal(grew);
    reveal(traced);
    let f1 = pushed(f, way.last().0, p, kept);
    let paths1 = paths.push(way);
    let lo = f.pcs.len() as int;
    assert(paths1[lo].take(way.len() as int) =~= way);
    assert(f1.pcs[lo] == way.last().0);
    assert forall|a: int, b: (int, int)|
        0 <= a < lo + 1 && #[trigger] eps_step(g.ops, g.text, (f1.pcs[a], f1.pos), b) implies has_before(
        f1,
        lo + 1,
        b.0,
    ) || way.drop_last().contains((f1.pcs[a], f1.pos)) by {
        if a < lo {
            assert(f1.pcs[a] == f.pcs[a]);
            assert(eps_step(g.ops, g.text, (f.pcs[a], f.pos), b));
            if has_before(f, lo, b.0) {
                lemma_before_more(f, f1, lo, b.0);
                let m = choose|m: int| 0 <= m < lo && #[trigger] f1.pcs[m] == b.0;
                assert(f1.pcs[m] == b.0);
            }
        }
    }
}

/// What is given for the end of `way` is given for a step from it, once
/// the thread for the end of `way` is in the list: for a step that is the
/// first branch of a split or the only step, with the slots as the
/// instruction leaves them.
pub proof fn lemma_entry_child(
    g: Given,
    p: int,
    way: Seq<(int, int)>,
    f: Front,
    paths: Seq<Seq<(int, int)>>,
    tc: Seq<Option<usize>>,
    kept: Seq<Option<usize>>,
    next: (int, int),
)
    requires
        entry(g, f, paths, way, p, tc),
        !f.pcs.contains(way.last().0),
        eps_step(g.ops, g.text, way.last(), next),
        g.ops[way.last().0] is Split ==> first_branch(g.ops, way.last(), next),
        g.caps0.len() <= tc.len(),
    ensures
        entry(
            g,
            pushed(f, way.last().0, p, kept),
            paths.push(way),
            way.push(next),
            p,
            saved(g.ops, way.last().0, way.last().1, tc),
        ),
{
    lemma_rooted_new(g, p, way, f, paths, tc, kept);
    reveal(entry);
    let f1 = pushed(f, way.last().0, p, kept);
    let paths1 = paths.push(way);
    let lo = f.pcs.len() as int;
    let way2 = way.push(next);
    lemma_path_push(g.ops, g.text, way, next, g.caps0);
    assert(way2.drop_last() =~= way);
    crate::run::lemma_caps_len(g.ops, way, g.caps0);
    assert forall|t: int| 0 <= t < way2.len() - 1 && (#[trigger] way2[t]).1 == f1.pos implies sits(
        f1,
        paths1,
        lo + 1,
        way2.take(t + 1),
    ) by {
        if t < way.len() - 1 {
            assert(way2.take(t + 1) =~= way.take(t + 1));
            assert(way[t] == way2[t]);
            assert(sits(f, paths, lo, way.take(t + 1)));
            let m = choose|m: int|
                0 <= m < lo && #[trigger] f.pcs[m] == way.take(t + 1).last().0 && paths[m]
                    == way.take(t + 1);
            assert(f1.pcs[m] == f.pcs[m] && paths1[m] == paths[m]);
        } else {
            assert(way2.take(t + 1) =~= way);
            assert(f1.pcs[lo] == way.last().0 && paths1[lo] == way);
        }
    }
    assert forall|a: int, b: (int, int)|
        0 <= a < lo + 1 && #[trigger] eps_step(g.ops, g.text, (f1.pcs[a], f1.pos), b) implies has_before(
        f1,
        lo + 1,
        b.0,
    ) || way.contains((f1.pcs[a], f1.pos)) by {
        if a < lo {
            assert(f1.pcs[a] == f.pcs[a]);
            assert(eps_step(g.ops, g.text, (f.pcs[a], f.pos), b));
            if has_before(f, lo, b.0) {
                lemma_before_more(f, f1, lo, b.0);
            } else {
                let u = choose|u: int|
                    0 <= u < way.drop_last().len() && way.drop_last()[u] == (f.pcs[a], f.pos);
                assert(way[u] == (f1.pcs[a], f1.pos));
            }
        } else {
            assert(way[way.len() - 1] == (f1.pcs[a], f1.pos));
        }
    }
}

/// What is given for the end of `way` is given for the second branch of
/// the split at the end of `way`, once threads were added for the first.
pub proof fn lemma_entry_second(
    g: Given,
    p: int,
    way: Seq<(int, int)>,
    f: Front,
    paths: Seq<Seq<(int, int)>>,
    tc: Seq<Option<usize>>,
    kept: Seq<Option<usize>>,
    first: (int, int),
    second: (int, int),
    f2: Front,
    paths2: Seq<Seq<(int, int)>>,
)
    requires
        entry(g, f, paths, way, p, tc),
        !f.pcs.contains(way.last().0),
        first_branch(g.ops, way.last(), first),
        eps_step(g.ops, g.text, way.last(), second),
        g.caps0.len() <= tc.len(),
        grew(g, p, way.push(first), pushed(f, way.last().0, p, kept), paths.push(way), f2, paths2),
    ensures
        entry(g, f2, paths2, way.push(second), p, tc),
{
    lemma_rooted_new(g, p, way, f, paths, tc, kept);
    reveal(entry);
    reveal(grew);
    let f1 = pushed(f, way.last().0, p, kept);
    let paths1 = paths.push(way);
    let lo = f.pcs.len() as int;
    let way2 = way.push(second);
    lemma_path_push(g.ops, g.text, way, second, g.caps0);
    assert(way2.drop_last() =~= way);
    assert(way.push(first).drop_last() =~= way);
    crate::run::lemma_caps_len(g.ops, way, g.caps0);
    assert forall|t: int| 0 <= t < way2.len() - 1 && (#[trigger] way2[t]).1 == f2.pos implies sits(
        f2,
        paths2,
        f2.pcs.len() as int,
        way2.take(t + 1),
    ) by {
        if t < way.len() - 1 {
            assert(way2.take(t + 1) =~= way.take(t + 1));
            assert(way[t] == way2[t]);
            assert(sits(f, paths, lo, way.take(t + 1)));
            let m = choose|m: int|
                0 <= m < lo && #[trigger] f.pcs[m] == way.take(t + 1).last().0 && paths[m]
                    == way.take(t + 1);
            assert(f1.pcs[m] == f.pcs[m] && paths1[m] == paths[m]);
            assert(f2.pcs[m] == f1.pcs[m] && paths2[m] == paths1[m]);
        } else {
            assert(way2.take(t + 1) =~= way);
            assert(f1.pcs[lo] == way.last().0 && paths1[lo] == way);
            assert(f2.pcs[lo] == f1.pcs[lo] && paths2[lo] == paths1[lo]);
        }
    }
    assert(way.push(first).last().0 == first_of(g.ops[way.last().0]));
}

/// A list that begins a second list begins every list that the second
/// begins.
pub proof fn lemma_extends_on(
    f0: Front,
    paths0: Seq<Seq<(int, int)>>,
    f1: Front,
    paths1: Seq<Seq<(int, int)>>,
    f2: Front,
    paths2: Seq<Seq<(int, int)>>,
)
    requires
        extends(f0, paths0, f1, paths1),
        extends(f1, paths1, f2, paths2),
    ensures
        extends(f0, paths0, f2, paths2),
{
    assert forall|i: int| 0 <= i < f0.pcs.len() implies (#[trigger] f2.pcs[i]) == f0.pcs[i]
        && f2.starts[i] == f0.starts[i] && f2.slots[i] == f0.slots[i] && paths2[i] == paths0[i] by {
        assert(f2.pcs[i] == f1.pcs[i]);
        assert(f1.pcs[i] == f0.pcs[i]);
    }
}

/// A list begins the list with one more thread.
pub proof fn lemma_extends_pushed(
    f: Front,
    paths: Seq<Seq<(int, int)>>,
    pc: int,
    p: int,
    kept: Seq<Option<usize>>,
    way: Seq<(int, int)>,
)
    requires
        f.shaped(),
        paths.len() == f.pcs.len(),
    ensures
        extends(f, paths, pushed(f, pc, p, kept), paths.push(way)),
{
}

/// Threads whose paths go on from a path go on from each path that it
/// begins with.
pub proof fn lemma_spans_root(
    f: Front,
    paths: Seq<Seq<(int, int)>>,
    lo: int,
    longer: Seq<(int, int)>,
    root: Seq<(int, int)>,
    p: int,
)
    requires
        spans(f, paths, lo, longer, p),
        root.len() <= longer.len(),
        longer.take(root.len() as int) == root,
    ensures
        spans(f, paths, lo, root, p),
{
    assert forall|e: int|
        #![trigger f.starts[e]]
        #![trigger paths[e]]
        0 <= e && lo <= e < f.pcs.len() implies f.starts[e] == p && paths[e].len() >= root.len()
        && paths[e].take(root.len() as int) == root by {
        assert(f.starts[e] == p);
        assert(paths[e].take(longer.len() as int) == longer);
        assert(paths[e].take(root.len() as int) =~= longer.take(root.len() as int));
    }
}

/// Threads of a list whose paths go on from `root`, and the threads behind
/// them in a longer list whose paths do, are the threads of the longer list
/// from the first of them on.
pub proof fn lemma_spans_join(
    f0: Front,
    paths0: Seq<Seq<(int, int)>>,
    f9: Front,
    paths9: Seq<Seq<(int, int)>>,
    lo: int,
    root: Seq<(int, int)>,
    p: int,
)
    requires
        0 <= lo,
        extends(f0, paths0, f9, paths9),
        spans(f0, paths0, lo, root, p),
        spans(f9, paths9, f0.pcs.len() as int, root, p),
    ensures
        spans(f9, paths9, lo, root, p),
{
    assert forall|e: int|
        #![trigger f9.starts[e]]
        #![trigger paths9[e]]
        0 <= e && lo <= e < f9.pcs.len() implies f9.starts[e] == p && paths9[e].len() >= root.len()
        && paths9[e].take(root.len() as int) == root by {
        if e < f0.pcs.len() {
            assert(f9.pcs[e] == f0.pcs[e]);
            assert(f0.starts[e] == p);
        } else {
            assert(f9.starts[e] == p);
        }
    }
}

/// The last thread of a list, which started at `p` and has the path
/// `root`, is one whose path goes on from `root`.
pub proof fn lemma_spans_last(f: Front, paths: Seq<Seq<(int, int)>>, root: Seq<(int, int)>, p: int)
    requires
        f.shaped(),
        paths.len() == f.pcs.len(),
        f.pcs.len() > 0,
        f.starts.last() == p,
        paths.last() == root,
    ensures
        spans(f, paths, f.pcs.len() - 1, root, p),
{
    assert(root.take(root.len() as int) =~= root);
}

/// A thread for the end of `way`, and threads behind it that have their
/// paths, which go on from `way`, are what is added for the end of `way`,
/// if every step from the end of `way` that consumes no character leads to
/// a thread.
proof fn lemma_grew_close(
    g: Given,
    p: int,
    way: Seq<(int, int)>,
    f: Front,
    paths: Seq<Seq<(int, int)>>,
    tc: Seq<Option<usize>>,
    kept: Seq<Option<usize>>,
    f9: Front,
    paths9: Seq<Seq<(int, int)>>,
)
    requires
        entry(g, f, paths, way, p, tc),
        way.len() > 0,
        !f.pcs.contains(way.last().0),
        !leaf(g.ops, way.last().0),
        extends(pushed(f, way.last().0, p, kept), paths.push(way), f9, paths9),
        spans(f9, paths9, f.pcs.len() as int + 1, way, p),
        traced(g, f9, paths9, f.pcs.len() as int + 1, f9.pcs.len() as int),
        shut(g, f9, f9.pcs.len() as int, way),
        forall|b: (int, int)| eps_step(g.ops, g.text, way.last(), b) ==> has_before(
            f9,
            f9.pcs.len() as int,
            b.0,
        ),
    ensures
        grew(g, p, way, f, paths, f9, paths9),
{
    lemma_rooted_new(g, p, way, f, paths, tc, kept);
    reveal(entry);
    reveal(grew);
    let f1 = pushed(f, way.last().0, p, kept);
    let paths1 = paths.push(way);
    let lo = f.pcs.len() as int;
    lemma_extends_pushed(f, paths, way.last().0, p, kept, way);
    lemma_extends_on(f, paths, f1, paths1, f9, paths9);
    assert(f1.pcs.len() == lo + 1);
    assert(f9.pcs[lo] == f1.pcs[lo]);
    assert(f9.starts[lo] == f1.starts[lo] && paths9[lo] == paths1[lo]);
    assert(f1.starts.last() == p && paths1.last() == way);
    lemma_spans_last(f1, paths1, way, p);
    lemma_spans_join(f1, paths1, f9, paths9, lo, way, p);
    assert(traced(g, f9, paths9, lo, f9.pcs.len() as int)) by {
        reveal(traced);
        lemma_rooted_more(g, f1, paths1, f9, paths9, lo);
    }
    assert forall|a: int, b: (int, int)|
        0 <= a < f9.pcs.len() && #[trigger] eps_step(g.ops, g.text, (f9.pcs[a], f9.pos), b) implies has_before(
        f9,
        f9.pcs.len() as int,
        b.0,
    ) || way.drop_last().contains((f9.pcs[a], f9.pos)) by {
        if !has_before(f9, f9.pcs.len() as int, b.0) {
            assert(way.contains((f9.pcs[a], f9.pos)));
            let u = choose|u: int| 0 <= u < way.len() && way[u] == (f9.pcs[a], f9.pos);
            if u == way.len() - 1 {
                assert(eps_step(g.ops, g.text, way.last(), b));
            } else {
                assert(way.drop_last()[u] == (f9.pcs[a], f9.pos));
            }
        }
    }
    assert(has_before(f9, f9.pcs.len() as int, way.last().0)) by {
        assert(f9.pcs[lo] == way.last().0);
    }
    assert(shut(g, f9, f9.pcs.len() as int, way.drop_last()));
}

/// A thread for the end of `way` and what was added for the one place
/// that its steps lead to are what is added for the end of `way`.
pub proof fn lemma_grew_one(
    g: Given,
    p: int,
    way: Seq<(int, int)>,
    f: Front,
    paths: Seq<Seq<(int, int)>>,
    tc: Seq<Option<usize>>,
    kept: Seq<Option<usize>>,
    next: (int, int),
    f9: Front,
    paths9: Seq<Seq<(int, int)>>,
)
    requires
        entry(g, f, paths, way, p, tc),
        way.len() > 0,
        !f.pcs.contains(way.last().0),
        !leaf(g.ops, way.last().0),
        grew(g, p, way.push(next), pushed(f, way.last().0, p, kept), paths.push(way), f9, paths9),
        forall|b: (int, int)| eps_step(g.ops, g.text, way.last(), b) ==> b == next,
    ensures
        grew(g, p, way, f, paths, f9, paths9),
{
    reveal(grew);
    let way9 = way.push(next);
    assert(way9.drop_last() =~= way);
    assert(way9.take(way.len() as int) =~= way);
    lemma_spans_root(f9, paths9, f.pcs.len() as int + 1, way9, way, p);
    lemma_grew_close(g, p, way, f, paths, tc, kept, f9, paths9);
}

/// A thread for a split at the end of `way` and what was added for its
/// two branches, one after the other, are what is added for the end of
/// `way`.
pub proof fn lemma_grew_two(
    g: Given,
    p: int,
    way: Seq<(int, int)>,
    f: Front,
    paths: Seq<Seq<(int, int)>>,
    tc: Seq<Option<usize>>,
    kept: Seq<Option<usize>>,
    first: (int, int),
    second: (int, int),
    f2: Front,
    paths2: Seq<Seq<(int, int)>>,
    f9: Front,
    paths9: Seq<Seq<(int, int)>>,
)
    requires
        entry(g, f, paths, way, p, tc),
        way.len() > 0,
        !f.pcs.contains(way.last().0),
        !leaf(g.ops, way.last().0),
        grew(g, p, way.push(first), pushed(f, way.last().0, p, kept), paths.push(way), f2, paths2),
        grew(g, p, way.push(second), f2, paths2, f9, paths9),
        forall|b: (int, int)| eps_step(g.ops, g.text, way.last(), b) ==> b == first || b == second,
    ensures
        grew(g, p, way, f, paths, f9, paths9),
{
    reveal(grew);
    let f1 = pushed(f, way.last().0, p, kept);
    let paths1 = paths.push(way);
    let lo = f.pcs.len() as int;
    let mid = f2.pcs.len() as int;
    let way1 = way.push(first);
    let way2 = way.push(second);
    assert(way1.drop_last() =~= way);
    assert(way2.drop_last() =~= way);
    assert(way1.take(way.len() as int) =~= way);
    assert(way2.take(way.len() as int) =~= way);
    lemma_extends_on(f1, paths1, f2, paths2, f9, paths9);
    lemma_spans_root(f2, paths2, lo + 1, way1, way, p);
    lemma_spans_root(f9, paths9, mid, way2, way, p);
    lemma_spans_join(f2, paths2, f9, paths9, lo + 1, way, p);
    lemma_traced_more(g, f2, paths2, f9, paths9, lo + 1, mid);
    lemma_traced_join(g, f9, paths9, lo + 1, mid, f9.pcs.len() as int);
    lemma_before_more(f2, f9, mid, first.0);
    assert(has_before(f9, f9.pcs.len() as int, first.0)) by {
        let m = choose|m: int| 0 <= m < mid && #[trigger] f9.pcs[m] == first.0;
        assert(f9.pcs[m] == first.0);
    }
    assert(shut(g, f9, f9.pcs.len() as int, way));
    assert forall|b: (int, int)| eps_step(g.ops, g.text, way.last(), b) implies has_before(
        f9,
        f9.pcs.len() as int,
        b.0,
    ) by {
        assert(b == first || b == second);
    }
    lemma_grew_close(g, p, way, f, paths, tc, kept, f9, paths9);
}

/// What `entry` says of the path and the list.
pub proof fn lemma_entry_open(
    g: Given,
    f: Front,
    paths: Seq<Seq<(int, int)>>,
    way: Seq<(int, int)>,
    p: int,
    tc: Seq<Option<usize>>,
)
    requires
        entry(g, f, paths, way, p, tc),
    ensures
        f.shaped(),
        paths.len() == f.pcs.len(),
        way.len() > 0,
        way.last().1 == f.pos,
{
    reveal(entry);
}

/// Slots that agree with `tc` on the first slots begin with the slots of
/// `way` as `tc` does.
pub proof fn lemma_entry_copy(
    g: Given,
    f: Front,
    paths: Seq<Seq<(int, int)>>,
    way: Seq<(int, int)>,
    p: int,
    tc: Seq<Option<usize>>,
    copy: Seq<Option<usize>>,
)
    requires
        entry(g, f, paths, way, p, tc),
        g.caps0.len() <= copy.len(),
        g.caps0.len() <= tc.len(),
        forall|s: int| 0 <= s < g.caps0.len() ==> copy[s] == tc[s],
    ensures
        prefix_of(caps_after(g.ops, way, g.caps0), copy),
{
    reveal(entry);
    crate::run::lemma_caps_len(g.ops, way, g.caps0);
}

/// A list with one more thread is the list grown by that thread.
pub proof fn lemma_grown_once(f: Front, pc: int, kept: Seq<Option<usize>>, p: int)
    requires
        f.shaped(),
    ensures
        f.grown(f.pcs.push(pc), f.slots.push(kept), p) == pushed(f, pc, p, kept),
{
    assert(f.grown(f.pcs.push(pc), f.slots.push(kept), p).starts =~= f.starts.push(p));
}

/// A list with one more thread, grown further, is the list grown.
pub proof fn lemma_grown_twice(
    f: Front,
    pc: int,
    kept: Seq<Option<usize>>,
    pcs9: Seq<int>,
    slots9: Seq<Seq<Option<usize>>>,
    p: int,
)
    requires
        f.shaped(),
        pcs9.len() > f.pcs.len(),
    ensures
        pushed(f, pc, p, kept).grown(pcs9, slots9, p) == f.grown(pcs9, slots9, p),
{
    assert(pushed(f, pc, p, kept).grown(pcs9, slots9, p).starts =~= f.grown(pcs9, slots9, p).starts);
}

/// A list with one more thread, grown further in two goes, is the list
/// grown.
pub proof fn lemma_grown_thrice(
    f: Front,
    pc: int,
    kept: Seq<Option<usize>>,
    pcs2: Seq<int>,
    slots2: Seq<Seq<Option<usize>>>,
    pcs9: Seq<int>,
    slots9: Seq<Seq<Option<usize>>>,
    p: int,
)
    requires
        f.shaped(),
        f.pcs.len() < pcs2.len() <= pcs9.len(),
    ensures
        pushed(f, pc, p, kept).grown(pcs2, slots2, p).grown(pcs9, slots9, p) == f.grown(
            pcs9,
            slots9,
            p,
        ),
{
    assert(pushed(f, pc, p, kept).grown(pcs2, slots2, p).grown(pcs9, slots9, p).starts =~= f.grown(
        pcs9,
        slots9,
        p,
    ).starts);
}

/// Some thread waits at its instruction and can reach a `Match`.
pub open spec fn some_live(g: Given, f: Front) -> bool {
    exists|m: int| 0 <= m < f.pcs.len() && #[trigger] live_leaf(g, f, m)
}

/// If one of the first `i` threads of `cur` waits and can reach a `Match`,
/// a thread of `nxt` does.
#[verifier::opaque]
pub open spec fn handed(g: Given, cur: Front, nxt: Front, i: int) -> bool {
    (exists|j: int| 0 <= j < i && #[trigger] live_leaf(g, cur, j)) ==> some_live(g, nxt)
}

/// Once a match was found: it is the preferred match from the offset
/// `bound`, or a thread waits that can reach a `Match`.
#[verifier::opaque]
pub open spec fn aim(g: Given, f: Front, matched: bool, bound: int, win: Seq<(int, int)>) -> bool {
    matched ==> preferred(g.ops, g.text, (0, bound), win) || some_live(g, f)
}

/// Nothing was handed on yet.
pub proof fn lemma_handed_start(g: Given, cur: Front, nxt: Front)
    ensures
        handed(g, cur, nxt, 0),
{
    reveal(handed);
}

/// A thread that waits and can reach a `Match`, and is at no `Match`,
/// consumes the character at its offset, and a thread that waits and can
/// reach a `Match` is among those at the next offset once the list there
/// holds what it leads to.
proof fn lemma_live_on(g: Given, cur: Front, nxt: Front, i: int)
    requires
        g.wf(),
        0 <= i < cur.pcs.len(),
        cur.shaped(),
        live_leaf(g, cur, i),
        !accepting(g.ops, (cur.pcs[i], cur.pos)),
        boundary(g.text, cur.pos),
        nxt.shaped(),
        nxt.pos == next_pos(g.text, cur.pos),
        nxt.closed(g, 0, nxt.pcs.len() as int),
        consumes(g, cur.pcs[i], cur.pos) ==> nxt.has(cur.pcs[i] + 1, cur.starts[i]),
    ensures
        consumes(g, cur.pcs[i], cur.pos),
        some_live(g, nxt),
{
    let at = (cur.pcs[i], cur.pos);
    let run = choose|run: Seq<(int, int)>| is_run(g.ops, g.text, run, at);
    lemma_run_head(g.ops, g.text, run, at);
    assert(step_at(g.ops, g.text, run, 0));
    lemma_boundary_range(g.text, cur.pos);
    lemma_next_boundary(g.text, cur.pos);
    let t = lemma_last_here(g.ops, g.text, run, at, 1);
    let part = run.subrange(1, t + 1);
    assert(is_path(g.ops, g.text, part)) by {
        assert forall|k: int| 0 <= k < part.len() - 1 implies #[trigger] step_at(
            g.ops,
            g.text,
            part,
            k,
        ) by {
            assert(step_at(g.ops, g.text, run, k + 1));
        }
    }
    assert forall|u: int| 0 <= u < part.len() implies part[u].1 == nxt.pos by {
        assert(run[u + 1].1 == run[1].1);
    }
    lemma_closure_walk(g, nxt, part, 0, cur.starts[i]);
    let m = choose|m: int|
        0 <= m < nxt.pcs.len() && #[trigger] nxt.pcs[m] == part.last().0 && nxt.starts[m]
            <= cur.starts[i];
    assert(run[t] == (nxt.pcs[m], nxt.pos));
    assert(live_leaf(g, nxt, m));
}

/// One more stepped thread hands on.
pub proof fn lemma_handed_more(g: Given, cur: Front, nxt0: Front, nxt9: Front, i: int)
    requires
        g.wf(),
        0 <= i < cur.pcs.len(),
        cur.shaped(),
        handed(g, cur, nxt0, i),
        nxt0.pcs.len() <= nxt9.pcs.len(),
        nxt0.pos == nxt9.pos,
        forall|m: int| 0 <= m < nxt0.pcs.len() ==> (#[trigger] nxt9.pcs[m]) == nxt0.pcs[m],
        !accepting(g.ops, (cur.pcs[i], cur.pos)),
        boundary(g.text, cur.pos),
        nxt9.shaped(),
        nxt9.pos == next_pos(g.text, cur.pos),
        nxt9.closed(g, 0, nxt9.pcs.len() as int),
        consumes(g, cur.pcs[i], cur.pos) ==> nxt9.has(cur.pcs[i] + 1, cur.starts[i]),
    ensures
        handed(g, cur, nxt9, i + 1),
{
    reveal(handed);
    if exists|j: int| 0 <= j < i + 1 && #[trigger] live_leaf(g, cur, j) {
        let j = choose|j: int| 0 <= j < i + 1 && #[trigger] live_leaf(g, cur, j);
        if j < i {
            let m = choose|m: int| 0 <= m < nxt0.pcs.len() && #[trigger] live_leaf(g, nxt0, m);
            assert(nxt9.pcs[m] == nxt0.pcs[m]);
            assert(live_leaf(g, nxt9, m));
        } else {
            lemma_live_on(g, cur, nxt9, i);
        }
    }
}

/// What is given for the thread that the step of thread `i` of `cur` over
/// the character at its offset leads to.
pub proof fn lemma_entry_top(
    g: Given,
    cur: Front,
    cp: Seq<Seq<(int, int)>>,
    i: int,
    nxt: Front,
    np: Seq<Seq<(int, int)>>,
)
    requires
        g.wf(),
        traced(g, cur, cp, 0, cur.pcs.len() as int),
        0 <= i < cur.pcs.len(),
        consumes(g, cur.pcs[i], cur.pos),
        boundary(g.text, cur.pos),
        boundary(g.text, cur.starts[i]),
        nxt.pos == next_pos(g.text, cur.pos),
        nxt.shaped(),
        np.len() == nxt.pcs.len(),
        nxt.closed(g, 0, nxt.pcs.len() as int),
    ensures
        entry(
            g,
            nxt,
            np,
            cp[i].push((cur.pcs[i] + 1, nxt.pos)),
            cur.starts[i],
            cur.slots[i],
        ),
        cp[i].len() > 0 && cp[i].last() == (cur.pcs[i], cur.pos),
{
    reveal(traced);
    reveal(entry);
    reveal(Front::closed);
    assert(rooted(g, cur, cp, i));
    let way = cp[i];
    let next = (cur.pcs[i] + 1, nxt.pos);
    let way2 = way.push(next);
    lemma_path_push(g.ops, g.text, way, next, g.caps0);
    assert(way2.drop_last() =~= way);
    lemma_boundary_range(g.text, cur.pos);
    lemma_next_boundary(g.text, cur.pos);
    assert forall|t: int| 0 <= t < way2.len() - 1 implies (#[trigger] way2[t]).1 != nxt.pos by {
        lemma_path_mono(g.ops, g.text, way, t, way.len() - 1);
    }
    assert forall|a: int, b: (int, int)|
        0 <= a < nxt.pcs.len() && #[trigger] eps_step(g.ops, g.text, (nxt.pcs[a], nxt.pos), b) implies has_before(
        nxt,
        nxt.pcs.len() as int,
        b.0,
    ) || way.contains((nxt.pcs[a], nxt.pos)) by {
        assert(nxt.has(b.0, nxt.starts[a]));
        let m = choose|m: int|
            0 <= m < nxt.pcs.len() && #[trigger] nxt.pcs[m] == b.0 && nxt.starts[m] <= nxt.starts[a];
        assert(nxt.pcs[m] == b.0);
    }
}

/// What is given for the thread for the start of the program at the
/// offset of the list.
pub proof fn lemma_entry_seed(g: Given, cur: Front, cp: Seq<Seq<(int, int)>>, caps: Seq<Option<usize>>)
    requires
        cur.shaped(),
        cp.len() == cur.pcs.len(),
        cur.closed(g, 0, cur.pcs.len() as int),
        boundary(g.text, cur.pos),
        caps == g.caps0,
    ensures
        entry(g, cur, cp, seq![(0int, cur.pos)], cur.pos, caps),
{
    reveal(entry);
    reveal(Front::closed);
    let way = seq![(0int, cur.pos)];
    assert(is_path(g.ops, g.text, way));
    assert(caps_after(g.ops, way, g.caps0) == g.caps0);
    assert forall|a: int, b: (int, int)|
        0 <= a < cur.pcs.len() && #[trigger] eps_step(g.ops, g.text, (cur.pcs[a], cur.pos), b) implies has_before(
        cur,
        cur.pcs.len() as int,
        b.0,
    ) || way.drop_last().contains((cur.pcs[a], cur.pos)) by {
        assert(cur.has(b.0, cur.starts[a]));
        let m = choose|m: int|
            0 <= m < cur.pcs.len() && #[trigger] cur.pcs[m] == b.0 && cur.starts[m] <= cur.starts[a];
        assert(cur.pcs[m] == b.0);
    }
}

/// The path of thread `i` of `cur` with its step over the character takes
/// first branches, if no thread of `nxt` waits that can reach a `Match`
/// while what the step leads to can.
pub proof fn lemma_root_lead(
    g: Given,
    cur: Front,
    cp: Seq<Seq<(int, int)>>,
    i: int,
    nxt: Front,
)
    requires
        traced(g, cur, cp, 0, cur.pcs.len() as int),
        led(g, cur, cp),
        handed(g, cur, nxt, i),
        0 <= i < cur.pcs.len(),
        consumes(g, cur.pcs[i], cur.pos),
        nxt.pos == next_pos(g.text, cur.pos),
    ensures
        none_live(g, nxt, nxt.pcs.len() as int) && accepts(
            g.ops,
            g.text,
            (cur.pcs[i] + 1, nxt.pos),
        ) ==> lead(
            g.ops,
            g.text,
            (0, cur.starts[i]),
            cp[i].push((cur.pcs[i] + 1, nxt.pos)),
        ),
{
    reveal(traced);
    reveal(led);
    reveal(handed);
    let next = (cur.pcs[i] + 1, nxt.pos);
    if none_live(g, nxt, nxt.pcs.len() as int) && accepts(g.ops, g.text, next) {
        assert(rooted(g, cur, cp, i));
        let at = (cur.pcs[i], cur.pos);
        let pair = seq![at, next];
        assert(is_path(g.ops, g.text, pair)) by {
            assert forall|k: int| 0 <= k < pair.len() - 1 implies #[trigger] step_at(
                g.ops,
                g.text,
                pair,
                k,
            ) by {}
        }
        lemma_accepts_back(g.ops, g.text, pair);
        assert(live_leaf(g, cur, i));
        assert forall|j: int| 0 <= j < i implies !live_leaf(g, cur, j) by {
            if live_leaf(g, cur, j) {
                let m = choose|m: int| 0 <= m < nxt.pcs.len() && #[trigger] live_leaf(g, nxt, m);
                assert(!live_leaf(g, nxt, m));
            }
        }
        assert(none_live(g, cur, i));
        lemma_lead_push(g.ops, g.text, (0, cur.starts[i]), cp[i], next);
    }
}

/// After threads were added to a list whose threads have their paths and
/// whose first live thread takes first branches, the same holds of the
/// longer list, if the path that the new threads go on from takes first
/// branches where it must.
pub proof fn lemma_led_grew(
    g: Given,
    p: int,
    way: Seq<(int, int)>,
    f0: Front,
    paths0: Seq<Seq<(int, int)>>,
    f9: Front,
    paths9: Seq<Seq<(int, int)>>,
)
    requires
        grew(g, p, way, f0, paths0, f9, paths9),
        traced(g, f0, paths0, 0, f0.pcs.len() as int),
        led(g, f0, paths0),
        boundary(g.text, p),
        way.len() > 0,
        way[0] == (0int, p),
        way.last().1 == f9.pos,
        none_live(g, f0, f0.pcs.len() as int) && accepts(g.ops, g.text, way.last()) ==> lead(
            g.ops,
            g.text,
            (0, p),
            way,
        ),
    ensures
        extends(f0, paths0, f9, paths9),
        traced(g, f9, paths9, 0, f9.pcs.len() as int),
        led(g, f9, paths9),
{
    reveal(grew);
    lemma_traced_more(g, f0, paths0, f9, paths9, 0, f0.pcs.len() as int);
    lemma_traced_join(g, f9, paths9, 0, f0.pcs.len() as int, f9.pcs.len() as int);
    assert(extends(f0, paths0, f9, paths9));
    assert(traced(g, f9, paths9, 0, f9.pcs.len() as int));
    assert(way.len() > 0 && way[0] == (0int, p) && way.last().1 == f9.pos);
    let root = way;
    assert forall|e: int| f0.pcs.len() <= e < f9.pcs.len() implies (#[trigger] f9.starts[e]) == p
        && paths9[e].len() >= root.len() && paths9[e].take(root.len() as int) == root by {
        assert(f9.starts[e] == p);
    }
    assert(spans(f9, paths9, f0.pcs.len() as int, root, p));
    lemma_led_span(g, f0, paths0, f9, paths9, root, p);
}

/// The list with no thread has its paths, and its first live thread takes
/// first branches: it has none.
pub proof fn lemma_none_led(g: Given, pos: int)
    ensures
        traced(g, Front::none(pos), Seq::empty(), 0, 0),
        led(g, Front::none(pos), Seq::empty()),
        !some_live(g, Front::none(pos)),
{
    reveal(traced);
    reveal(led);
}

/// At the end of the text, a thread that waits and can reach a `Match` is
/// at a `Match`.
pub proof fn lemma_live_at_end(g: Given, f: Front, e: int)
    requires
        f.pos == g.text.len(),
        live_leaf(g, f, e),
    ensures
        accepting(g.ops, (f.pcs[e], f.pos)),
{
    let at = (f.pcs[e], f.pos);
    let run = choose|run: Seq<(int, int)>| is_run(g.ops, g.text, run, at);
    lemma_run_head(g.ops, g.text, run, at);
}

/// The thread at a `Match` that is found first in a list has the match
/// that is aimed at: the preferred one, or one that a thread which waits
/// and can reach a `Match` will better.
pub proof fn lemma_aim_hit(
    g: Given,
    cur: Front,
    cp: Seq<Seq<(int, int)>>,
    nxt: Front,
    idx: int,
)
    requires
        traced(g, cur, cp, 0, cur.pcs.len() as int),
        led(g, cur, cp),
        handed(g, cur, nxt, idx),
        0 <= idx < cur.pcs.len(),
        accepting(g.ops, (cur.pcs[idx], cur.pos)),
    ensures
        aim(g, nxt, true, cur.starts[idx], cp[idx]),
        is_run(g.ops, g.text, cp[idx], (0, cur.starts[idx])),
        simple(cp[idx]),
        none_live(g, cur, idx) ==> preferred(g.ops, g.text, (0, cur.starts[idx]), cp[idx]),
{
    reveal(traced);
    reveal(led);
    reveal(handed);
    reveal(aim);
    assert(rooted(g, cur, cp, idx));
    let at = (cur.pcs[idx], cur.pos);
    let alone = seq![at];
    assert(is_run(g.ops, g.text, alone, at));
    assert(live_leaf(g, cur, idx));
    if !none_live(g, cur, idx) {
        let j = choose|j: int| 0 <= j < idx && live_leaf(g, cur, j);
        assert(live_leaf(g, cur, j));
    }
}

/// What is aimed at stays aimed at when the threads were stepped with no
/// `Match` among them.
pub proof fn lemma_aim_keep(g: Given, cur: Front, nxt: Front, bound: int, win: Seq<(int, int)>)
    requires
        aim(g, cur, true, bound, win),
        handed(g, cur, nxt, cur.pcs.len() as int),
    ensures
        aim(g, nxt, true, bound, win),
{
    reveal(aim);
    reveal(handed);
    if some_live(g, cur) {
        let m = choose|m: int| 0 <= m < cur.pcs.len() && #[trigger] live_leaf(g, cur, m);
        assert(live_leaf(g, cur, m));
    }
}

/// With no thread that waits and can reach a `Match`, what was aimed at is
/// the preferred match.
pub proof fn lemma_aim_done(g: Given, f: Front, bound: int, win: Seq<(int, int)>)
    requires
        aim(g, f, true, bound, win),
        !some_live(g, f),
    ensures
        preferred(g.ops, g.text, (0, bound), win),
{
    reveal(aim);
}

/// At the end of the text, with none of the first `idx` threads at a
/// `Match`, none of them waits and can reach a `Match`.
pub proof fn lemma_none_live_at_end(g: Given, f: Front, idx: int)
    requires
        f.pos == g.text.len(),
        no_match(g, f, idx),
        0 <= idx <= f.pcs.len(),
    ensures
        none_live(g, f, idx),
        idx == f.pcs.len() ==> !some_live(g, f),
{
    reveal(no_match);
    assert forall|m: int| 0 <= m < idx implies !live_leaf(g, f, m) by {
        if live_leaf(g, f, m) {
            lemma_live_at_end(g, f, m);
        }
    }
}

/// What the path of a thread that has its path is.
pub proof fn lemma_rooted_open(g: Given, f: Front, paths: Seq<Seq<(int, int)>>, e: int)
    requires
        traced(g, f, paths, 0, f.pcs.len() as int),
        0 <= e < f.pcs.len(),
    ensures
        paths.len() == f.pcs.len(),
        paths[e].len() > 0,
        is_path(g.ops, g.text, paths[e]),
        paths[e][0] == (0int, f.starts[e]),
        paths[e].last() == (f.pcs[e], f.pos),
        simple(paths[e]),
        leaf(g.ops, f.pcs[e]) ==> prefix_of(caps_after(g.ops, paths[e], g.caps0), f.slots[e]),
        accepting(g.ops, (f.pcs[e], f.pos)) ==> is_run(g.ops, g.text, paths[e], (0, f.starts[e])),
{
    reveal(traced);
    assert(rooted(g, f, paths, e));
}

/// The paths of a list whose threads have their paths are as many as the
/// threads.
pub proof fn lemma_traced_len(g: Given, f: Front, paths: Seq<Seq<(int, int)>>)
    requires
        traced(g, f, paths, 0, f.pcs.len() as int),
    ensures
        paths.len() == f.pcs.len(),
{
    reveal(traced);
}

/// What holds of the paths between two steps of the simulation: the
/// threads of `cur` have their paths `cp`, the first that waits and can
/// reach a `Match` takes first branches, and once a match was found, it is
/// the preferred match from the offset `bound` or a thread waits that can
/// reach a `Match`.
#[verifier::opaque]
pub open spec fn routed(
    g: Given,
    cur: Front,
    cp: Seq<Seq<(int, int)>>,
    matched: bool,
    bound: int,
    win: Seq<(int, int)>,
) -> bool {
    &&& traced(g, cur, cp, 0, cur.pcs.len() as int)
    &&& led(g, cur, cp)
    &&& aim(g, cur, matched, bound, win)
}

/// With no thread and no match, the paths are as they should be.
pub proof fn lemma_routed_none(g: Given, pos: int, bound: int, win: Seq<(int, int)>)
    ensures
        routed(g, Front::none(pos), Seq::empty(), false, bound, win),
{
    reveal(routed);
    reveal(aim);
    lemma_none_led(g, pos);
}

/// What `routed` says of the paths.
pub proof fn lemma_routed_open(
    g: Given,
    cur: Front,
    cp: Seq<Seq<(int, int)>>,
    matched: bool,
    bound: int,
    win: Seq<(int, int)>,
)
    requires
        routed(g, cur, cp, matched, bound, win),
    ensures
        traced(g, cur, cp, 0, cur.pcs.len() as int),
        led(g, cur, cp),
        cp.len() == cur.pcs.len(),
{
    reveal(routed);
    reveal(traced);
}

/// After the thread for the start of the program was added, the paths are
/// as they should be.
pub proof fn lemma_routed_seed(
    g: Given,
    cur: Front,
    cp: Seq<Seq<(int, int)>>,
    bound: int,
    win: Seq<(int, int)>,
    cur9: Front,
    cp9: Seq<Seq<(int, int)>>,
    later: int,
)
    requires
        routed(g, cur, cp, false, bound, win),
        boundary(g.text, cur.pos),
        grew(g, cur.pos, seq![(0int, cur.pos)], cur, cp, cur9, cp9),
        cur9.pos == cur.pos,
    ensures
        routed(g, cur9, cp9, false, later, win),
{
    reveal(routed);
    reveal(aim);
    let way = seq![(0int, cur.pos)];
    assert(lead(g.ops, g.text, (0, cur.pos), way)) by {
        assert forall|other: Seq<(int, int)>, d: int|
            is_run(g.ops, g.text, other, (0, cur.pos)) && simple(other) && #[trigger] diverge(
                way,
                other,
                d,
            ) implies first_branch(g.ops, way[d - 1], way[d]) by {}
    }
    lemma_led_grew(g, cur.pos, way, cur, cp, cur9, cp9);
}

/// The paths are as they should be for a later bound while no match was
/// found.
pub proof fn lemma_routed_bound(
    g: Given,
    cur: Front,
    cp: Seq<Seq<(int, int)>>,
    bound: int,
    win: Seq<(int, int)>,
    later: int,
)
    requires
        routed(g, cur, cp, false, bound, win),
    ensures
        routed(g, cur, cp, false, later, win),
{
    reveal(routed);
    reveal(aim);
}

/// After the threads of `cur` were stepped, the paths of the list `nxt` of
/// what they led to are as they should be.
pub proof fn lemma_routed_on(
    g: Given,
    cur: Front,
    cp: Seq<Seq<(int, int)>>,
    nxt: Front,
    np: Seq<Seq<(int, int)>>,
    before: bool,
    bound1: int,
    win1: Seq<(int, int)>,
    hit: bool,
    idx: int,
)
    requires
        routed(g, cur, cp, before, bound1, win1),
        traced(g, nxt, np, 0, nxt.pcs.len() as int),
        led(g, nxt, np),
        handed(g, cur, nxt, idx),
        0 <= idx <= cur.pcs.len(),
        hit <==> idx < cur.pcs.len(),
        hit ==> accepting(g.ops, (cur.pcs[idx], cur.pos)),
    ensures
        routed(g, nxt, np, hit || before, if hit {
            cur.starts[idx]
        } else if before {
            bound1
        } else {
            nxt.pos
        }, if hit {
            cp[idx]
        } else {
            win1
        }),
{
    reveal(routed);
    if hit {
        lemma_aim_hit(g, cur, cp, nxt, idx);
    } else if before {
        lemma_aim_keep(g, cur, nxt, bound1, win1);
    } else {
        reveal(aim);
    }
}

/// With no thread left, a match that was found is the preferred match.
pub proof fn lemma_routed_empty(
    g: Given,
    cur: Front,
    cp: Seq<Seq<(int, int)>>,
    bound: int,
    win: Seq<(int, int)>,
)
    requires
        routed(g, cur, cp, true, bound, win),
        cur.pcs.len() == 0,
    ensures
        preferred(g.ops, g.text, (0, bound), win),
{
    reveal(routed);
    lemma_aim_done(g, cur, bound, win);
}

/// After the threads were stepped at the end of the text, a match that was
/// found is the preferred match.
pub proof fn lemma_routed_end(
    g: Given,
    cur: Front,
    cp: Seq<Seq<(int, int)>>,
    before: bool,
    bound1: int,
    win1: Seq<(int, int)>,
    nxt: Front,
    hit: bool,
    idx: int,
)
    requires
        routed(g, cur, cp, before, bound1, win1),
        cur.pos == g.text.len(),
        no_match(g, cur, idx),
        handed(g, cur, nxt, idx),
        0 <= idx <= cur.pcs.len(),
        hit <==> idx < cur.pcs.len(),
        hit ==> accepting(g.ops, (cur.pcs[idx], cur.pos)),
        hit || before,
    ensures
        preferred(g.ops, g.text, (0, if hit {
            cur.starts[idx]
        } else {
            bound1
        }), if hit {
            cp[idx]
        } else {
            win1
        }),
{
    reveal(routed);
    lemma_none_live_at_end(g, cur, idx);
    if hit {
        lemma_aim_hit(g, cur, cp, nxt, idx);
    } else {
        lemma_aim_done(g, cur, bound1, win1);
    }
}

} // verus!
