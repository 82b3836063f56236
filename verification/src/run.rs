//! What a program matches: paths through its instructions on a text, the
//! slots that a path leaves, and the match that a search prefers.

use crate::input::{
    boundary, char_at, char_before, lemma_boundary_range, lemma_next_boundary, next_pos,
};
use crate::program::{look_holds, one_matches, ranges_match, Op};
use vstd::prelude::*;

verus! {

/// The capture slots of a match: for each slot the offset saved in it.
pub type Slots = Seq<Option<usize>>;

/// One step of a program on a text, from the instruction and offset `a` to
/// the instruction and offset `b`.
pub open spec fn steps(ops: Seq<Op>, text: Seq<u8>, a: (int, int), b: (int, int)) -> bool {
    let (pc, pos) = a;
    &&& 0 <= pc < ops.len()
    &&& match ops[pc] {
        Op::Match => false,
        Op::Save(_) => b == (pc + 1, pos),
        Op::Jump(to) => b == (to as int, pos),
        Op::Split(x, y) => b == (x as int, pos) || b == (y as int, pos),
        Op::Look(look) => look_holds(look, char_before(text, pos), char_at(text, pos)) && b == (
            pc + 1,
            pos,
        ),
        Op::Char(c, casei) => one_matches(c, casei, char_at(text, pos)) && b == (
            pc + 1,
            next_pos(text, pos),
        ),
        Op::Ranges(ranges, casei) => ranges_match(ranges, casei, char_at(text, pos)) && b == (
            pc + 1,
            next_pos(text, pos),
        ),
    }
}

/// Place `i + 1` of `path` is one step from place `i`.
pub open spec fn step_at(ops: Seq<Op>, text: Seq<u8>, path: Seq<(int, int)>, i: int) -> bool {
    steps(ops, text, path[i], path[i + 1])
}

/// A sequence of places, each one step from the one before.
pub open spec fn is_path(ops: Seq<Op>, text: Seq<u8>, path: Seq<(int, int)>) -> bool {
    &&& path.len() > 0
    &&& forall|i: int| 0 <= i < path.len() - 1 ==> #[trigger] step_at(ops, text, path, i)
}

/// The instruction at `a` is `Match`.
pub open spec fn accepting(ops: Seq<Op>, a: (int, int)) -> bool {
    0 <= a.0 < ops.len() && ops[a.0] is Match
}

/// `path` leads from `from` to a `Match`.
pub open spec fn is_run(ops: Seq<Op>, text: Seq<u8>, path: Seq<(int, int)>, from: (int, int)) -> bool {
    &&& is_path(ops, text, path)
    &&& path[0] == from
    &&& accepting(ops, path.last())
}

/// Some path leads from `from` to a `Match`.
pub open spec fn accepts(ops: Seq<Op>, text: Seq<u8>, from: (int, int)) -> bool {
    exists|path: Seq<(int, int)>| is_run(ops, text, path, from)
}

/// The program matches the text from offset `p` on.
pub open spec fn matches_at(ops: Seq<Op>, text: Seq<u8>, p: int) -> bool {
    accepts(ops, text, (0, p))
}

/// The program matches the text somewhere at or after `start`.
pub open spec fn is_match(ops: Seq<Op>, text: Seq<u8>, start: int) -> bool {
    exists|p: int| start <= p && boundary(text, p) && #[trigger] matches_at(ops, text, p)
}

/// `p` is the first offset at or after `start` from which the program
/// matches.
pub open spec fn leftmost(ops: Seq<Op>, text: Seq<u8>, start: int, p: int) -> bool {
    &&& start <= p
    &&& boundary(text, p)
    &&& matches_at(ops, text, p)
    &&& forall|q: int| start <= q < p && boundary(text, q) ==> !#[trigger] matches_at(ops, text, q)
}

/// The slots after the instruction `pc` ran at offset `pos`.
pub open spec fn saved(ops: Seq<Op>, pc: int, pos: int, caps: Slots) -> Slots {
    if 0 <= pc < ops.len() {
        match ops[pc] {
            Op::Save(slot) => if slot < caps.len() {
                caps.update(slot as int, Some(pos as usize))
            } else {
                caps
            },
            _ => caps,
        }
    } else {
        caps
    }
}

/// The slots after every instruction on `path` but the last ran, from the
/// slots `caps`.
pub open spec fn caps_after(ops: Seq<Op>, path: Seq<(int, int)>, caps: Slots) -> Slots
    decreases path.len(),
{
    if path.len() <= 1 {
        caps
    } else {
        let at = path[path.len() - 2];
        saved(ops, at.0, at.1, caps_after(ops, path.drop_last(), caps))
    }
}

/// The program reports the match that `path` describes, from offset `p`,
/// into slots that held `before`.
pub open spec fn reports(
    ops: Seq<Op>,
    text: Seq<u8>,
    p: int,
    path: Seq<(int, int)>,
    before: Slots,
    after: Slots,
) -> bool {
    &&& is_run(ops, text, path, (0, p))
    &&& after == caps_after(ops, path, before)
}

/// How a search from `start` ends that was given the slots `before`: the
/// result `res` says whether the program matches somewhere at or after
/// `start`. If it does, the slots `after` are those of a match from the
/// first offset from which there is one; if not, they are as they were.
pub open spec fn outcome(
    ops: Seq<Op>,
    text: Seq<u8>,
    start: int,
    before: Slots,
    res: bool,
    after: Slots,
) -> bool {
    &&& res == is_match(ops, text, start)
    &&& res ==> exists|p: int, path: Seq<(int, int)>|
        leftmost(ops, text, start, p) && #[trigger] reports(ops, text, p, path, before, after)
    &&& !res ==> after == before
}

/// A step leads from a boundary to a boundary that is not before it.
pub proof fn lemma_step_boundary(ops: Seq<Op>, text: Seq<u8>, a: (int, int), b: (int, int))
    requires
        boundary(text, a.1),
        steps(ops, text, a, b),
    ensures
        boundary(text, b.1),
        a.1 <= b.1 <= text.len(),
        0 <= a.0 < ops.len(),
{
    lemma_boundary_range(text, a.1);
    if char_at(text, a.1) is Some {
        lemma_next_boundary(text, a.1);
    }
}

/// Every place on a path that starts at a boundary is at a boundary that
/// is not before the start.
pub proof fn lemma_path_boundary(ops: Seq<Op>, text: Seq<u8>, path: Seq<(int, int)>, i: int)
    requires
        is_path(ops, text, path),
        boundary(text, path[0].1),
        0 <= i < path.len(),
    ensures
        boundary(text, path[i].1),
        path[0].1 <= path[i].1 <= text.len(),
    decreases i,
{
    lemma_boundary_range(text, path[0].1);
    if i > 0 {
        lemma_path_boundary(ops, text, path, i - 1);
        assert(step_at(ops, text, path, i - 1));
        lemma_step_boundary(ops, text, path[i - 1], path[i]);
    }
}

/// A path and one more step make a path, and the slots after it are those
/// of the path with the last instruction's save applied.
pub proof fn lemma_path_push(
    ops: Seq<Op>,
    text: Seq<u8>,
    path: Seq<(int, int)>,
    b: (int, int),
    caps: Slots,
)
    requires
        is_path(ops, text, path),
        steps(ops, text, path.last(), b),
    ensures
        is_path(ops, text, path.push(b)),
        path.push(b)[0] == path[0],
        path.push(b).last() == b,
        caps_after(ops, path.push(b), caps) == saved(
            ops,
            path.last().0,
            path.last().1,
            caps_after(ops, path, caps),
        ),
{
    let longer = path.push(b);
    assert forall|i: int| 0 <= i < longer.len() - 1 implies #[trigger] step_at(ops, text, longer, i) by {
        if i < path.len() - 1 {
            assert(step_at(ops, text, path, i));
        }
    }
    assert(longer.drop_last() =~= path);
}

/// What is left of a path from its place `i` on is a path.
pub proof fn lemma_path_tail(ops: Seq<Op>, text: Seq<u8>, path: Seq<(int, int)>, i: int)
    requires
        is_path(ops, text, path),
        0 <= i < path.len(),
    ensures
        is_path(ops, text, path.subrange(i, path.len() as int)),
        path.subrange(i, path.len() as int)[0] == path[i],
        path.subrange(i, path.len() as int).last() == path.last(),
{
    let tail = path.subrange(i, path.len() as int);
    assert forall|k: int| 0 <= k < tail.len() - 1 implies #[trigger] step_at(ops, text, tail, k) by {
        assert(step_at(ops, text, path, i + k));
    }
}

/// From every place on a path to a `Match`, a path leads to a `Match`.
pub proof fn lemma_run_tail(
    ops: Seq<Op>,
    text: Seq<u8>,
    path: Seq<(int, int)>,
    from: (int, int),
    i: int,
)
    requires
        is_run(ops, text, path, from),
        0 <= i < path.len(),
    ensures
        accepts(ops, text, path[i]),
{
    lemma_path_tail(ops, text, path, i);
    assert(is_run(ops, text, path.subrange(i, path.len() as int), path[i]));
}

/// The first step of a path to a `Match`: either the path starts at a
/// `Match`, or a step leads to a place from which a shorter path goes on.
pub proof fn lemma_run_head(ops: Seq<Op>, text: Seq<u8>, path: Seq<(int, int)>, from: (int, int))
    requires
        is_run(ops, text, path, from),
    ensures
        accepting(ops, from) || (path.len() >= 2 && steps(ops, text, from, path[1]) && is_run(
            ops,
            text,
            path.subrange(1, path.len() as int),
            path[1],
        )),
{
    if path.len() >= 2 {
        assert(step_at(ops, text, path, 0));
        lemma_path_tail(ops, text, path, 1);
    }
}

/// No step leaves `set`.
pub open spec fn closed(ops: Seq<Op>, text: Seq<u8>, set: Set<(int, int)>) -> bool {
    forall|a: (int, int), b: (int, int)|
        set.contains(a) && #[trigger] steps(ops, text, a, b) ==> set.contains(b)
}

/// A path that starts in a set that no step leaves stays in that set.
pub proof fn lemma_closed_path(
    ops: Seq<Op>,
    text: Seq<u8>,
    set: Set<(int, int)>,
    path: Seq<(int, int)>,
    i: int,
)
    requires
        closed(ops, text, set),
        is_path(ops, text, path),
        set.contains(path[0]),
        0 <= i < path.len(),
    ensures
        set.contains(path[i]),
    decreases i,
{
    if i > 0 {
        lemma_closed_path(ops, text, set, path, i - 1);
        assert(step_at(ops, text, path, i - 1));
    }
}

/// From a set that no step leaves and that holds no `Match`, no path leads
/// to a `Match`.
pub proof fn lemma_closed_rejects(
    ops: Seq<Op>,
    text: Seq<u8>,
    set: Set<(int, int)>,
    from: (int, int),
)
    requires
        closed(ops, text, set),
        set.contains(from),
        forall|a: (int, int)| set.contains(a) ==> !accepting(ops, a),
    ensures
        !accepts(ops, text, from),
{
    if accepts(ops, text, from) {
        let path = choose|path: Seq<(int, int)>| is_run(ops, text, path, from);
        lemma_closed_path(ops, text, set, path, path.len() - 1);
    }
}

/// Some path leads from `from` to `to`, and turns the slots `before` into
/// the slots `after`.
pub open spec fn reaches(
    ops: Seq<Op>,
    text: Seq<u8>,
    from: (int, int),
    to: (int, int),
    before: Slots,
    after: Slots,
) -> bool {
    exists|path: Seq<(int, int)>|
        #![trigger is_path(ops, text, path)]
        is_path(ops, text, path) && path[0] == from && path.last() == to && caps_after(
            ops,
            path,
            before,
        ) == after
}

/// Every place reaches itself, with the slots unchanged.
pub proof fn lemma_reach_start(ops: Seq<Op>, text: Seq<u8>, from: (int, int), caps: Slots)
    ensures
        reaches(ops, text, from, from, caps, caps),
{
    let path = seq![from];
    assert(is_path(ops, text, path));
    assert(path[0] == from && path.last() == from);
    assert(caps_after(ops, path, caps) == caps);
}

/// What reaches a place reaches the places one step further.
pub proof fn lemma_reach_step(
    ops: Seq<Op>,
    text: Seq<u8>,
    from: (int, int),
    a: (int, int),
    b: (int, int),
    before: Slots,
    after: Slots,
)
    requires
        reaches(ops, text, from, a, before, after),
        steps(ops, text, a, b),
    ensures
        reaches(ops, text, from, b, before, saved(ops, a.0, a.1, after)),
{
    let path = choose|path: Seq<(int, int)>|
        #![trigger is_path(ops, text, path)]
        is_path(ops, text, path) && path[0] == from && path.last() == a && caps_after(
            ops,
            path,
            before,
        ) == after;
    lemma_path_push(ops, text, path, b, before);
    assert(is_path(ops, text, path.push(b)));
}

/// A path keeps the number of slots.
pub proof fn lemma_caps_len(ops: Seq<Op>, path: Seq<(int, int)>, caps: Slots)
    ensures
        caps_after(ops, path, caps).len() == caps.len(),
    decreases path.len(),
{
    if path.len() > 1 {
        lemma_caps_len(ops, path.drop_last(), caps);
    }
}

/// The first places of a path are a path.
pub proof fn lemma_path_head(ops: Seq<Op>, text: Seq<u8>, path: Seq<(int, int)>, i: int)
    requires
        is_path(ops, text, path),
        0 <= i < path.len(),
    ensures
        is_path(ops, text, path.take(i + 1)),
        path.take(i + 1)[0] == path[0],
        path.take(i + 1).last() == path[i],
{
    let head = path.take(i + 1);
    assert forall|k: int| 0 <= k < head.len() - 1 implies #[trigger] step_at(ops, text, head, k) by {
        assert(step_at(ops, text, path, k));
    }
}

/// Along a path the offsets do not go back.
pub proof fn lemma_path_mono(ops: Seq<Op>, text: Seq<u8>, path: Seq<(int, int)>, i: int, j: int)
    requires
        is_path(ops, text, path),
        boundary(text, path[0].1),
        0 <= i <= j < path.len(),
    ensures
        path[i].1 <= path[j].1,
    decreases j - i,
{
    if i < j {
        lemma_path_mono(ops, text, path, i, j - 1);
        lemma_path_boundary(ops, text, path, j - 1);
        assert(step_at(ops, text, path, j - 1));
        lemma_step_boundary(ops, text, path[j - 1], path[j]);
    }
}

/// A step that changes the offset consumes the character at the offset it
/// leaves and goes to the next instruction.
pub proof fn lemma_step_consumes(ops: Seq<Op>, text: Seq<u8>, a: (int, int), b: (int, int))
    requires
        steps(ops, text, a, b),
        boundary(text, a.1),
        a.1 != b.1,
    ensures
        ops[a.0] is Char || ops[a.0] is Ranges,
        b == (a.0 + 1, next_pos(text, a.1)),
        a.1 < text.len(),
{
}

/// A step that keeps the offset consumes no character.
pub proof fn lemma_step_stays(ops: Seq<Op>, text: Seq<u8>, a: (int, int), b: (int, int))
    requires
        steps(ops, text, a, b),
        boundary(text, a.1),
        a.1 == b.1,
    ensures
        !(ops[a.0] is Char) && !(ops[a.0] is Ranges) && !(ops[a.0] is Match),
{
    if char_at(text, a.1) is Some {
        lemma_next_boundary(text, a.1);
    }
}

/// The first place from `from` on at which a path is at or behind the
/// boundary `k`; it is at `k`.
pub proof fn lemma_path_arrives(
    ops: Seq<Op>,
    text: Seq<u8>,
    path: Seq<(int, int)>,
    k: int,
    from: int,
) -> (t: int)
    requires
        is_path(ops, text, path),
        boundary(text, path[0].1),
        boundary(text, k),
        0 <= from < path.len(),
        path[from].1 <= k <= path.last().1,
        forall|u: int| 0 <= u < from ==> path[u].1 < k,
    ensures
        from <= t < path.len(),
        path[t].1 == k,
        forall|u: int| 0 <= u < t ==> path[u].1 < k,
    decreases path.len() - from,
{
    if path[from].1 == k {
        from
    } else {
        lemma_path_boundary(ops, text, path, from);
        if from == path.len() - 1 {
            from
        } else {
            assert(step_at(ops, text, path, from));
            lemma_step_boundary(ops, text, path[from], path[from + 1]);
            if path[from + 1].1 != path[from].1 {
                lemma_step_consumes(ops, text, path[from], path[from + 1]);
                lemma_next_boundary(text, path[from].1);
            }
            lemma_path_arrives(ops, text, path, k, from + 1)
        }
    }
}

/// The step with which a path comes to the offset at which it ends, if it
/// starts before that offset: it consumes the character before that
/// offset, and the path stays at that offset from then on.
pub proof fn lemma_path_crosses(ops: Seq<Op>, text: Seq<u8>, path: Seq<(int, int)>) -> (t: int)
    requires
        is_path(ops, text, path),
        boundary(text, path[0].1),
        path[0].1 < path.last().1,
    ensures
        0 <= t < path.len() - 1,
        boundary(text, path[t].1),
        path[t].1 < text.len(),
        next_pos(text, path[t].1) == path.last().1,
        ops[path[t].0] is Char || ops[path[t].0] is Ranges,
        steps(ops, text, path[t], path[t + 1]),
        path[t + 1] == (path[t].0 + 1, path.last().1),
        forall|u: int| t < u < path.len() ==> path[u].1 == path.last().1,
{
    let last = path.len() - 1;
    let k = path.last().1;
    lemma_path_boundary(ops, text, path, last);
    let f = lemma_path_arrives(ops, text, path, k, 0);
    let t = f - 1;
    assert(step_at(ops, text, path, t));
    lemma_path_boundary(ops, text, path, t);
    lemma_step_consumes(ops, text, path[t], path[t + 1]);
    assert forall|u: int| t < u < path.len() implies path[u].1 == k by {
        lemma_path_mono(ops, text, path, f, u);
        lemma_path_mono(ops, text, path, u, last);
    }
    t
}

/// A path and a path that starts where it ends make a path.
pub proof fn lemma_path_concat(
    ops: Seq<Op>,
    text: Seq<u8>,
    first: Seq<(int, int)>,
    second: Seq<(int, int)>,
)
    requires
        is_path(ops, text, first),
        is_path(ops, text, second),
        first.last() == second[0],
    ensures
        is_path(ops, text, first + second.drop_first()),
        (first + second.drop_first())[0] == first[0],
        (first + second.drop_first()).last() == second.last(),
{
    let whole = first + second.drop_first();
    assert forall|i: int| 0 <= i < whole.len() - 1 implies #[trigger] step_at(ops, text, whole, i) by {
        if i < first.len() - 1 {
            assert(step_at(ops, text, first, i));
        } else {
            let k = i - (first.len() - 1);
            assert(step_at(ops, text, second, k));
        }
    }
}

/// A place from which a path leads to a place that reaches a `Match`
/// reaches a `Match`.
pub proof fn lemma_accepts_back(
    ops: Seq<Op>,
    text: Seq<u8>,
    path: Seq<(int, int)>,
)
    requires
        is_path(ops, text, path),
        accepts(ops, text, path.last()),
    ensures
        accepts(ops, text, path[0]),
{
    let rest = choose|rest: Seq<(int, int)>| is_run(ops, text, rest, path.last());
    lemma_path_concat(ops, text, path, rest);
    assert(is_run(ops, text, path + rest.drop_first(), path[0]));
}

/// No place comes twice on `path`.
pub open spec fn simple(path: Seq<(int, int)>) -> bool {
    forall|i: int, j: int| 0 <= i < j < path.len() ==> path[i] != path[j]
}

/// `x` is the place that the first branch of the split at `z` leads to.
pub open spec fn first_branch(ops: Seq<Op>, z: (int, int), x: (int, int)) -> bool {
    0 <= z.0 < ops.len() && match ops[z.0] {
        Op::Split(first, _) => x == (first as int, z.1),
        _ => false,
    }
}

/// The paths `a` and `b` are one up to their place `d`, where they part.
pub open spec fn diverge(a: Seq<(int, int)>, b: Seq<(int, int)>, d: int) -> bool {
    &&& 0 < d < a.len()
    &&& d < b.len()
    &&& a.take(d) == b.take(d)
    &&& a[d] != b[d]
}

/// Wherever a path to a `Match` from `from`, on which no place comes
/// twice, parts from `path`, `path` takes the first branch of a split.
pub open spec fn lead(ops: Seq<Op>, text: Seq<u8>, from: (int, int), path: Seq<(int, int)>) -> bool {
    forall|other: Seq<(int, int)>, d: int|
        is_run(ops, text, other, from) && simple(other) && #[trigger] diverge(path, other, d)
            ==> first_branch(ops, path[d - 1], path[d])
}

/// `path` is the match from `from` that a search finds which tries the
/// first branch of every split first and never goes to a place twice:
/// among the paths to a `Match` on which no place comes twice, it is the
/// one that takes the first branch wherever another parts from it.
pub open spec fn preferred(ops: Seq<Op>, text: Seq<u8>, from: (int, int), path: Seq<(int, int)>) -> bool {
    &&& is_run(ops, text, path, from)
    &&& simple(path)
    &&& lead(ops, text, from, path)
}

/// How a search from `start` ends that was given the slots `before`, and
/// that tries the first branch of every split first: as `outcome` says,
/// and the slots `after` of a match are those of the preferred match.
pub open spec fn chosen(
    ops: Seq<Op>,
    text: Seq<u8>,
    start: int,
    before: Slots,
    res: bool,
    after: Slots,
) -> bool {
    &&& res == is_match(ops, text, start)
    &&& res ==> exists|p: int, path: Seq<(int, int)>|
        leftmost(ops, text, start, p) && #[trigger] reports(ops, text, p, path, before, after)
            && preferred(ops, text, (0, p), path)
    &&& !res ==> after == before
}

/// Two different paths to a `Match` from one place part somewhere.
pub proof fn lemma_runs_part(
    ops: Seq<Op>,
    text: Seq<u8>,
    from: (int, int),
    a: Seq<(int, int)>,
    b: Seq<(int, int)>,
    upto: int,
) -> (d: int)
    requires
        is_run(ops, text, a, from),
        is_run(ops, text, b, from),
        a != b,
        0 < upto <= a.len(),
        upto <= b.len(),
        a.take(upto) == b.take(upto),
    ensures
        diverge(a, b, d),
        diverge(b, a, d),
    decreases a.len() - upto,
{
    if upto == a.len() || upto == b.len() {
        assert(a.take(upto)[upto - 1] == b.take(upto)[upto - 1]);
        if upto < a.len() {
            assert(step_at(ops, text, a, upto - 1));
        }
        if upto < b.len() {
            assert(step_at(ops, text, b, upto - 1));
        }
        assert(a.take(upto) =~= a);
        assert(b.take(upto) =~= b);
        upto
    } else if a[upto] != b[upto] {
        upto
    } else {
        assert(a.take(upto + 1) =~= b.take(upto + 1)) by {
            assert forall|i: int| 0 <= i < upto + 1 implies #[trigger] a[i] == b[i] by {
                if i < upto {
                    assert(a.take(upto)[i] == b.take(upto)[i]);
                }
            }
        }
        lemma_runs_part(ops, text, from, a, b, upto + 1)
    }
}

/// There is one preferred match from a place at most.
pub proof fn law_preferred_is_one(
    ops: Seq<Op>,
    text: Seq<u8>,
    from: (int, int),
    a: Seq<(int, int)>,
    b: Seq<(int, int)>,
)
    requires
        preferred(ops, text, from, a),
        preferred(ops, text, from, b),
    ensures
        a == b,
{
    if a != b {
        assert(a.take(1) =~= b.take(1));
        let d = lemma_runs_part(ops, text, from, a, b, 1);
        assert(a.take(d)[d - 1] == b.take(d)[d - 1]);
        assert(first_branch(ops, a[d - 1], a[d]));
        assert(first_branch(ops, b[d - 1], b[d]));
    }
}

/// What `chosen` says, `outcome` says.
pub proof fn lemma_chosen_outcome(
    ops: Seq<Op>,
    text: Seq<u8>,
    start: int,
    before: Slots,
    res: bool,
    after: Slots,
)
    requires
        chosen(ops, text, start, before, res, after),
    ensures
        outcome(ops, text, start, before, res, after),
{
    if res {
        let (p, path) = choose|p: int, path: Seq<(int, int)>|
            leftmost(ops, text, start, p) && #[trigger] reports(ops, text, p, path, before, after)
                && preferred(ops, text, (0, p), path);
        assert(leftmost(ops, text, start, p) && reports(ops, text, p, path, before, after));
    }
}

/// A path that takes the first branch wherever a match parts from it does
/// so with one more step, if that step is the only one from its end or the
/// first branch of a split.
pub proof fn lemma_lead_push(
    ops: Seq<Op>,
    text: Seq<u8>,
    from: (int, int),
    path: Seq<(int, int)>,
    next: (int, int),
)
    requires
        path.len() > 0,
        lead(ops, text, from, path),
        forall|b: (int, int)|
            steps(ops, text, path.last(), b) ==> b == next || first_branch(ops, path.last(), next),
    ensures
        lead(ops, text, from, path.push(next)),
{
    let longer = path.push(next);
    let n = path.len() as int;
    assert forall|other: Seq<(int, int)>, d: int|
        is_run(ops, text, other, from) && simple(other) && #[trigger] diverge(longer, other, d) implies first_branch(
        ops,
        longer[d - 1],
        longer[d],
    ) by {
        if d < n {
            assert(path.take(d) =~= longer.take(d));
            assert(longer[d] == path[d]);
            assert(longer[d - 1] == path[d - 1]);
            assert(diverge(path, other, d));
        } else {
            assert(d == n);
            assert(other.take(d)[d - 1] == longer.take(d)[d - 1]);
            assert(longer[d - 1] == path.last());
            assert(longer[d] == next);
            assert(step_at(ops, text, other, d - 1));
            assert(steps(ops, text, path.last(), other[d]));
        }
    }
}

/// Between two places of a path at one offset, the path stays at that
/// offset.
pub proof fn lemma_path_stays(
    ops: Seq<Op>,
    text: Seq<u8>,
    path: Seq<(int, int)>,
    i: int,
    k: int,
    j: int,
)
    requires
        is_path(ops, text, path),
        boundary(text, path[0].1),
        0 <= i <= k <= j < path.len(),
        path[i].1 == path[j].1,
    ensures
        path[k].1 == path[i].1,
{
    lemma_path_mono(ops, text, path, i, k);
    lemma_path_mono(ops, text, path, k, j);
}

/// Two different places one step from one place are the two branches of a
/// split.
pub proof fn lemma_fork(ops: Seq<Op>, text: Seq<u8>, z: (int, int), a: (int, int), b: (int, int))
    requires
        steps(ops, text, z, a),
        steps(ops, text, z, b),
        a != b,
    ensures
        ops[z.0] is Split,
        a.1 == z.1,
        b.1 == z.1,
        first_branch(ops, z, a) || first_branch(ops, z, b),
{
}

/// The last place from `from` on at which a match stays at the offset where
/// it is at `from`: it is at an instruction that consumes a character or is
/// `Match`, and a `Match` can be reached from it.
pub proof fn lemma_last_here(
    ops: Seq<Op>,
    text: Seq<u8>,
    path: Seq<(int, int)>,
    start: (int, int),
    from: int,
) -> (t: int)
    requires
        is_run(ops, text, path, start),
        boundary(text, start.1),
        0 <= from < path.len(),
    ensures
        from <= t < path.len(),
        forall|u: int| from <= u <= t ==> (#[trigger] path[u]).1 == path[from].1,
        0 <= path[t].0 < ops.len(),
        ops[path[t].0] is Match || ops[path[t].0] is Char || ops[path[t].0] is Ranges,
        accepts(ops, text, path[t]),
    decreases path.len() - from,
{
    lemma_run_tail(ops, text, path, start, from);
    if from == path.len() - 1 {
        from
    } else {
        assert(step_at(ops, text, path, from));
        lemma_path_boundary(ops, text, path, from);
        if path[from + 1].1 != path[from].1 {
            lemma_step_consumes(ops, text, path[from], path[from + 1]);
            from
        } else {
            lemma_last_here(ops, text, path, start, from + 1)
        }
    }
}

} // verus!
