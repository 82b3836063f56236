//! Every place from which a program matches has a preferred match.

use crate::backtrack::{lemma_key_one, lemma_key_range, pair_key};
use crate::input::boundary;
use crate::program::Op;
use crate::run::{
    accepts, caps_after, chosen, diverge, first_branch, is_path, is_run, leftmost, lemma_caps_len,
    lemma_fork, lemma_path_boundary, lemma_path_concat, lemma_path_head, lemma_path_tail, outcome,
    preferred, reports, simple, step_at, Slots,
};
use vstd::prelude::*;

verus! {

/// From a path to a `Match`, a path to that `Match` from the same place
/// on which no place comes twice: what lies between two visits of one
/// place is left out.
pub proof fn lemma_simple_run(ops: Seq<Op>, text: Seq<u8>, from: (int, int), path: Seq<(int, int)>) -> (s:
    Seq<(int, int)>)
    requires
        is_run(ops, text, path, from),
    ensures
        is_run(ops, text, s, from),
        simple(s),
    decreases path.len(),
{
    if simple(path) {
        path
    } else {
        let (i, j) = choose|i: int, j: int| 0 <= i < j < path.len() && path[i] == path[j];
        let head = path.take(i + 1);
        let tail = path.subrange(j, path.len() as int);
        lemma_path_head(ops, text, path, i);
        lemma_path_tail(ops, text, path, j);
        lemma_path_concat(ops, text, head, tail);
        let cut = head + tail.drop_first();
        assert(cut.len() < path.len());
        lemma_simple_run(ops, text, from, cut)
    }
}

/// A path from a boundary on which no place comes twice has no more
/// places than there are pairs of an instruction and an offset.
pub proof fn lemma_simple_len(ops: Seq<Op>, text: Seq<u8>, path: Seq<(int, int)>)
    requires
        is_path(ops, text, path),
        simple(path),
        boundary(text, path[0].1),
        0 <= path.last().0 < ops.len(),
    ensures
        path.len() <= ops.len() * (text.len() + 1),
{
    let n = ops.len() as int;
    let len = text.len() as int;
    let keys = Seq::new(path.len(), |i: int| pair_key(path[i].0, path[i].1, len));
    assert(0 <= n * (len + 1)) by (nonlinear_arith)
        requires
            0 <= n,
            0 <= len,
    ;
    let all = vstd::set_lib::set_int_range(0, n * (len + 1));
    assert forall|i: int| 0 <= i < path.len() implies 0 <= (#[trigger] path[i]).0 < n && 0
        <= path[i].1 <= len && all.contains(keys[i]) by {
        lemma_path_boundary(ops, text, path, i);
        if i < path.len() - 1 {
            assert(step_at(ops, text, path, i));
        }
        lemma_key_range(path[i].0, path[i].1, n, len);
    }
    assert forall|i: int, j: int| 0 <= i < keys.len() && 0 <= j < keys.len() && i != j implies keys[i]
        != keys[j] by {
        assert(0 <= path[i].0 && 0 <= path[j].0);
        if keys[i] == keys[j] {
            lemma_key_one(path[i], path[j], len);
        }
    }
    keys.unique_seq_to_set();
    vstd::set_lib::lemma_int_range(0, n * (len + 1));
    assert(keys.to_set().subset_of(all)) by {
        assert forall|k: int| keys.to_set().contains(k) implies all.contains(k) by {
            let i = choose|i: int| 0 <= i < keys.len() && keys[i] == k;
            assert(all.contains(keys[i]));
        }
    }
    vstd::set_lib::lemma_len_subset(keys.to_set(), all);
}

/// `run` is a path to a `Match` on which no place comes twice and which
/// begins with the places of `pre`.
pub open spec fn goes_on(ops: Seq<Op>, text: Seq<u8>, pre: Seq<(int, int)>, run: Seq<(int, int)>) -> bool {
    &&& is_run(ops, text, run, pre[0])
    &&& simple(run)
    &&& pre.len() <= run.len()
    &&& run.take(pre.len() as int) == pre
}

/// Some path to a `Match` on which no place comes twice begins with `pre`.
pub open spec fn open_end(ops: Seq<Op>, text: Seq<u8>, pre: Seq<(int, int)>) -> bool {
    exists|run: Seq<(int, int)>| goes_on(ops, text, pre, run)
}

/// The place that the first branch of the split at `z` leads to.
pub open spec fn first_from(ops: Seq<Op>, z: (int, int)) -> (int, int) {
    if 0 <= z.0 < ops.len() {
        match ops[z.0] {
            Op::Split(x, _) => (x as int, z.1),
            _ => z,
        }
    } else {
        z
    }
}

/// Where some path to a `Match` on which no place comes twice begins with
/// `pre`, one of them takes the first branch wherever another parts from it
/// behind `pre`: at each split it goes on with the first branch if
/// such a path does, and with the second if none does.
pub proof fn lemma_first_run(ops: Seq<Op>, text: Seq<u8>, pre: Seq<(int, int)>) -> (path: Seq<
    (int, int),
>)
    requires
        pre.len() > 0,
        boundary(text, pre[0].1),
        open_end(ops, text, pre),
    ensures
        goes_on(ops, text, pre, path),
        forall|other: Seq<(int, int)>, d: int|
            is_run(ops, text, other, pre[0]) && simple(other) && #[trigger] diverge(path, other, d)
                && d >= pre.len() ==> first_branch(ops, path[d - 1], path[d]),
    decreases ops.len() * (text.len() + 1) - pre.len(),
{
    let run = choose|run: Seq<(int, int)>| goes_on(ops, text, pre, run);
    let n = pre.len() as int;
    lemma_simple_len(ops, text, run);
    if run.len() == n {
        assert(run.take(n) =~= run);
        pre
    } else {
        let z = pre.last();
        assert(run.take(n)[n - 1] == run[n - 1]);
        assert(step_at(ops, text, run, n - 1));
        let first = first_from(ops, z);
        let next = if ops[z.0] is Split && open_end(ops, text, pre.push(first)) {
            first
        } else {
            run[n]
        };
        assert(open_end(ops, text, pre.push(next))) by {
            if next == run[n] {
                assert(run.take(n + 1) =~= pre.push(next)) by {
                    assert forall|i: int| 0 <= i < n implies run.take(n + 1)[i] == pre[i] by {
                        assert(run.take(n)[i] == run[i]);
                    }
                }
                assert(goes_on(ops, text, pre.push(next), run));
            }
        }
        let longer = pre.push(next);
        assert(longer[0] == pre[0]);
        let path = lemma_first_run(ops, text, longer);
        assert(path.take(n) =~= pre) by {
            assert forall|i: int| 0 <= i < n implies path.take(n)[i] == pre[i] by {
                assert(path.take(n + 1)[i] == longer[i]);
            }
        }
        assert(path[n] == next && path[n - 1] == z) by {
            assert(path.take(n + 1)[n] == longer[n]);
            assert(path.take(n + 1)[n - 1] == longer[n - 1]);
        }
        assert forall|other: Seq<(int, int)>, d: int|
            is_run(ops, text, other, pre[0]) && simple(other) && #[trigger] diverge(path, other, d)
                && d >= pre.len() implies first_branch(ops, path[d - 1], path[d]) by {
            if d == n {
                assert(other.take(n)[n - 1] == path.take(n)[n - 1]);
                assert(other[n - 1] == z);
                assert(step_at(ops, text, other, n - 1));
                assert(step_at(ops, text, path, n - 1));
                lemma_fork(ops, text, z, next, other[n]);
                if !first_branch(ops, z, next) {
                    assert(other[n] == first);
                    assert(other.take(n + 1) =~= pre.push(first)) by {
                        assert forall|i: int| 0 <= i < n implies other.take(n + 1)[i] == pre[i] by {
                            assert(other.take(n)[i] == other[i]);
                            assert(path.take(n)[i] == pre[i]);
                        }
                    }
                    assert(goes_on(ops, text, pre.push(first), other));
                }
            }
        }
        path
    }
}

/// From every place at a boundary from which a path leads to a `Match`,
/// there is a preferred match.
pub proof fn law_preferred_exists(ops: Seq<Op>, text: Seq<u8>, from: (int, int)) -> (path: Seq<
    (int, int),
>)
    requires
        boundary(text, from.1),
        accepts(ops, text, from),
    ensures
        preferred(ops, text, from, path),
{
    let any = choose|any: Seq<(int, int)>| is_run(ops, text, any, from);
    let run = lemma_simple_run(ops, text, from, any);
    let pre = seq![from];
    assert(run.take(1) =~= pre);
    assert(goes_on(ops, text, pre, run));
    lemma_first_run(ops, text, pre)
}

/// A search without slots that ends as `outcome` says ends as `chosen`
/// says: there is a preferred match wherever there is a match, and it has
/// nothing to save to.
pub proof fn lemma_chosen_bare(
    ops: Seq<Op>,
    text: Seq<u8>,
    start: int,
    before: Slots,
    res: bool,
    after: Slots,
)
    requires
        outcome(ops, text, start, before, res, after),
        before.len() == 0,
    ensures
        chosen(ops, text, start, before, res, after),
{
    if res {
        let (p, any) = choose|p: int, any: Seq<(int, int)>|
            leftmost(ops, text, start, p) && #[trigger] reports(ops, text, p, any, before, after);
        let path = law_preferred_exists(ops, text, (0, p));
        lemma_caps_len(ops, any, before);
        lemma_caps_len(ops, path, before);
        assert(after =~= caps_after(ops, path, before));
        assert(reports(ops, text, p, path, before, after));
    }
}

} // verus!
