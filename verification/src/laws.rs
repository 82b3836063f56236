//! What holds of every search, whichever machine runs it.

use crate::input::{
    boundary, char_at, lemma_boundary_range, lemma_next_boundary, lemma_scalar_at, next_pos,
};
use crate::prefix::{any_occurs_at, occurs_at};
use crate::program::{
    branch_prefixes, extract_prefixes, inst_ok, literal_of, literal_run, strings_of, wf_ops,
    LookInst, Op,
};
use crate::run::{
    accepting, accepts, caps_after, chosen, is_match, is_path, is_run, law_preferred_is_one,
    leftmost, lemma_caps_len, lemma_path_boundary, lemma_path_mono, lemma_path_tail, lemma_run_head,
    matches_at, outcome, preferred, reports, saved, step_at, Slots,
};
use vstd::prelude::*;
use vstd::utf8::*;

verus! {

/// A match of a program goes through its second instruction at the offset
/// where it starts.
pub proof fn lemma_first_step(ops: Seq<Op>, text: Seq<u8>, p: int)
    requires
        wf_ops(ops),
        matches_at(ops, text, p),
    ensures
        accepts(ops, text, (1, p)),
{
    let path = choose|path: Seq<(int, int)>| is_run(ops, text, path, (0, p));
    lemma_run_head(ops, text, path, (0, p));
}

/// A program whose second instruction asks for the start of the text
/// matches from offset 0 only.
pub proof fn lemma_anchored(ops: Seq<Op>, text: Seq<u8>, p: int)
    requires
        wf_ops(ops),
        ops[1] == Op::Look(LookInst::StartText),
        boundary(text, p),
        matches_at(ops, text, p),
    ensures
        p == 0,
{
    lemma_first_step(ops, text, p);
    let path = choose|path: Seq<(int, int)>| is_run(ops, text, path, (1, p));
    lemma_run_head(ops, text, path, (1, p));
    lemma_boundary_range(text, p);
}

/// The bytes of a character that a text holds at a boundary are the
/// encoding of that character.
pub proof fn lemma_char_bytes(text: Seq<u8>, pos: int, c: char)
    requires
        boundary(text, pos),
        char_at(text, pos) == Some(c),
    ensures
        next_pos(text, pos) <= text.len(),
        text.subrange(pos, next_pos(text, pos)) == encode_scalar(c as u32),
{
    lemma_scalar_at(text, pos);
    let rest = text.subrange(pos, text.len() as int);
    valid_utf8_split(text, pos);
    decode_utf8_first_scalar(rest);
    assert(take_first_scalar(rest) =~= text.subrange(pos, next_pos(text, pos)));
}

/// Where a program can reach a `Match` from an instruction, the text holds
/// the literal run that starts at that instruction.
pub proof fn lemma_literal_run(ops: Seq<Op>, text: Seq<u8>, pc: int, pos: int)
    requires
        accepts(ops, text, (pc, pos)),
        boundary(text, pos),
        0 <= pc,
    ensures
        occurs_at(encode_utf8(literal_run(ops, pc)), text, pos),
    decreases ops.len() - pc,
{
    lemma_boundary_range(text, pos);
    if pc < ops.len() && literal_of(ops[pc]) is Some {
        let c = literal_of(ops[pc])->0;
        let path = choose|path: Seq<(int, int)>| is_run(ops, text, path, (pc, pos));
        lemma_run_head(ops, text, path, (pc, pos));
        let b = path[1];
        assert(char_at(text, pos) == Some(c));
        assert(b == (pc + 1, next_pos(text, pos)));
        lemma_next_boundary(text, pos);
        assert(is_run(ops, text, path.subrange(1, path.len() as int), b));
        lemma_literal_run(ops, text, pc + 1, b.1);
        lemma_char_bytes(text, pos, c);
        let tail = literal_run(ops, pc + 1);
        let whole = literal_run(ops, pc);
        assert(whole == seq![c] + tail);
        assert(whole.drop_first() =~= tail);
        let head_bytes = encode_scalar(c as u32);
        let tail_bytes = encode_utf8(tail);
        assert(encode_utf8(whole) == head_bytes + tail_bytes);
        assert(text.subrange(pos, pos + head_bytes.len() + tail_bytes.len()) =~= text.subrange(
            pos,
            b.1,
        ) + text.subrange(b.1, b.1 + tail_bytes.len()));
    } else {
        assert(literal_run(ops, pc) =~= Seq::<char>::empty());
        assert(text.subrange(pos, pos) =~= Seq::<u8>::empty());
    }
}

/// Where a program can reach a `Match` from a split whose branches are
/// literals, the text holds one of their literal runs.
pub proof fn lemma_branch(ops: Seq<Op>, text: Seq<u8>, pc: int, pos: int, fuel: nat) -> (k: int)
    requires
        accepts(ops, text, (pc, pos)),
        boundary(text, pos),
        branch_prefixes(ops, pc, fuel) is Some,
    ensures
        0 <= k < branch_prefixes(ops, pc, fuel)->0.len(),
        branch_prefixes(ops, pc, fuel)->0[k].len() > 0,
        occurs_at(encode_utf8(branch_prefixes(ops, pc, fuel)->0[k]), text, pos),
    decreases fuel,
{
    let list = branch_prefixes(ops, pc, fuel)->0;
    let path = choose|path: Seq<(int, int)>| is_run(ops, text, path, (pc, pos));
    lemma_run_head(ops, text, path, (pc, pos));
    let b = path[1];
    assert(is_run(ops, text, path.subrange(1, path.len() as int), b));
    match ops[pc] {
        Op::Split(x, y) => {
            let x = x as int;
            let y = y as int;
            if literal_of(ops[x]) is Some && literal_of(ops[y]) is Some {
                if b == (x, pos) {
                    lemma_literal_run(ops, text, x, pos);
                    0
                } else {
                    lemma_literal_run(ops, text, y, pos);
                    1
                }
            } else if literal_of(ops[x]) is Some && ops[y] is Split {
                if b == (x, pos) {
                    lemma_literal_run(ops, text, x, pos);
                    0
                } else {
                    let k = lemma_branch(ops, text, y, pos, (fuel - 1) as nat);
                    k + 1
                }
            } else {
                if b == (y, pos) {
                    lemma_literal_run(ops, text, y, pos);
                    0
                } else {
                    let k = lemma_branch(ops, text, x, pos, (fuel - 1) as nat);
                    k + 1
                }
            }
        },
        _ => 0,
    }
}

/// Every match of a program with literal prefixes starts with one of them.
pub proof fn lemma_match_has_prefix(prefixes: Seq<String>, ops: Seq<Op>, text: Seq<u8>, p: int)
    requires
        wf_ops(ops),
        strings_of(prefixes) == extract_prefixes(ops),
        prefixes.len() > 0,
        boundary(text, p),
        matches_at(ops, text, p),
    ensures
        any_occurs_at(prefixes, text, p),
{
    reveal(any_occurs_at);
    lemma_first_step(ops, text, p);
    let list = extract_prefixes(ops);
    assert(strings_of(prefixes).len() == prefixes.len());
    assert(list.len() > 0);
    let k = if literal_of(ops[1]) is Some {
        lemma_literal_run(ops, text, 1, p);
        0
    } else {
        lemma_branch(ops, text, 1, p, ops.len())
    };
    assert(strings_of(prefixes)[k] == prefixes[k]@);
    assert(prefixes[k]@.len() > 0);
    assert(occurs_at(encode_utf8(prefixes[k]@), text, p));
}

/// The program matches from no boundary in `start..upto`.
pub open spec fn none_before(ops: Seq<Op>, text: Seq<u8>, start: int, upto: int) -> bool {
    forall|q: int| start <= q < upto && boundary(text, q) ==> !#[trigger] matches_at(ops, text, q)
}

/// A program that asks for the start of the text matches at or after
/// `start` exactly if it matches from offset 0 and `start` is 0.
pub proof fn lemma_anchored_from(ops: Seq<Op>, text: Seq<u8>, start: int)
    requires
        wf_ops(ops),
        ops[1] == Op::Look(LookInst::StartText),
        boundary(text, start),
    ensures
        is_match(ops, text, start) <==> start == 0 && matches_at(ops, text, 0),
        none_before(ops, text, start, 0),
{
    lemma_boundary_range(text, start);
    if is_match(ops, text, start) {
        let p = choose|p: int| start <= p && boundary(text, p) && #[trigger] matches_at(ops, text, p);
        lemma_anchored(ops, text, p);
    }
}

/// Where no boundary up to the end of the text starts a match, there is
/// no match.
pub proof fn lemma_none_left(ops: Seq<Op>, text: Seq<u8>, start: int, upto: int)
    requires
        none_before(ops, text, start, upto),
        upto > text.len(),
    ensures
        !is_match(ops, text, start),
{
    if is_match(ops, text, start) {
        let p = choose|p: int| start <= p && boundary(text, p) && #[trigger] matches_at(ops, text, p);
        lemma_boundary_range(text, p);
    }
}

/// No match starts where none of the program's literal prefixes stands.
pub proof fn lemma_skipped(
    prefixes: Seq<String>,
    ops: Seq<Op>,
    text: Seq<u8>,
    start: int,
    here: int,
    to: int,
)
    requires
        wf_ops(ops),
        strings_of(prefixes) == extract_prefixes(ops),
        none_before(ops, text, start, here),
        prefixes.len() == 0 ==> to == here,
        prefixes.len() > 0 ==> forall|j: int| here <= j < to ==> !any_occurs_at(prefixes, text, j),
    ensures
        none_before(ops, text, start, to),
{
    assert forall|q: int| start <= q < to && boundary(text, q) implies !#[trigger] matches_at(
        ops,
        text,
        q,
    ) by {
        if here <= q && matches_at(ops, text, q) {
            lemma_match_has_prefix(prefixes, ops, text, q);
        }
    }
}

/// A boundary that starts no match, and behind which the next boundary
/// lies, adds to the boundaries that start none.
pub proof fn lemma_one_more(ops: Seq<Op>, text: Seq<u8>, start: int, p: int)
    requires
        none_before(ops, text, start, p),
        boundary(text, p),
        !matches_at(ops, text, p),
    ensures
        none_before(ops, text, start, p + 1),
        p < text.len() ==> none_before(ops, text, start, next_pos(text, p)),
{
    if p < text.len() {
        lemma_next_boundary(text, p);
    }
}

/// A match from a boundary before which no boundary starts one is the
/// leftmost match.
pub proof fn lemma_found(
    ops: Seq<Op>,
    text: Seq<u8>,
    start: int,
    p: int,
    path: Seq<(int, int)>,
    before: Slots,
    after: Slots,
)
    requires
        none_before(ops, text, start, p),
        start <= p,
        boundary(text, p),
        reports(ops, text, p, path, before, after),
    ensures
        is_match(ops, text, start),
        leftmost(ops, text, start, p),
        outcome(ops, text, start, before, true, after),
        preferred(ops, text, (0, p), path) ==> chosen(ops, text, start, before, true, after),
{
    assert(matches_at(ops, text, p));
}

/// Two searches of one text with one program from one offset and with
/// the same slots, by either machine, end alike: both find a match or
/// neither does, and the slots are the same after both.
pub proof fn law_machines_agree(
    ops: Seq<Op>,
    text: Seq<u8>,
    start: int,
    before: Slots,
    first: bool,
    first_slots: Slots,
    second: bool,
    second_slots: Slots,
)
    requires
        chosen(ops, text, start, before, first, first_slots),
        chosen(ops, text, start, before, second, second_slots),
    ensures
        first == second,
        first_slots == second_slots,
{
    if first {
        let (pa, path_a) = choose|p: int, path: Seq<(int, int)>|
            leftmost(ops, text, start, p) && #[trigger] reports(
                ops,
                text,
                p,
                path,
                before,
                first_slots,
            ) && preferred(ops, text, (0, p), path);
        let (pb, path_b) = choose|p: int, path: Seq<(int, int)>|
            leftmost(ops, text, start, p) && #[trigger] reports(
                ops,
                text,
                p,
                path,
                before,
                second_slots,
            ) && preferred(ops, text, (0, p), path);
        assert(pa == pb) by {
            if pa < pb {
                assert(matches_at(ops, text, pa));
            }
            if pb < pa {
                assert(matches_at(ops, text, pb));
            }
        }
        law_preferred_is_one(ops, text, (0, pa), path_a, path_b);
    }
}

/// The place on a path where slot `s` was saved to last, or -1 where it
/// was not saved to: the slot holds the offset of that place, or what it
/// held.
pub proof fn lemma_slot_source(
    ops: Seq<Op>,
    text: Seq<u8>,
    path: Seq<(int, int)>,
    before: Slots,
    s: int,
) -> (i: int)
    requires
        is_path(ops, text, path),
        0 <= s < before.len() <= usize::MAX,
    ensures
        -1 <= i < path.len() - 1,
        caps_after(ops, path, before).len() == before.len(),
        i == -1 ==> caps_after(ops, path, before)[s] == before[s],
        i >= 0 ==> ops[path[i].0] == Op::Save(s as usize) && caps_after(ops, path, before)[s] == Some(
            path[i].1 as usize,
        ),
        forall|j: int| i < j < path.len() - 1 ==> ops[(#[trigger] path[j]).0] != Op::Save(s as usize),
    decreases path.len(),
{
    lemma_caps_len(ops, path, before);
    if path.len() <= 1 {
        -1
    } else {
        let last = path.len() - 2;
        assert(step_at(ops, text, path, last));
        let shorter = path.drop_last();
        assert forall|k: int| 0 <= k < shorter.len() - 1 implies #[trigger] step_at(ops, text, shorter, k) by {
            assert(step_at(ops, text, path, k));
        }
        lemma_caps_len(ops, shorter, before);
        let inner = lemma_slot_source(ops, text, shorter, before, s);
        if ops[path[last].0] == Op::Save(s as usize) {
            last
        } else {
            assert forall|j: int| inner < j < path.len() - 1 implies ops[(#[trigger] path[j]).0]
                != Op::Save(s as usize) by {
                if j < last {
                    assert(shorter[j] == path[j]);
                }
            }
            if inner >= 0 {
                assert(shorter[inner] == path[inner]);
            }
            inner
        }
    }
}

/// Every slot of a match holds what it held before the search, or a
/// boundary of the text at or behind the offset where the search started.
pub proof fn law_slots_at_boundaries(
    ops: Seq<Op>,
    text: Seq<u8>,
    start: int,
    before: Slots,
    after: Slots,
)
    requires
        text.len() <= usize::MAX,
        before.len() <= usize::MAX,
        outcome(ops, text, start, before, true, after),
    ensures
        after.len() == before.len(),
        forall|s: int|
            0 <= s < after.len() ==> #[trigger] after[s] == before[s] || (after[s] matches Some(v)
                && boundary(text, v as int) && start <= v),
{
    let (p, path) = choose|p: int, path: Seq<(int, int)>|
        leftmost(ops, text, start, p) && #[trigger] reports(ops, text, p, path, before, after);
    lemma_caps_len(ops, path, before);
    assert forall|s: int| 0 <= s < after.len() implies #[trigger] after[s] == before[s] || (
    after[s] matches Some(v) && boundary(text, v as int) && start <= v) by {
        let i = lemma_slot_source(ops, text, path, before, s);
        if i >= 0 {
            lemma_path_boundary(ops, text, path, i);
        }
    }
}

/// Every path from a save to the first slot of group `i` to a `Match`
/// goes through a save to the second slot of the group.
pub open spec fn closes(ops: Seq<Op>, text: Seq<u8>, i: int) -> bool {
    forall|way: Seq<(int, int)>|
        #![trigger is_path(ops, text, way)]
        is_path(ops, text, way) && 0 <= way[0].0 < ops.len() && ops[way[0].0] == Op::Save(
            (2 * i) as usize,
        ) && accepting(ops, way.last()) ==> exists|j: int|
            0 < j < way.len() && 0 <= (#[trigger] way[j]).0 < ops.len() && ops[way[j].0] == Op::Save(
                (2 * i + 1) as usize,
            )
}

/// In a program in which every way from the start of a group to a `Match`
/// goes through the end of the group, a group of a match that has both its
/// slots, and had none before the search, does not end before it starts.
pub proof fn law_group_in_order(
    ops: Seq<Op>,
    text: Seq<u8>,
    start: int,
    before: Slots,
    after: Slots,
    i: int,
)
    requires
        text.len() <= usize::MAX,
        boundary(text, start),
        outcome(ops, text, start, before, true, after),
        0 <= i,
        2 * i + 1 < before.len() <= usize::MAX,
        before[2 * i] is None,
        closes(ops, text, i),
    ensures
        after[2 * i] matches Some(from) ==> (after[2 * i + 1] matches Some(to) && from <= to),
{
    let (p, path) = choose|p: int, path: Seq<(int, int)>|
        leftmost(ops, text, start, p) && #[trigger] reports(ops, text, p, path, before, after);
    let a = lemma_slot_source(ops, text, path, before, 2 * i);
    let b = lemma_slot_source(ops, text, path, before, 2 * i + 1);
    if a >= 0 {
        lemma_path_tail(ops, text, path, a);
        let way = path.subrange(a, path.len() as int);
        assert(step_at(ops, text, path, a));
        let j = choose|j: int|
            0 < j < way.len() && 0 <= (#[trigger] way[j]).0 < ops.len() && ops[way[j].0] == Op::Save(
                (2 * i + 1) as usize,
            );
        assert(way[j] == path[a + j]);
        assert(a + j < path.len() - 1) by {
            assert(accepting(ops, path.last()));
        }
        assert(b >= a + j) by {
            if b < a + j {
                assert(ops[path[a + j].0] != Op::Save((2 * i + 1) as usize));
            }
        }
        lemma_path_mono(ops, text, path, a, b);
        lemma_path_boundary(ops, text, path, a);
        lemma_path_boundary(ops, text, path, b);
    }
}

/// Where the program asks for the start of the text, a match is found only
/// by a search from offset 0, and its first slot holds that offset.
pub proof fn law_anchored_start(
    ops: Seq<Op>,
    text: Seq<u8>,
    start: int,
    before: Slots,
    after: Slots,
)
    requires
        wf_ops(ops),
        ops[1] == Op::Look(LookInst::StartText),
        boundary(text, start),
        outcome(ops, text, start, before, true, after),
        0 < before.len() <= usize::MAX,
    ensures
        start == 0,
        after[0] == Some(0usize),
{
    let (p, path) = choose|p: int, path: Seq<(int, int)>|
        leftmost(ops, text, start, p) && #[trigger] reports(ops, text, p, path, before, after);
    lemma_anchored(ops, text, p);
    lemma_boundary_range(text, start);
    let i = lemma_slot_source(ops, text, path, before, 0);
    assert(i >= 0) by {
        if i < 0 {
            assert(path.len() > 1);
            assert(ops[path[0].0] != Op::Save(0usize));
        }
    }
    assert(step_at(ops, text, path, i));
    assert(inst_ok(ops, path[i].0));
    assert(path[i].0 == 0);
    lemma_path_boundary(ops, text, path, i);
    crate::run::lemma_run_tail(ops, text, path, (0, p), i);
    assert(path[i] == (0int, path[i].1));
    lemma_anchored(ops, text, path[i].1);
}

/// No instruction leads back to the first instruction.
pub open spec fn no_restart(ops: Seq<Op>) -> bool {
    forall|pc: int|
        0 <= pc < ops.len() ==> match #[trigger] ops[pc] {
            Op::Jump(to) => to != 0,
            Op::Split(x, y) => x != 0 && y != 0,
            _ => true,
        }
}

/// In a program in which no instruction leads back to the first, the
/// first slot of a match holds the first offset at or after the start of
/// the search from which the program matches.
pub proof fn law_match_start(
    ops: Seq<Op>,
    text: Seq<u8>,
    start: int,
    before: Slots,
    after: Slots,
) -> (p: int)
    requires
        wf_ops(ops),
        no_restart(ops),
        text.len() <= usize::MAX,
        outcome(ops, text, start, before, true, after),
        0 < before.len() <= usize::MAX,
    ensures
        leftmost(ops, text, start, p),
        after[0] == Some(p as usize),
{
    let (p, path) = choose|p: int, path: Seq<(int, int)>|
        leftmost(ops, text, start, p) && #[trigger] reports(ops, text, p, path, before, after);
    let i = lemma_slot_source(ops, text, path, before, 0);
    assert(i >= 0) by {
        if i < 0 {
            assert(path.len() > 1);
            assert(ops[path[0].0] != Op::Save(0usize));
        }
    }
    assert(step_at(ops, text, path, i));
    assert(inst_ok(ops, path[i].0));
    assert(path[i].0 == 0);
    if i > 0 {
        assert(step_at(ops, text, path, i - 1));
        assert(ops[path[i - 1].0] is Jump || ops[path[i - 1].0] is Split);
    }
    p
}

} // verus!
