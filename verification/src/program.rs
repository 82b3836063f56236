//! Compiled programs: the instructions, what each of them consumes, and
//! what is worked out from them when a program is made.

use crate::backtrack::{BackMachine, MachineMaker};
use crate::char::{char_code, lemma_char_code, simple_fold, word_char, Char, ABSENT};
use crate::compare::rank;
use crate::nfa::{NfaThreads, ThreadsMaker};
use crate::pool::Pool;
use vstd::prelude::*;
use vstd::string::*;

verus! {

/// An index into a program's instructions.
pub type InstIdx = usize;

/// A zero-width assertion about the characters on either side of a place.
#[derive(Clone, Copy, Debug, PartialEq, Eq, Structural)]
pub enum LookInst {
    StartLine,
    EndLine,
    StartText,
    EndText,
    WordBoundary,
    NotWordBoundary,
}

/// An instruction that consumes one given character.
#[derive(Debug)]
pub struct OneChar {
    pub c: char,
    pub casei: bool,
}

/// An instruction that consumes one character out of a list of inclusive
/// ranges.
#[derive(Debug)]
pub struct CharRanges {
    pub ranges: Vec<(char, char)>,
    pub casei: bool,
}

/// One instruction of a compiled program.
#[derive(Debug)]
pub enum Inst {
    Match,
    Save(usize),
    Jump(InstIdx),
    Split(InstIdx, InstIdx),
    EmptyLook(LookInst),
    Char(OneChar),
    Ranges(CharRanges),
}

/// What an instruction is, with its ranges as a sequence.
pub enum Op {
    Match,
    Save(usize),
    Jump(usize),
    Split(usize, usize),
    Look(LookInst),
    Char(char, bool),
    Ranges(Seq<(char, char)>, bool),
}

impl View for Inst {
    type V = Op;

    open spec fn view(&self) -> Op {
        match *self {
            Inst::Match => Op::Match,
            Inst::Save(slot) => Op::Save(slot),
            Inst::Jump(to) => Op::Jump(to),
            Inst::Split(x, y) => Op::Split(x, y),
            Inst::EmptyLook(look) => Op::Look(look),
            Inst::Char(one) => Op::Char(one.c, one.casei),
            Inst::Ranges(r) => Op::Ranges(r.ranges@, r.casei),
        }
    }
}

/// The instructions of a vector, each as an `Op`.
pub open spec fn ops_of(insts: Seq<Inst>) -> Seq<Op> {
    Seq::new(insts.len(), |i: int| insts[i]@)
}

/// The character `x` after the folding that a case-insensitive instruction
/// applies.
pub open spec fn folded(casei: bool, x: char) -> char {
    if casei {
        simple_fold(x)
    } else {
        x
    }
}

/// Whether an instruction for the character `c` consumes `x`.
pub open spec fn one_matches(c: char, casei: bool, x: Option<char>) -> bool {
    match x {
        Some(x) => x == c || (casei && simple_fold(x) == c),
        None => false,
    }
}

/// Whether range `i` of `ranges` holds `x`, after folding where `casei`.
pub open spec fn range_hit(ranges: Seq<(char, char)>, casei: bool, x: Option<char>, i: int) -> bool {
    &&& 0 <= i < ranges.len()
    &&& x matches Some(x) && ranges[i].0 <= folded(casei, x) <= ranges[i].1
}

/// Whether an instruction for `ranges` consumes `x`.
pub open spec fn ranges_match(ranges: Seq<(char, char)>, casei: bool, x: Option<char>) -> bool {
    exists|i: int| range_hit(ranges, casei, x, i)
}

/// Each range has its bounds in order and lies wholly before the next.
pub open spec fn ranges_sorted(ranges: Seq<(char, char)>) -> bool {
    &&& forall|i: int| 0 <= i < ranges.len() ==> (#[trigger] ranges[i]).0 <= ranges[i].1
    &&& forall|i: int, j: int|
        0 <= i < j < ranges.len() ==> (#[trigger] ranges[i]).1 < (#[trigger] ranges[j]).0
}

/// Whether the assertion `look` holds between the character `prev` before a
/// place and the character `cur` at it.
pub open spec fn look_holds(look: LookInst, prev: Option<char>, cur: Option<char>) -> bool {
    match look {
        LookInst::StartLine => prev is None || prev == Some('\n'),
        LookInst::EndLine => cur is None || cur == Some('\n'),
        LookInst::StartText => prev is None,
        LookInst::EndText => cur is None,
        LookInst::WordBoundary => is_word(prev) != is_word(cur),
        LookInst::NotWordBoundary => is_word(prev) == is_word(cur),
    }
}

/// Whether a character is there and is a word character.
pub open spec fn is_word(x: Option<char>) -> bool {
    match x {
        Some(x) => word_char(x),
        None => false,
    }
}

impl Clone for OneChar {
    fn clone(&self) -> (r: OneChar)
        ensures
            r == *self,
    {
        OneChar { c: self.c, casei: self.casei }
    }
}

impl Clone for CharRanges {
    fn clone(&self) -> (r: CharRanges)
        ensures
            r.ranges@ == self.ranges@,
            r.casei == self.casei,
    {
        let mut ranges: Vec<(char, char)> = Vec::new();
        let mut i: usize = 0;
        while i < self.ranges.len()
            invariant
                i <= self.ranges@.len(),
                ranges@ == self.ranges@.subrange(0, i as int),
            decreases self.ranges@.len() - i,
        {
            ranges.push(self.ranges[i]);
            assert(ranges@ =~= self.ranges@.subrange(0, i + 1));
            i += 1;
        }
        assert(ranges@ =~= self.ranges@);
        CharRanges { ranges, casei: self.casei }
    }
}

impl Clone for Inst {
    fn clone(&self) -> (r: Inst)
        ensures
            r@ == self@,
    {
        match self {
            Inst::Match => Inst::Match,
            Inst::Save(slot) => Inst::Save(*slot),
            Inst::Jump(to) => Inst::Jump(*to),
            Inst::Split(x, y) => Inst::Split(*x, *y),
            Inst::EmptyLook(look) => Inst::EmptyLook(*look),
            Inst::Char(one) => Inst::Char(one.clone()),
            Inst::Ranges(r) => Inst::Ranges(r.clone()),
        }
    }
}

impl Inst {
    /// The character of an instruction that consumes exactly one given
    /// character, case-sensitively.
    pub fn as_literal(&self) -> (r: Option<char>)
        ensures
            r == literal_of(self@),
    {
        match self {
            Inst::Char(one) => if one.casei {
                None
            } else {
                Some(one.c)
            },
            _ => None,
        }
    }

    /// Whether the instruction consumes one character exactly as it is.
    pub fn is_literal(&self) -> (r: bool)
        ensures
            r == (literal_of(self@) is Some),
    {
        match self {
            Inst::Char(one) => !one.casei,
            _ => false,
        }
    }
}

/// The character of a case-sensitive one-character instruction.
pub open spec fn literal_of(op: Op) -> Option<char> {
    match op {
        Op::Char(c, casei) => if casei {
            None
        } else {
            Some(c)
        },
        _ => None,
    }
}

impl OneChar {
    /// Whether the instruction consumes `c`: `c` is its character, or folds
    /// to it where the instruction is case-insensitive.
    pub fn matches(&self, c: Char) -> (r: bool)
        ensures
            r == one_matches(self.c, self.casei, c@),
    {
        self.c == c || (self.casei && self.c == c.case_fold())
    }
}

/// The ranges of a character class of the syntax crate, in its order.
pub uninterp spec fn class_ranges(cls: regex_syntax::CharClass) -> Seq<(char, char)>;

/// Whether a character class of the syntax crate is to be matched after
/// case folding.
pub uninterp spec fn class_casei(cls: regex_syntax::CharClass) -> bool;

/// A character class of the syntax crate: a list of ranges with a mark for
/// case folding.
#[verifier::external_type_specification]
#[verifier::external_body]
pub struct ExCharClass(regex_syntax::CharClass);

/// One range of a character class of the syntax crate.
#[verifier::external_type_specification]
#[verifier::external_body]
pub struct ExClassRange(regex_syntax::ClassRange);

/// Calls `CharClass::is_case_insensitive`, which reads the class's mark
/// for case folding.
#[verifier::external_body]
fn class_folds(cls: &regex_syntax::CharClass) -> (r: bool)
    ensures
        r == class_casei(*cls),
{
    cls.is_case_insensitive()
}

/// Walks the class with `CharClass::into_iter`, which hands out its ranges
/// in their order, and takes the two ends of each.
#[verifier::external_body]
fn class_into_ranges(cls: regex_syntax::CharClass) -> (r: Vec<(char, char)>)
    ensures
        r@ == class_ranges(cls),
{
    cls.into_iter().map(|r| (r.start, r.end)).collect()
}

impl CharRanges {
    /// The ranges of a character class, with its mark for case folding.
    pub fn from_class(cls: regex_syntax::CharClass) -> (r: CharRanges)
        ensures
            r.ranges@ == class_ranges(cls),
            r.casei == class_casei(cls),
    {
        let casei = class_folds(&cls);
        CharRanges { ranges: class_into_ranges(cls), casei }
    }

    /// The ranges that hold every character.
    pub fn any() -> (r: CharRanges)
        ensures
            r.ranges@ == seq![('\x00', '\u{10ffff}')],
            !r.casei,
            ranges_sorted(r.ranges@),
    {
        CharRanges { ranges: vec![('\x00', '\u{10ffff}')], casei: false }
    }

    /// The ranges that hold every character but the newline.
    pub fn any_nonl() -> (r: CharRanges)
        ensures
            r.ranges@ == seq![('\x00', '\x09'), ('\x0B', '\u{10ffff}')],
            !r.casei,
            ranges_sorted(r.ranges@),
    {
        CharRanges { ranges: vec![('\x00', '\x09'), ('\x0B', '\u{10ffff}')], casei: false }
    }

    /// The index of the range that holds `c`, after folding where the
    /// ranges are case-insensitive. Ranges that are out of order may hide a
    /// range that holds `c`; those found do hold it.
    pub fn matches(&self, c: Char) -> (r: Option<usize>)
        ensures
            r matches Some(i) ==> range_hit(self.ranges@, self.casei, c@, i as int),
            ranges_sorted(self.ranges@) ==> (r is Some <==> ranges_match(
                self.ranges@,
                self.casei,
                c@,
            )),
    {
        let ghost x0 = c@;
        let fc = if self.casei {
            c.case_fold()
        } else {
            c
        };
        let ghost v = rank(fc@);
        let n = self.ranges.len();
        let ghost rs = self.ranges@;
        proof {
            assert forall|i: int| 0 <= i < n implies (#[trigger] range_hit(rs, self.casei, x0, i)
                <==> (rs[i].0 as int <= v <= rs[i].1 as int)) by {
                lemma_char_code(rs[i].0);
                lemma_char_code(rs[i].1);
                if let Some(y) = fc@ {
                    assert(y == v as char);
                    assert(y as u32 == v);
                    assert(x0 is Some);
                    assert(folded(self.casei, x0->0) == y);
                } else {
                    assert(v == ABSENT);
                    assert(x0 is None);
                }
            }
        }
        let lim = if n < 4 {
            n
        } else {
            4
        };
        let mut i: usize = 0;
        while i < lim
            invariant
                i <= lim <= n,
                n == rs.len(),
                rs == self.ranges@,
                x0 == c@,
                v == rank(fc@),
                forall|j: int|
                    0 <= j < n ==> (#[trigger] range_hit(rs, self.casei, x0, j) <==> (rs[j].0 as int
                        <= v <= rs[j].1 as int)),
                forall|j: int| 0 <= j < i ==> ((#[trigger] rs[j]).1 as int) < v,
            decreases lim - i,
        {
            let r = self.ranges[i];
            proof {
                lemma_char_code(r.0);
                lemma_char_code(r.1);
            }
            if fc < r.0 {
                proof {
                    if ranges_sorted(rs) {
                        assert forall|j: int| !range_hit(rs, self.casei, x0, j) by {
                            if i < j < n {
                                assert(rs[i as int].1 < rs[j].0);
                                assert(rs[i as int].0 <= rs[i as int].1);
                            }
                        }
                    }
                }
                return None;
            }
            if fc <= r.1 {
                assert(range_hit(rs, self.casei, x0, i as int));
                return Some(i);
            }
            i += 1;
        }
        let mut lo: usize = 0;
        let mut hi: usize = n;
        while lo < hi
            invariant
                lo <= hi <= n,
                n == rs.len(),
                rs == self.ranges@,
                x0 == c@,
                v == rank(fc@),
                forall|j: int|
                    0 <= j < n ==> (#[trigger] range_hit(rs, self.casei, x0, j) <==> (rs[j].0 as int
                        <= v <= rs[j].1 as int)),
                ranges_sorted(rs) ==> forall|j: int| 0 <= j < lo ==> ((#[trigger] rs[j]).1 as int) < v,
                ranges_sorted(rs) ==> forall|j: int| hi <= j < n ==> ((#[trigger] rs[j]).0 as int) > v,
            decreases hi - lo,
        {
            let mid = lo + (hi - lo) / 2;
            let r = self.ranges[mid];
            proof {
                lemma_char_code(r.0);
                lemma_char_code(r.1);
            }
            if r.1 < fc {
                proof {
                    if ranges_sorted(rs) {
                        assert forall|j: int| 0 <= j < mid + 1 implies ((#[trigger] rs[j]).1 as int) < v by {
                            if j < mid {
                                assert(rs[j].1 < rs[mid as int].0);
                                assert(rs[mid as int].0 <= rs[mid as int].1);
                            }
                        }
                    }
                }
                lo = mid + 1;
            } else if r.0 > fc {
                proof {
                    if ranges_sorted(rs) {
                        assert forall|j: int| mid <= j < n implies ((#[trigger] rs[j]).0 as int) > v by {
                            if mid < j {
                                assert(rs[mid as int].1 < rs[j].0);
                                assert(rs[mid as int].0 <= rs[mid as int].1);
                            }
                        }
                    }
                }
                hi = mid;
            } else {
                assert(range_hit(rs, self.casei, x0, mid as int));
                return Some(mid);
            }
        }
        None
    }
}

impl LookInst {
    /// Whether the condition holds between the character `c1` before an
    /// offset and the character `c2` at it.
    pub fn matches(&self, c1: Char, c2: Char) -> (r: bool)
        ensures
            r == look_holds(*self, c1@, c2@),
    {
        match self {
            LookInst::StartLine => c1.is_none() || c1 == '\n',
            LookInst::EndLine => c2.is_none() || c2 == '\n',
            LookInst::StartText => c1.is_none(),
            LookInst::EndText => c2.is_none(),
            LookInst::WordBoundary => c1.is_word_char() != c2.is_word_char(),
            LookInst::NotWordBoundary => c1.is_word_char() == c2.is_word_char(),
        }
    }
}

/// One more than the highest slot that an instruction saves to, and 0
/// where none saves.
pub open spec fn slot_bound(ops: Seq<Op>) -> nat
    decreases ops.len(),
{
    if ops.len() == 0 {
        0
    } else {
        let rest = slot_bound(ops.drop_last());
        match ops.last() {
            Op::Save(slot) => if slot + 1 > rest {
                (slot + 1) as nat
            } else {
                rest
            },
            _ => rest,
        }
    }
}

/// The number of capture groups of a program, the whole match among them.
pub open spec fn captures_of(ops: Seq<Op>) -> nat {
    slot_bound(ops) / 2
}

/// The highest slot that an instruction saves to.
fn top_slot(insts: &[Inst]) -> (r: Option<usize>)
    ensures
        slot_bound(ops_of(insts@)) == (match r {
            Some(m) => m + 1,
            None => 0,
        }),
{
    let ghost ops = ops_of(insts@);
    let mut top: Option<usize> = None;
    let mut i: usize = 0;
    while i < insts.len()
        invariant
            i <= insts@.len(),
            ops == ops_of(insts@),
            slot_bound(ops.subrange(0, i as int)) == (match top {
                Some(m) => m + 1,
                None => 0,
            }),
        decreases insts@.len() - i,
    {
        proof {
            assert(ops.subrange(0, i + 1).drop_last() =~= ops.subrange(0, i as int));
        }
        match &insts[i] {
            Inst::Save(slot) => {
                top = match top {
                    Some(m) => if *slot > m {
                        Some(*slot)
                    } else {
                        Some(m)
                    },
                    None => Some(*slot),
                };
            },
            _ => {},
        }
        i += 1;
    }
    proof {
        assert(ops.subrange(0, i as int) =~= ops);
    }
    top
}

/// The number of capture groups of the instructions, the whole match among
/// them: half the number of slots.
pub fn num_captures(insts: &[Inst]) -> (r: usize)
    ensures
        r == captures_of(ops_of(insts@)),
{
    match top_slot(insts) {
        Some(m) => m / 2 + m % 2,
        None => 0,
    }
}

/// The characters of the case-sensitive one-character instructions that
/// follow one another from `pc` on.
pub open spec fn literal_run(ops: Seq<Op>, pc: int) -> Seq<char>
    decreases ops.len() - pc,
{
    if 0 <= pc < ops.len() && literal_of(ops[pc]) is Some {
        seq![literal_of(ops[pc])->0] + literal_run(ops, pc + 1)
    } else {
        seq![]
    }
}

/// The literal prefixes of the branches of the split at `pc`, where each
/// branch is a literal or, on one side, another such split; `None` where
/// the instructions are of another shape or `fuel` splits were not enough.
pub open spec fn branch_prefixes(ops: Seq<Op>, pc: int, fuel: nat) -> Option<Seq<Seq<char>>>
    decreases fuel,
{
    if fuel == 0 || !(0 <= pc < ops.len()) {
        None
    } else {
        match ops[pc] {
            Op::Split(x, y) => {
                if x < ops.len() && y < ops.len() {
                    if literal_of(ops[x as int]) is Some && literal_of(ops[y as int]) is Some {
                        Some(seq![literal_run(ops, x as int), literal_run(ops, y as int)])
                    } else if literal_of(ops[x as int]) is Some && ops[y as int] is Split {
                        match branch_prefixes(ops, y as int, (fuel - 1) as nat) {
                            Some(rest) => Some(seq![literal_run(ops, x as int)] + rest),
                            None => None,
                        }
                    } else if ops[x as int] is Split && literal_of(ops[y as int]) is Some {
                        match branch_prefixes(ops, x as int, (fuel - 1) as nat) {
                            Some(rest) => Some(seq![literal_run(ops, y as int)] + rest),
                            None => None,
                        }
                    } else {
                        None
                    }
                } else {
                    None
                }
            },
            _ => None,
        }
    }
}

/// The literal prefixes of a program: strings of which one starts every
/// match, and none where the program does not begin with literals.
pub open spec fn extract_prefixes(ops: Seq<Op>) -> Seq<Seq<char>> {
    if ops.len() < 2 {
        seq![]
    } else if literal_of(ops[1]) is Some {
        seq![literal_run(ops, 1)]
    } else {
        match branch_prefixes(ops, 1, ops.len()) {
            Some(list) => list,
            None => seq![],
        }
    }
}

/// The strings of a vector, each as its characters.
pub open spec fn strings_of(v: Seq<String>) -> Seq<Seq<char>> {
    Seq::new(v.len(), |i: int| v[i]@)
}

/// The names of the groups, each as its characters where there is one.
pub open spec fn names_of(v: Seq<Option<String>>) -> Seq<Option<Seq<char>>> {
    Seq::new(
        v.len(),
        |i: int|
            match v[i] {
                Some(name) => Some(name@),
                None => None,
            },
    )
}

/// `String::push` appends one character.
pub assume_specification[ std::string::String::push ](s: &mut String, c: char)
    ensures
        final(s)@ == old(s)@.push(c),
;

/// The literal run from `from` on, as a string.
fn prefix(insts: &[Inst], from: usize) -> (r: String)
    ensures
        r@ == literal_run(ops_of(insts@), from as int),
{
    let ghost ops = ops_of(insts@);
    let mut s = String::new();
    let mut i: usize = from;
    while i < insts.len()
        invariant
            ops == ops_of(insts@),
            from <= i,
            literal_run(ops, from as int) == s@ + literal_run(ops, i as int),
        decreases insts@.len() - i,
    {
        match insts[i].as_literal() {
            Some(c) => {
                proof {
                    assert(s@.push(c) + literal_run(ops, i + 1) =~= s@ + literal_run(ops, i as int));
                }
                s.push(c);
            },
            None => {
                assert(s@ + literal_run(ops, i as int) =~= s@);
                return s;
            },
        }
        i += 1;
    }
    assert(s@ + literal_run(ops, i as int) =~= s@);
    s
}

/// Why a vector of instructions is no program.
#[derive(Clone, Copy, Debug, PartialEq, Eq, Structural)]
pub enum Error {
    /// There are fewer than three instructions, or they do not start with
    /// the save to slot 0 and end with the save to slot 1 and `Match`.
    BadFrame,
    /// The instruction at this index has a target that is no instruction,
    /// ranges that are out of order, or a save to slot 0 or 1 in another
    /// place than the frame's.
    BadInst(usize),
    /// The slots do not come in pairs, or are too many to count, or the
    /// capture names are not one for each pair.
    BadCaptures,
}

/// The instructions start with the save to slot 0 and end with the save to
/// slot 1 and `Match`.
pub open spec fn framed(ops: Seq<Op>) -> bool {
    &&& ops.len() >= 3
    &&& ops[0] == Op::Save(0)
    &&& ops[ops.len() - 2] == Op::Save(1)
    &&& ops[ops.len() - 1] == Op::Match
}

/// The instruction at `pc` has its targets among the instructions and its
/// ranges in order, and saves to slot 0 or 1 only in the frame.
pub open spec fn inst_ok(ops: Seq<Op>, pc: int) -> bool {
    match ops[pc] {
        Op::Jump(to) => to < ops.len(),
        Op::Split(x, y) => x < ops.len() && y < ops.len(),
        Op::Ranges(ranges, _) => ranges_sorted(ranges),
        Op::Save(slot) => (slot == 0 ==> pc == 0) && (slot == 1 ==> pc == ops.len() - 2),
        _ => true,
    }
}

/// The slots come in pairs and can be counted.
pub open spec fn slots_paired(ops: Seq<Op>) -> bool {
    slot_bound(ops) % 2 == 0 && slot_bound(ops) <= usize::MAX
}

/// The instructions are a program.
pub open spec fn wf_ops(ops: Seq<Op>) -> bool {
    &&& framed(ops)
    &&& forall|pc: int| 0 <= pc < ops.len() ==> inst_ok(ops, pc)
    &&& slots_paired(ops)
}

/// Why the instructions `ops` with `names` capture names are no program,
/// if they are none.
pub open spec fn fault(ops: Seq<Op>, names: nat) -> Option<Error> {
    if !framed(ops) {
        Some(Error::BadFrame)
    } else if exists|pc: int| 0 <= pc < ops.len() && !inst_ok(ops, pc) {
        let pc = choose|pc: int|
            0 <= pc < ops.len() && !inst_ok(ops, pc) && forall|q: int| 0 <= q < pc ==> inst_ok(ops, q);
        Some(Error::BadInst(pc as usize))
    } else if !slots_paired(ops) || names != captures_of(ops) {
        Some(Error::BadCaptures)
    } else {
        None
    }
}

/// Whether the ranges are in order.
fn sorted(ranges: &Vec<(char, char)>) -> (r: bool)
    ensures
        r == ranges_sorted(ranges@),
{
    let n = ranges.len();
    let mut i: usize = 0;
    while i < n
        invariant
            n == ranges@.len(),
            i <= n,
            forall|a: int| 0 <= a < i ==> (#[trigger] ranges@[a]).0 <= ranges@[a].1,
            forall|a: int, b: int|
                0 <= a < b < i ==> (#[trigger] ranges@[a]).1 < (#[trigger] ranges@[b]).0,
        decreases n - i,
    {
        let r = ranges[i];
        if char_code(r.0) > char_code(r.1) {
            return false;
        }
        if i > 0 {
            let before = ranges[i - 1];
            if char_code(before.1) >= char_code(r.0) {
                return false;
            }
            assert forall|a: int| 0 <= a < i implies (#[trigger] ranges@[a]).1 < ranges@[i as int].0 by {
                if a < i - 1 {
                    assert(ranges@[a].1 < ranges@[i - 1].0);
                    assert(ranges@[i - 1].0 <= ranges@[i - 1].1);
                }
            }
        }
        i += 1;
    }
    true
}

/// Whether the instruction at `pc` is as `inst_ok` asks.
fn check_inst(insts: &Vec<Inst>, pc: usize) -> (r: bool)
    requires
        pc < insts@.len(),
    ensures
        r == inst_ok(ops_of(insts@), pc as int),
{
    let n = insts.len();
    match &insts[pc] {
        Inst::Jump(to) => *to < n,
        Inst::Split(x, y) => *x < n && *y < n,
        Inst::Ranges(r) => sorted(&r.ranges),
        Inst::Save(slot) => (*slot != 0 || pc == 0) && (*slot != 1 || (n >= 2 && pc == n - 2)),
        _ => true,
    }
}

/// A compiled regular expression: the instructions and what was found out
/// about them. Once made, a program does not change.
pub struct Program {
    /// The regular expression as it was written.
    pub original: String,
    /// The instructions.
    pub insts: Vec<Inst>,
    /// The name of each capture group that has one.
    pub cap_names: Vec<Option<String>>,
    /// Literal strings of which one starts every match; empty where none
    /// are known.
    pub prefixes: Vec<String>,
    /// Whether a match can only start at the start of the text.
    pub anchored_begin: bool,
    /// Whether a match can only end at the end of the text.
    pub anchored_end: bool,
    /// Thread lists kept for the simulation.
    pub nfa_threads: Pool<NfaThreads, ThreadsMaker>,
    /// Scratch space kept for the backtracker.
    pub backtrack: Pool<BackMachine, MachineMaker>,
}

impl Program {
    /// The instructions, each as an `Op`.
    pub open spec fn ops(&self) -> Seq<Op> {
        ops_of(self.insts@)
    }

    /// The instructions are a program, and what the other fields say of
    /// them is true.
    pub open spec fn wf(&self) -> bool {
        &&& wf_ops(self.ops())
        &&& self.cap_names@.len() == captures_of(self.ops())
        &&& strings_of(self.prefixes@) == extract_prefixes(self.ops())
        &&& self.anchored_begin == (self.ops()[1] == Op::Look(LookInst::StartText))
        &&& self.anchored_end == (self.ops()[self.ops().len() - 3] == Op::Look(LookInst::EndText))
        &&& self.nfa_threads.factory().num_insts() == self.insts@.len()
        &&& self.nfa_threads.factory().width() == 2 * captures_of(self.ops())
        &&& self.backtrack.factory().insts_len() == self.insts@.len()
    }

    /// Makes a program of the instructions and capture names that a
    /// compiler gave for the expression `original`, if they are a program.
    pub fn new(original: &str, insts: Vec<Inst>, cap_names: Vec<Option<String>>) -> (r: Result<
        Program,
        Error,
    >)
        ensures
            match r {
                Ok(prog) => {
                    &&& fault(ops_of(insts@), cap_names@.len()) is None
                    &&& prog.wf()
                    &&& prog.original@ == original@
                    &&& prog.insts == insts
                    &&& prog.cap_names == cap_names
                },
                Err(e) => fault(ops_of(insts@), cap_names@.len()) == Some(e),
            },
    {
        let ghost ops = ops_of(insts@);
        let n = insts.len();
        if n < 3 {
            return Err(Error::BadFrame);
        }
        let head = match &insts[0] {
            Inst::Save(slot) => *slot == 0,
            _ => false,
        };
        let close = match &insts[n - 2] {
            Inst::Save(slot) => *slot == 1,
            _ => false,
        };
        let end = match &insts[n - 1] {
            Inst::Match => true,
            _ => false,
        };
        if !(head && close && end) {
            return Err(Error::BadFrame);
        }
        assert(framed(ops));
        let mut pc: usize = 0;
        while pc < n
            invariant
                n == insts@.len(),
                ops == ops_of(insts@),
                pc <= n,
                framed(ops),
                forall|q: int| 0 <= q < pc ==> inst_ok(ops, q),
            decreases n - pc,
        {
            if !check_inst(&insts, pc) {
                proof {
                    assert(0 <= pc < ops.len() && !inst_ok(ops, pc as int) && forall|q: int|
                        0 <= q < pc ==> inst_ok(ops, q));
                    let w = choose|w: int|
                        0 <= w < ops.len() && !inst_ok(ops, w) && forall|q: int|
                            0 <= q < w ==> inst_ok(ops, q);
                    assert(w == pc) by {
                        if w < pc {
                            assert(inst_ok(ops, w));
                        }
                        if pc < w {
                            assert(inst_ok(ops, pc as int));
                        }
                    }
                }
                return Err(Error::BadInst(pc));
            }
            pc += 1;
        }
        proof {
            lemma_slot_bound(ops, 0);
        }
        let ncaps = match top_slot(insts.as_slice()) {
            Some(m) => {
                if m % 2 == 0 || m == usize::MAX {
                    return Err(Error::BadCaptures);
                }
                (m + 1) / 2
            },
            None => {
                return Err(Error::BadCaptures);
            },
        };
        if cap_names.len() != ncaps {
            return Err(Error::BadCaptures);
        }
        let anchored_begin = match &insts[1] {
            Inst::EmptyLook(look) => match look {
                LookInst::StartText => true,
                _ => false,
            },
            _ => false,
        };
        let anchored_end = match &insts[n - 3] {
            Inst::EmptyLook(look) => match look {
                LookInst::EndText => true,
                _ => false,
            },
            _ => false,
        };
        let mut prog = Program {
            original: original.to_owned(),
            insts,
            cap_names,
            prefixes: Vec::new(),
            anchored_begin,
            anchored_end,
            nfa_threads: Pool::new(ThreadsMaker::new(n, ncaps)),
            backtrack: Pool::new(MachineMaker::new(n)),
        };
        prog.find_prefixes();
        Ok(prog)
    }

    /// The number of capture groups, the whole match among them.
    pub fn num_captures(&self) -> (r: usize)
        ensures
            r == captures_of(self.ops()),
    {
        num_captures(self.insts.as_slice())
    }

    /// Slots for every capture group, all empty.
    pub fn alloc_captures(&self) -> (r: Vec<Option<usize>>)
        requires
            2 * captures_of(self.ops()) <= usize::MAX,
        ensures
            r@ == Seq::new(2 * captures_of(self.ops()), |i: int| None::<usize>),
    {
        let n = 2 * self.num_captures();
        let mut caps: Vec<Option<usize>> = Vec::new();
        let mut i: usize = 0;
        while i < n
            invariant
                i <= n,
                caps@ == Seq::new(i as nat, |i: int| None::<usize>),
            decreases n - i,
        {
            caps.push(None);
            assert(caps@ =~= Seq::new((i + 1) as nat, |i: int| None::<usize>));
            i += 1;
        }
        caps
    }

    /// Sets the literal prefixes to those of the instructions.
    pub fn find_prefixes(&mut self)
        ensures
            strings_of(final(self).prefixes@) == extract_prefixes(old(self).ops()),
            final(self).original == old(self).original,
            final(self).insts == old(self).insts,
            final(self).cap_names == old(self).cap_names,
            final(self).anchored_begin == old(self).anchored_begin,
            final(self).anchored_end == old(self).anchored_end,
            final(self).nfa_threads == old(self).nfa_threads,
            final(self).backtrack == old(self).backtrack,
    {
        let ghost ops = self.ops();
        let n = self.insts.len();
        let mut prefixes: Vec<String> = Vec::new();
        if n < 2 {
            self.prefixes = prefixes;
            assert(strings_of(self.prefixes@) =~= extract_prefixes(ops));
            return ;
        }
        if self.insts[1].is_literal() {
            prefixes.push(prefix(self.insts.as_slice(), 1));
            self.prefixes = prefixes;
            assert(strings_of(self.prefixes@) =~= extract_prefixes(ops));
            return ;
        }
        let mut pc: usize = 1;
        let mut fuel: usize = n;
        let mut found = false;
        while fuel > 0 && !found
            invariant
                n == self.insts@.len(),
                ops == ops_of(self.insts@),
                *self == *old(self),
                n >= 2,
                literal_of(ops[1]) is None,
                pc < n,
                fuel <= n,
                found ==> strings_of(prefixes@) == extract_prefixes(ops),
                !found ==> branch_prefixes(ops, 1, n as nat) == (match branch_prefixes(
                    ops,
                    pc as int,
                    fuel as nat,
                ) {
                    Some(rest) => Some(strings_of(prefixes@) + rest),
                    None => None,
                }),
            decreases fuel, (if found { 0int } else { 1int }),
        {
            let (x, y) = match &self.insts[pc] {
                Inst::Split(x, y) => (*x, *y),
                _ => {
                    prefixes = Vec::new();
                    assert(strings_of(prefixes@) =~= extract_prefixes(ops));
                    found = true;
                    continue ;
                },
            };
            if x >= n || y >= n {
                prefixes = Vec::new();
                assert(strings_of(prefixes@) =~= extract_prefixes(ops));
                found = true;
                continue ;
            }
            let x_lit = self.insts[x].is_literal();
            let y_lit = self.insts[y].is_literal();
            let x_split = match &self.insts[x] {
                Inst::Split(_, _) => true,
                _ => false,
            };
            let y_split = match &self.insts[y] {
                Inst::Split(_, _) => true,
                _ => false,
            };
            let ghost before = strings_of(prefixes@);
            if x_lit && y_lit {
                prefixes.push(prefix(self.insts.as_slice(), x));
                prefixes.push(prefix(self.insts.as_slice(), y));
                assert(strings_of(prefixes@) =~= before + seq![
                    literal_run(ops, x as int),
                    literal_run(ops, y as int),
                ]);
                found = true;
            } else if x_lit && y_split {
                prefixes.push(prefix(self.insts.as_slice(), x));
                assert(strings_of(prefixes@) =~= before + seq![literal_run(ops, x as int)]);
                proof {
                    lemma_concat(before, seq![literal_run(ops, x as int)], branch_prefixes(ops, y as int, (fuel - 1) as nat));
                }
                pc = y;
                fuel -= 1;
            } else if x_split && y_lit {
                prefixes.push(prefix(self.insts.as_slice(), y));
                assert(strings_of(prefixes@) =~= before + seq![literal_run(ops, y as int)]);
                proof {
                    lemma_concat(before, seq![literal_run(ops, y as int)], branch_prefixes(ops, x as int, (fuel - 1) as nat));
                }
                pc = x;
                fuel -= 1;
            } else {
                prefixes = Vec::new();
                assert(strings_of(prefixes@) =~= extract_prefixes(ops));
                found = true;
            }
        }
        if !found {
            prefixes = Vec::new();
            assert(strings_of(prefixes@) =~= extract_prefixes(ops));
        }
        self.prefixes = prefixes;
    }
}

/// Every slot that an instruction saves to is below `slot_bound`.
pub proof fn lemma_slot_bound(ops: Seq<Op>, pc: int)
    requires
        0 <= pc < ops.len(),
    ensures
        ops[pc] matches Op::Save(slot) ==> slot < slot_bound(ops),
    decreases ops.len(),
{
    if pc < ops.len() - 1 {
        lemma_slot_bound(ops.drop_last(), pc);
    }
}

/// Appending in two steps is appending at once.
proof fn lemma_concat(a: Seq<Seq<char>>, b: Seq<Seq<char>>, rest: Option<Seq<Seq<char>>>)
    ensures
        rest matches Some(r) ==> a + (b + r) == (a + b) + r,
{
    if let Some(r) = rest {
        assert(a + (b + r) =~= (a + b) + r);
    }
}

impl Clone for Program {
    /// A program with the same instructions and what was found out about
    /// them, and with scratch pools of its own, which hold nothing.
    fn clone(&self) -> (r: Program)
        ensures
            r.ops() == self.ops(),
            r.original@ == self.original@,
            names_of(r.cap_names@) == names_of(self.cap_names@),
            strings_of(r.prefixes@) == strings_of(self.prefixes@),
            r.anchored_begin == self.anchored_begin,
            r.anchored_end == self.anchored_end,
            r.nfa_threads.factory() == self.nfa_threads.factory(),
            r.backtrack.factory() == self.backtrack.factory(),
            self.wf() ==> r.wf(),
    {
        let mut insts: Vec<Inst> = Vec::new();
        let mut i: usize = 0;
        while i < self.insts.len()
            invariant
                i <= self.insts@.len(),
                insts@.len() == i,
                forall|k: int| 0 <= k < i ==> insts@[k]@ == self.insts@[k]@,
            decreases self.insts@.len() - i,
        {
            insts.push(self.insts[i].clone());
            i += 1;
        }
        let mut cap_names: Vec<Option<String>> = Vec::new();
        let mut j: usize = 0;
        while j < self.cap_names.len()
            invariant
                j <= self.cap_names@.len(),
                cap_names@.len() == j,
                forall|m: int|
                    0 <= m < j ==> names_of(cap_names@)[m] == #[trigger] names_of(self.cap_names@)[m],
            decreases self.cap_names@.len() - j,
        {
            let name = match &self.cap_names[j] {
                Some(name) => Some(name.clone()),
                None => None,
            };
            cap_names.push(name);
            j += 1;
        }
        let mut prefixes: Vec<String> = Vec::new();
        let mut k: usize = 0;
        while k < self.prefixes.len()
            invariant
                k <= self.prefixes@.len(),
                prefixes@.len() == k,
                forall|m: int| 0 <= m < k ==> prefixes@[m]@ == self.prefixes@[m]@,
            decreases self.prefixes@.len() - k,
        {
            prefixes.push(self.prefixes[k].clone());
            k += 1;
        }
        let r = Program {
            original: self.original.clone(),
            insts,
            cap_names,
            prefixes,
            anchored_begin: self.anchored_begin,
            anchored_end: self.anchored_end,
            nfa_threads: Pool::new(*self.nfa_threads.maker()),
            backtrack: Pool::new(*self.backtrack.maker()),
        };
        proof {
            assert(r.ops() =~= self.ops());
            assert(strings_of(r.prefixes@) =~= strings_of(self.prefixes@));
            assert(names_of(r.cap_names@) =~= names_of(self.cap_names@));
        }
        r
    }
}

} // verus!
