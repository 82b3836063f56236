use regex_core::backtrack::{BackMachine, Backtrack, MachineMaker};
use regex_core::nfa::Nfa;
use regex_core::pool::Factory;
use regex_core::program::{CharRanges, Inst, LookInst, OneChar, Program};

fn lit(c: char) -> Inst {
    Inst::Char(OneChar { c, casei: false })
}

fn build(pattern: &str, insts: Vec<Inst>, groups: usize) -> Program {
    let names: Vec<Option<String>> = vec![None; groups];
    match Program::new(pattern, insts, names) {
        Ok(prog) => prog,
        Err(e) => panic!("not a program: {:?}", e),
    }
}

fn both(prog: &Program, text: &str, start: usize) -> (bool, Vec<Option<usize>>) {
    let mut nfa_caps = prog.alloc_captures();
    let nfa = Nfa::run(prog, &mut nfa_caps, text, start);
    let mut back_caps = prog.alloc_captures();
    let back = Backtrack::exec(prog, &mut back_caps, text, start);
    assert_eq!(nfa, back, "the machines differ on {:?}", text);
    assert_eq!(nfa_caps, back_caps, "the machines differ on the slots for {:?}", text);
    let mut none: Vec<Option<usize>> = vec![];
    assert_eq!(Nfa::run(prog, &mut none, text, start), nfa);
    assert_eq!(Backtrack::exec(prog, &mut none, text, start), nfa);
    let mut pair = vec![None, None];
    assert_eq!(Nfa::run(prog, &mut pair, text, start), nfa);
    assert_eq!(&pair[..], &nfa_caps[..2]);
    let mut pair = vec![None, None];
    assert_eq!(Backtrack::exec(prog, &mut pair, text, start), nfa);
    assert_eq!(&pair[..], &nfa_caps[..2]);
    (nfa, nfa_caps)
}

fn text_frame() -> Program {
    build(
        "^$",
        vec![
            Inst::Save(0),
            Inst::EmptyLook(LookInst::StartText),
            Inst::EmptyLook(LookInst::EndText),
            Inst::Save(1),
            Inst::Match,
        ],
        1,
    )
}

fn line_frame() -> Program {
    build(
        "(?m)^$",
        vec![
            Inst::Save(0),
            Inst::EmptyLook(LookInst::StartLine),
            Inst::EmptyLook(LookInst::EndLine),
            Inst::Save(1),
            Inst::Match,
        ],
        1,
    )
}

fn dot() -> Program {
    build(
        ".",
        vec![Inst::Save(0), Inst::Ranges(CharRanges::any_nonl()), Inst::Save(1), Inst::Match],
        1,
    )
}

fn a_star() -> Program {
    build(
        "a*",
        vec![
            Inst::Save(0),
            Inst::Split(2, 4),
            lit('a'),
            Inst::Jump(1),
            Inst::Save(1),
            Inst::Match,
        ],
        1,
    )
}

fn a_plus_b_plus() -> Program {
    build(
        "(a+)(b+)",
        vec![
            Inst::Save(0),
            Inst::Save(2),
            lit('a'),
            Inst::Split(2, 4),
            Inst::Save(3),
            Inst::Save(4),
            lit('b'),
            Inst::Split(6, 8),
            Inst::Save(5),
            Inst::Save(1),
            Inst::Match,
        ],
        3,
    )
}

fn abc_or_def() -> Program {
    build(
        "^abc|def$",
        vec![
            Inst::Save(0),
            Inst::Split(2, 7),
            Inst::EmptyLook(LookInst::StartText),
            lit('a'),
            lit('b'),
            lit('c'),
            Inst::Jump(11),
            lit('d'),
            lit('e'),
            lit('f'),
            Inst::EmptyLook(LookInst::EndText),
            Inst::Save(1),
            Inst::Match,
        ],
        1,
    )
}

fn digits() -> Program {
    build(
        "[0-9]+",
        vec![
            Inst::Save(0),
            Inst::Ranges(CharRanges { ranges: vec![('0', '9')], casei: false }),
            Inst::Split(1, 3),
            Inst::Save(1),
            Inst::Match,
        ],
        1,
    )
}

fn a_lazy_b() -> Program {
    build(
        "a.*?b",
        vec![
            Inst::Save(0),
            lit('a'),
            Inst::Split(5, 3),
            Inst::Ranges(CharRanges::any_nonl()),
            Inst::Jump(2),
            lit('b'),
            Inst::Save(1),
            Inst::Match,
        ],
        1,
    )
}

fn a_greedy_b() -> Program {
    build(
        "a.*b",
        vec![
            Inst::Save(0),
            lit('a'),
            Inst::Split(3, 5),
            Inst::Ranges(CharRanges::any_nonl()),
            Inst::Jump(2),
            lit('b'),
            Inst::Save(1),
            Inst::Match,
        ],
        1,
    )
}

fn word() -> Program {
    let word_chars =
        CharRanges { ranges: vec![('0', '9'), ('A', 'Z'), ('_', '_'), ('a', 'z')], casei: false };
    build(
        "\\b\\w+\\b",
        vec![
            Inst::Save(0),
            Inst::EmptyLook(LookInst::WordBoundary),
            Inst::Ranges(word_chars),
            Inst::Split(2, 4),
            Inst::EmptyLook(LookInst::WordBoundary),
            Inst::Save(1),
            Inst::Match,
        ],
        1,
    )
}

fn maybe_then_sure(n: usize) -> Program {
    let mut insts = vec![Inst::Save(0)];
    for i in 0..n {
        let at = 1 + 2 * i;
        insts.push(Inst::Split(at + 1, at + 2));
        insts.push(lit('a'));
    }
    for _ in 0..n {
        insts.push(lit('a'));
    }
    insts.push(Inst::Save(1));
    insts.push(Inst::Match);
    build("a?{n}a{n}", insts, 1)
}

#[test]
fn empty_text_matches_the_empty_frame() {
    let prog = text_frame();
    assert!(prog.anchored_begin);
    assert_eq!(both(&prog, "", 0), (true, vec![Some(0), Some(0)]));
    assert_eq!(both(&prog, "a", 0), (false, vec![None, None]));
    assert_eq!(both(&prog, "a", 1), (false, vec![None, None]));
    assert_eq!(both(&line_frame(), "", 0), (true, vec![Some(0), Some(0)]));
}

#[test]
fn newline_matches_the_empty_line_at_the_start() {
    let prog = line_frame();
    assert_eq!(both(&prog, "\n", 0), (true, vec![Some(0), Some(0)]));
    assert_eq!(both(&prog, "\n", 1), (true, vec![Some(1), Some(1)]));
    assert_eq!(both(&prog, "ab\n\ncd", 0), (true, vec![Some(3), Some(3)]));
    assert_eq!(both(&prog, "ab", 0), (false, vec![None, None]));
    assert_eq!(both(&text_frame(), "\n", 0), (false, vec![None, None]));
}

#[test]
fn dot_matches_whole_characters() {
    let prog = dot();
    let text = "\u{e9}\u{20ac}\u{1f600}";
    assert_eq!(both(&prog, text, 0), (true, vec![Some(0), Some(2)]));
    assert_eq!(both(&prog, text, 2), (true, vec![Some(2), Some(5)]));
    assert_eq!(both(&prog, text, 5), (true, vec![Some(5), Some(9)]));
    assert_eq!(both(&prog, text, 9), (false, vec![None, None]));
    let (_, caps) = both(&prog, "\n\u{e9}", 0);
    assert_eq!(caps, vec![Some(1), Some(3)]);
    assert!("\n\u{e9}".is_char_boundary(1) && "\n\u{e9}".is_char_boundary(3));
}

#[test]
fn star_matches_the_empty_text() {
    let prog = a_star();
    assert_eq!(both(&prog, "", 0), (true, vec![Some(0), Some(0)]));
    assert_eq!(both(&prog, "aaa", 0), (true, vec![Some(0), Some(3)]));
    assert_eq!(both(&prog, "baa", 0), (true, vec![Some(0), Some(0)]));
    assert_eq!(both(&prog, "baa", 1), (true, vec![Some(1), Some(3)]));
}

#[test]
fn two_groups() {
    let prog = a_plus_b_plus();
    assert_eq!(
        both(&prog, "aaabbb", 0),
        (true, vec![Some(0), Some(6), Some(0), Some(3), Some(3), Some(6)])
    );
    assert_eq!(
        both(&prog, "xaabx", 0),
        (true, vec![Some(1), Some(4), Some(1), Some(3), Some(3), Some(4)])
    );
    assert_eq!(both(&prog, "aaa", 0), (false, vec![None; 6]));
    assert_eq!(both(&prog, "bbb", 0), (false, vec![None; 6]));
    assert!(prog.prefixes.is_empty());
}

#[test]
fn anchored_branch_or_suffix_branch() {
    let prog = abc_or_def();
    assert!(!prog.anchored_begin);
    assert_eq!(prog.num_captures(), 1);
    assert_eq!(both(&prog, "xxdef", 0), (true, vec![Some(2), Some(5)]));
    assert_eq!(both(&prog, "abcxx", 0), (true, vec![Some(0), Some(3)]));
    assert_eq!(both(&prog, "xabcx", 0), (false, vec![None, None]));
    assert_eq!(both(&prog, "defx", 0), (false, vec![None, None]));
    assert_eq!(both(&prog, "abcdef", 0), (true, vec![Some(0), Some(3)]));
    assert_eq!(both(&prog, "abcdef", 1), (true, vec![Some(3), Some(6)]));
}

#[test]
fn first_run_of_digits() {
    let prog = digits();
    let text = "age 42 years";
    assert_eq!(both(&prog, text, 0), (true, vec![Some(4), Some(6)]));
    assert_eq!(&text[4..6], "42");
    assert_eq!(both(&prog, text, 5), (true, vec![Some(5), Some(6)]));
    assert_eq!(both(&prog, text, 6), (false, vec![None, None]));
    assert_eq!(both(&prog, "7 and 1234", 1), (true, vec![Some(6), Some(10)]));
}

#[test]
fn lazy_star_stops_early() {
    let text = "aXXbYYb";
    assert_eq!(both(&a_lazy_b(), text, 0), (true, vec![Some(0), Some(4)]));
    assert_eq!(&text[0..4], "aXXb");
    assert_eq!(both(&a_greedy_b(), text, 0), (true, vec![Some(0), Some(7)]));
    assert_eq!(both(&a_lazy_b(), "ab", 0), (true, vec![Some(0), Some(2)]));
    assert_eq!(both(&a_lazy_b(), "a\nb", 0), (false, vec![None, None]));
    assert_eq!(both(&a_lazy_b(), "xxaxbx", 0), (true, vec![Some(2), Some(5)]));
}

#[test]
fn word_between_boundaries() {
    let prog = word();
    assert_eq!(both(&prog, " hi ", 0), (true, vec![Some(1), Some(3)]));
    assert_eq!(both(&prog, "hi", 0), (true, vec![Some(0), Some(2)]));
    assert_eq!(both(&prog, "  ", 0), (false, vec![None, None]));
    assert_eq!(both(&prog, "a_1 b", 0), (true, vec![Some(0), Some(3)]));
    assert_eq!(both(&prog, "a_1 b", 3), (true, vec![Some(4), Some(5)]));
}

#[test]
fn no_blow_up_on_the_stress_pattern() {
    let n = 100;
    let prog = maybe_then_sure(n);
    let text = "a".repeat(n);
    let mut caps = prog.alloc_captures();
    assert!(Nfa::run(&prog, &mut caps, &text, 0));
    assert_eq!(caps, vec![Some(0), Some(n)]);
    let mut caps = prog.alloc_captures();
    let mut machine = BackMachine::new(prog.insts.len());
    assert!(Backtrack::exec_with(&prog, &mut machine, &mut caps, &text, 0));
    assert_eq!(caps, vec![Some(0), Some(n)]);
    assert!(machine.tried() <= prog.insts.len() * (text.len() + 1));
    let short = "a".repeat(n - 1);
    let mut caps = prog.alloc_captures();
    assert!(!Nfa::run(&prog, &mut caps, &short, 0));
    let mut machine = BackMachine::new(prog.insts.len());
    assert!(!Backtrack::exec_with(&prog, &mut machine, &mut caps, &short, 0));
    assert!(machine.tried() <= prog.insts.len() * (short.len() + 1));
    assert_eq!(caps, vec![None, None]);
}

#[test]
fn the_machines_agree_on_whether_there_is_a_match() {
    let programs = vec![
        text_frame(),
        line_frame(),
        dot(),
        a_star(),
        a_plus_b_plus(),
        abc_or_def(),
        digits(),
        a_lazy_b(),
        a_greedy_b(),
        word(),
        maybe_then_sure(3),
    ];
    let texts =
        ["", "a", "b", "ab", "aab", "abc", "def", "xxdef", "a\nb", "\n", " hi ", "42", "aXbXb", "\u{e9}a\u{20ac}b"];
    for prog in &programs {
        for text in &texts {
            let mut none: Vec<Option<usize>> = vec![];
            let nfa = Nfa::run(prog, &mut none, text, 0);
            let back = Backtrack::exec(prog, &mut none, text, 0);
            assert_eq!(nfa, back, "{:?} on {:?}", prog.original, text);
            both(prog, text, 0);
        }
    }
}

#[test]
fn an_anchored_match_starts_where_the_search_starts() {
    let prog = build(
        "^a+",
        vec![
            Inst::Save(0),
            Inst::EmptyLook(LookInst::StartText),
            lit('a'),
            Inst::Split(2, 4),
            Inst::Save(1),
            Inst::Match,
        ],
        1,
    );
    assert!(prog.anchored_begin);
    assert_eq!(both(&prog, "aab", 0), (true, vec![Some(0), Some(2)]));
    assert_eq!(both(&prog, "baa", 0), (false, vec![None, None]));
    assert_eq!(both(&prog, "aab", 1), (false, vec![None, None]));
}

#[test]
fn slots_are_boundaries_in_order() {
    let prog = build(
        "(.)(.*)",
        vec![
            Inst::Save(0),
            Inst::Save(2),
            Inst::Ranges(CharRanges::any_nonl()),
            Inst::Save(3),
            Inst::Save(4),
            Inst::Split(6, 8),
            Inst::Ranges(CharRanges::any_nonl()),
            Inst::Jump(5),
            Inst::Save(5),
            Inst::Save(1),
            Inst::Match,
        ],
        3,
    );
    let text = "\u{1f600}\u{e9}x";
    let (matched, caps) = both(&prog, text, 0);
    assert!(matched);
    assert_eq!(caps, vec![Some(0), Some(7), Some(0), Some(4), Some(4), Some(7)]);
    for pair in caps.chunks(2) {
        let (from, to) = (pair[0].unwrap(), pair[1].unwrap());
        assert!(from <= to);
        assert!(text.is_char_boundary(from) && text.is_char_boundary(to));
    }
}

#[test]
fn prefixes_find_where_to_start() {
    let prog = build(
        "ab|cd",
        vec![
            Inst::Save(0),
            Inst::Split(2, 5),
            lit('a'),
            lit('b'),
            Inst::Jump(7),
            lit('c'),
            lit('d'),
            Inst::Save(1),
            Inst::Match,
        ],
        1,
    );
    assert_eq!(prog.prefixes.len(), 2);
    assert_eq!(both(&prog, "xxcdab", 0), (true, vec![Some(2), Some(4)]));
    assert_eq!(both(&prog, "xxcdab", 3), (true, vec![Some(4), Some(6)]));
    assert_eq!(both(&prog, "xacbd", 0), (false, vec![None, None]));
}

#[test]
fn a_case_insensitive_character() {
    let prog = build(
        "(?i)a",
        vec![Inst::Save(0), Inst::Char(OneChar { c: 'a', casei: true }), Inst::Save(1), Inst::Match],
        1,
    );
    assert_eq!(both(&prog, "xA", 0), (true, vec![Some(1), Some(2)]));
    assert_eq!(both(&prog, "xb", 0), (false, vec![None, None]));
}

#[test]
fn a_pool_is_used_again_by_the_next_run() {
    let prog = a_plus_b_plus();
    for _ in 0..3 {
        assert_eq!(
            both(&prog, "aab", 0),
            (true, vec![Some(0), Some(3), Some(0), Some(2), Some(2), Some(3)])
        );
        assert_eq!(both(&prog, "ba", 0), (false, vec![None; 6]));
    }
    let copy = prog.clone();
    assert_eq!(
        both(&copy, "aab", 0),
        (true, vec![Some(0), Some(3), Some(0), Some(2), Some(2), Some(3)])
    );
}

#[test]
fn slots_that_are_not_reached_stay_as_they_were() {
    let prog = build(
        "(a)|b",
        vec![
            Inst::Save(0),
            Inst::Split(2, 6),
            Inst::Save(2),
            lit('a'),
            Inst::Save(3),
            Inst::Jump(7),
            lit('b'),
            Inst::Save(1),
            Inst::Match,
        ],
        2,
    );
    assert_eq!(both(&prog, "b", 0), (true, vec![Some(0), Some(1), None, None]));
    assert_eq!(both(&prog, "a", 0), (true, vec![Some(0), Some(1), Some(0), Some(1)]));
}

fn short_or_long() -> Program {
    build(
        "a|ab",
        vec![
            Inst::Save(0),
            Inst::Split(2, 4),
            lit('a'),
            Inst::Jump(6),
            lit('a'),
            lit('b'),
            Inst::Save(1),
            Inst::Match,
        ],
        1,
    )
}

fn long_or_short() -> Program {
    build(
        "ab|a",
        vec![
            Inst::Save(0),
            Inst::Split(2, 5),
            lit('a'),
            lit('b'),
            Inst::Jump(6),
            lit('a'),
            Inst::Save(1),
            Inst::Match,
        ],
        1,
    )
}

fn two_stars() -> Program {
    build(
        "(a*)(a*)",
        vec![
            Inst::Save(0),
            Inst::Save(2),
            Inst::Split(3, 5),
            lit('a'),
            Inst::Jump(2),
            Inst::Save(3),
            Inst::Save(4),
            Inst::Split(8, 10),
            lit('a'),
            Inst::Jump(7),
            Inst::Save(5),
            Inst::Save(1),
            Inst::Match,
        ],
        3,
    )
}

fn star_of_star() -> Program {
    build(
        "(a*)*",
        vec![
            Inst::Save(0),
            Inst::Split(2, 8),
            Inst::Save(2),
            Inst::Split(4, 6),
            lit('a'),
            Inst::Jump(3),
            Inst::Save(3),
            Inst::Jump(1),
            Inst::Save(1),
            Inst::Match,
        ],
        2,
    )
}

#[test]
fn the_first_branch_wins_over_a_longer_second() {
    let (matched, caps) = both(&short_or_long(), "ab", 0);
    assert!(matched);
    assert_eq!(caps, vec![Some(0), Some(1)]);
    let (matched, caps) = both(&short_or_long(), "xxab", 0);
    assert!(matched);
    assert_eq!(caps, vec![Some(2), Some(3)]);
}

#[test]
fn the_first_branch_wins_where_it_is_the_longer() {
    let (matched, caps) = both(&long_or_short(), "ab", 0);
    assert!(matched);
    assert_eq!(caps, vec![Some(0), Some(2)]);
    let (matched, caps) = both(&long_or_short(), "ac", 0);
    assert!(matched);
    assert_eq!(caps, vec![Some(0), Some(1)]);
}

#[test]
fn the_first_star_takes_all() {
    let (matched, caps) = both(&two_stars(), "aa", 0);
    assert!(matched);
    assert_eq!(caps, vec![Some(0), Some(2), Some(0), Some(2), Some(2), Some(2)]);
    let (matched, caps) = both(&two_stars(), "", 0);
    assert!(matched);
    assert_eq!(caps, vec![Some(0), Some(0), Some(0), Some(0), Some(0), Some(0)]);
}

#[test]
fn a_loop_that_consumes_nothing_ends() {
    let (matched, caps) = both(&star_of_star(), "b", 0);
    assert!(matched);
    assert_eq!(caps[0], Some(0));
    assert_eq!(caps[1], Some(0));
    let (matched, caps) = both(&star_of_star(), "aab", 0);
    assert!(matched);
    assert_eq!(caps, vec![Some(0), Some(2), Some(0), Some(2)]);
}

#[test]
fn a_search_from_the_middle_finds_the_next_match() {
    let (matched, caps) = both(&digits(), "12 345", 2);
    assert!(matched);
    assert_eq!(caps, vec![Some(3), Some(6)]);
    let (matched, caps) = both(&digits(), "12 345", 6);
    assert!(!matched);
    assert_eq!(caps, vec![None, None]);
}

#[test]
fn a_group_that_ends_before_it_starts() {
    let prog = build(
        "",
        vec![
            Inst::Save(0),
            Inst::Save(3),
            lit('a'),
            Inst::Save(2),
            Inst::Save(1),
            Inst::Match,
        ],
        2,
    );
    let (matched, caps) = both(&prog, "a", 0);
    assert!(matched);
    assert_eq!(caps, vec![Some(0), Some(1), Some(1), Some(0)]);
}

#[test]
fn a_maker_makes_a_machine_that_tried_nothing() {
    let maker = MachineMaker::new(8);
    let machine = maker.create();
    assert_eq!(machine.tried(), 0);
    let prog = digits();
    let mut fresh = prog.backtrack.maker().create();
    assert_eq!(fresh.tried(), 0);
    let mut caps = prog.alloc_captures();
    assert!(Backtrack::exec_with(&prog, &mut fresh, &mut caps, "a1", 0));
    assert!(fresh.tried() > 0);
    assert_eq!(prog.backtrack.maker().create().tried(), 0);
}
