use regex_core::program::{
    num_captures, CharRanges, Error, Inst, LookInst, OneChar, Program,
};

fn lit(c: char) -> Inst {
    Inst::Char(OneChar { c, casei: false })
}

fn names(groups: usize) -> Vec<Option<String>> {
    vec![None; groups]
}

fn build(pattern: &str, insts: Vec<Inst>, groups: usize) -> Program {
    match Program::new(pattern, insts, names(groups)) {
        Ok(prog) => prog,
        Err(e) => panic!("not a program: {:?}", e),
    }
}

fn error_of(insts: Vec<Inst>, groups: usize) -> Error {
    match Program::new("", insts, names(groups)) {
        Ok(_) => panic!("a program"),
        Err(e) => e,
    }
}

#[test]
fn smallest_program() {
    let prog = build("", vec![Inst::Save(0), Inst::Save(1), Inst::Match], 1);
    assert_eq!(prog.num_captures(), 1);
    assert_eq!(prog.alloc_captures(), vec![None, None]);
    assert!(prog.prefixes.is_empty());
    assert!(!prog.anchored_begin);
    assert!(!prog.anchored_end);
    assert_eq!(prog.original, "");
    assert_eq!(prog.insts.len(), 3);
    assert_eq!(prog.cap_names.len(), 1);
}

#[test]
fn counts_captures() {
    let insts = vec![
        Inst::Save(0),
        Inst::Save(2),
        lit('a'),
        Inst::Save(3),
        Inst::Save(4),
        lit('b'),
        Inst::Save(5),
        Inst::Save(1),
        Inst::Match,
    ];
    assert_eq!(num_captures(&insts), 3);
    let prog = build("(a)(b)", insts, 3);
    assert_eq!(prog.num_captures(), 3);
    assert_eq!(prog.alloc_captures(), vec![None; 6]);
}

#[test]
fn counts_captures_of_odd_instructions() {
    assert_eq!(num_captures(&[]), 0);
    assert_eq!(num_captures(&[Inst::Match]), 0);
    assert_eq!(num_captures(&[Inst::Save(0)]), 0);
    assert_eq!(num_captures(&[Inst::Save(1)]), 1);
    assert_eq!(num_captures(&[Inst::Save(2), Inst::Save(0)]), 1);
    assert_eq!(num_captures(&[Inst::Save(7), Inst::Save(3)]), 4);
    assert_eq!(num_captures(&[Inst::Save(usize::MAX)]), usize::MAX / 2 + 1);
}

#[test]
fn literal_prefix() {
    let prog = build(
        "abc+",
        vec![
            Inst::Save(0),
            lit('a'),
            lit('b'),
            lit('c'),
            Inst::Split(3, 5),
            Inst::Save(1),
            Inst::Match,
        ],
        1,
    );
    assert_eq!(prog.prefixes, vec!["abc".to_string()]);
}

#[test]
fn literal_prefix_stops_at_a_folding_character() {
    let prog = build(
        "a(?i)b",
        vec![
            Inst::Save(0),
            lit('a'),
            Inst::Char(OneChar { c: 'b', casei: true }),
            Inst::Save(1),
            Inst::Match,
        ],
        1,
    );
    assert_eq!(prog.prefixes, vec!["a".to_string()]);
}

#[test]
fn no_prefix_for_a_folding_start() {
    let prog = build(
        "(?i)a",
        vec![Inst::Save(0), Inst::Char(OneChar { c: 'a', casei: true }), Inst::Save(1), Inst::Match],
        1,
    );
    assert!(prog.prefixes.is_empty());
}

#[test]
fn prefixes_of_two_branches() {
    let prog = build(
        "ab|cd",
        vec![
            Inst::Save(0),
            Inst::Split(2, 5),
            lit('a'),
            lit('b'),
            Inst::Jump(7),
            lit('c'),
            lit('d'),
            Inst::Save(1),
            Inst::Match,
        ],
        1,
    );
    assert_eq!(prog.prefixes, vec!["ab".to_string(), "cd".to_string()]);
}

#[test]
fn prefixes_of_nested_branches() {
    let prog = build(
        "a|b|c",
        vec![
            Inst::Save(0),
            Inst::Split(2, 4),
            lit('a'),
            Inst::Jump(9),
            Inst::Split(5, 7),
            lit('b'),
            Inst::Jump(9),
            lit('c'),
            Inst::Jump(9),
            Inst::Save(1),
            Inst::Match,
        ],
        1,
    );
    assert_eq!(prog.prefixes, vec!["a".to_string(), "b".to_string(), "c".to_string()]);
}

#[test]
fn prefixes_of_branches_with_the_split_first() {
    let prog = build(
        "",
        vec![
            Inst::Save(0),
            Inst::Split(2, 5),
            Inst::Split(3, 4),
            lit('x'),
            lit('y'),
            lit('z'),
            Inst::Save(1),
            Inst::Match,
        ],
        1,
    );
    assert_eq!(prog.prefixes, vec!["z".to_string(), "xyz".to_string(), "yz".to_string()]);
}

#[test]
fn no_prefixes_where_a_branch_is_no_literal() {
    let prog = build(
        "a|.",
        vec![
            Inst::Save(0),
            Inst::Split(2, 4),
            lit('a'),
            Inst::Jump(5),
            Inst::Ranges(CharRanges::any_nonl()),
            Inst::Save(1),
            Inst::Match,
        ],
        1,
    );
    assert!(prog.prefixes.is_empty());
}

#[test]
fn no_prefixes_where_splits_go_round() {
    let prog = build(
        "",
        vec![Inst::Save(0), Inst::Split(2, 1), lit('a'), Inst::Save(1), Inst::Match],
        1,
    );
    assert!(prog.prefixes.is_empty());
}

#[test]
fn find_prefixes_again_gives_the_same() {
    let mut prog = build(
        "ab",
        vec![Inst::Save(0), lit('a'), lit('b'), Inst::Save(1), Inst::Match],
        1,
    );
    assert_eq!(prog.prefixes, vec!["ab".to_string()]);
    prog.find_prefixes();
    assert_eq!(prog.prefixes, vec!["ab".to_string()]);
}

#[test]
fn anchors() {
    let prog = build(
        "^a$",
        vec![
            Inst::Save(0),
            Inst::EmptyLook(LookInst::StartText),
            lit('a'),
            Inst::EmptyLook(LookInst::EndText),
            Inst::Save(1),
            Inst::Match,
        ],
        1,
    );
    assert!(prog.anchored_begin);
    assert!(prog.anchored_end);
    assert!(prog.prefixes.is_empty());
    let lines = build(
        "(?m)^a$",
        vec![
            Inst::Save(0),
            Inst::EmptyLook(LookInst::StartLine),
            lit('a'),
            Inst::EmptyLook(LookInst::EndLine),
            Inst::Save(1),
            Inst::Match,
        ],
        1,
    );
    assert!(!lines.anchored_begin);
    assert!(!lines.anchored_end);
}

#[test]
fn clone_keeps_the_program() {
    let prog = build(
        "ab|cd",
        vec![
            Inst::Save(0),
            Inst::Split(2, 5),
            lit('a'),
            lit('b'),
            Inst::Jump(7),
            lit('c'),
            lit('d'),
            Inst::Save(1),
            Inst::Match,
        ],
        1,
    );
    let copy = prog.clone();
    assert_eq!(copy.original, "ab|cd");
    assert_eq!(copy.insts.len(), 9);
    assert_eq!(copy.prefixes, prog.prefixes);
    assert_eq!(copy.anchored_begin, prog.anchored_begin);
    assert_eq!(copy.anchored_end, prog.anchored_end);
    assert_eq!(copy.cap_names, prog.cap_names);
    assert_eq!(copy.num_captures(), 1);
}

#[test]
fn too_short_is_a_bad_frame() {
    assert_eq!(error_of(vec![], 0), Error::BadFrame);
    assert_eq!(error_of(vec![Inst::Save(1), Inst::Match], 1), Error::BadFrame);
}

#[test]
fn wrong_ends_are_a_bad_frame() {
    assert_eq!(error_of(vec![Inst::Save(2), Inst::Save(1), Inst::Match], 1), Error::BadFrame);
    assert_eq!(error_of(vec![lit('a'), Inst::Save(1), Inst::Match], 1), Error::BadFrame);
    assert_eq!(error_of(vec![Inst::Save(0), Inst::Save(3), Inst::Match], 1), Error::BadFrame);
    assert_eq!(error_of(vec![Inst::Save(0), Inst::Save(1), Inst::Jump(0)], 1), Error::BadFrame);
}

#[test]
fn targets_outside_are_a_bad_instruction() {
    assert_eq!(
        error_of(vec![Inst::Save(0), Inst::Jump(4), Inst::Save(1), Inst::Match], 1),
        Error::BadInst(1)
    );
    assert_eq!(
        error_of(vec![Inst::Save(0), lit('a'), Inst::Split(1, 5), Inst::Save(1), Inst::Match], 1),
        Error::BadInst(2)
    );
    assert_eq!(
        error_of(vec![Inst::Save(0), lit('a'), Inst::Split(9, 1), Inst::Save(1), Inst::Match], 1),
        Error::BadInst(2)
    );
}

#[test]
fn the_first_bad_instruction_is_named() {
    assert_eq!(
        error_of(
            vec![Inst::Save(0), Inst::Jump(9), Inst::Jump(8), Inst::Save(1), Inst::Match],
            1
        ),
        Error::BadInst(1)
    );
}

#[test]
fn ranges_out_of_order_are_a_bad_instruction() {
    let backwards = CharRanges { ranges: vec![('b', 'a')], casei: false };
    assert_eq!(
        error_of(vec![Inst::Save(0), Inst::Ranges(backwards), Inst::Save(1), Inst::Match], 1),
        Error::BadInst(1)
    );
    let unsorted = CharRanges { ranges: vec![('x', 'z'), ('a', 'c')], casei: false };
    assert_eq!(
        error_of(vec![Inst::Save(0), Inst::Ranges(unsorted), Inst::Save(1), Inst::Match], 1),
        Error::BadInst(1)
    );
    let touching = CharRanges { ranges: vec![('a', 'c'), ('c', 'e')], casei: false };
    assert_eq!(
        error_of(vec![Inst::Save(0), Inst::Ranges(touching), Inst::Save(1), Inst::Match], 1),
        Error::BadInst(1)
    );
}

#[test]
fn frame_saves_elsewhere_are_a_bad_instruction() {
    assert_eq!(
        error_of(vec![Inst::Save(0), Inst::Save(0), Inst::Save(1), Inst::Match], 1),
        Error::BadInst(1)
    );
    assert_eq!(
        error_of(vec![Inst::Save(0), Inst::Save(1), Inst::Save(1), Inst::Match], 1),
        Error::BadInst(1)
    );
}

#[test]
fn unpaired_slots_are_bad_captures() {
    assert_eq!(
        error_of(vec![Inst::Save(0), Inst::Save(2), Inst::Save(1), Inst::Match], 2),
        Error::BadCaptures
    );
}

#[test]
fn too_many_slots_are_bad_captures() {
    assert_eq!(
        error_of(vec![Inst::Save(0), Inst::Save(usize::MAX), Inst::Save(1), Inst::Match], 1),
        Error::BadCaptures
    );
}

#[test]
fn names_that_do_not_fit_are_bad_captures() {
    assert_eq!(error_of(vec![Inst::Save(0), Inst::Save(1), Inst::Match], 0), Error::BadCaptures);
    assert_eq!(error_of(vec![Inst::Save(0), Inst::Save(1), Inst::Match], 2), Error::BadCaptures);
}

#[test]
fn literals() {
    assert_eq!(lit('a').as_literal(), Some('a'));
    assert!(lit('a').is_literal());
    let folding = Inst::Char(OneChar { c: 'a', casei: true });
    assert_eq!(folding.as_literal(), None);
    assert!(!folding.is_literal());
    assert_eq!(Inst::Match.as_literal(), None);
    assert!(!Inst::Jump(0).is_literal());
}

fn class_of(pattern: &str) -> regex_syntax::CharClass {
    match regex_syntax::Expr::parse(pattern) {
        Ok(regex_syntax::Expr::Class(cls)) => cls,
        _ => panic!("no class"),
    }
}

#[test]
fn ranges_from_a_class() {
    let ranges = CharRanges::from_class(class_of("[x-za-c]"));
    assert_eq!(ranges.ranges, vec![('a', 'c'), ('x', 'z')]);
    assert!(!ranges.casei);
    let one = CharRanges::from_class(class_of("[0-9]"));
    assert_eq!(one.ranges, vec![('0', '9')]);
}

#[test]
fn ranges_from_a_folding_class() {
    let cls = class_of("(?i)[a-c]");
    let folds = cls.is_case_insensitive();
    let expected: Vec<(char, char)> = cls.iter().map(|r| (r.start, r.end)).collect();
    let ranges = CharRanges::from_class(cls);
    assert_eq!(ranges.casei, folds);
    assert!(ranges.casei);
    assert_eq!(ranges.ranges, expected);
}
