use regex_core::char::{char_code, Char};
use regex_core::program::{CharRanges, LookInst, OneChar};

#[test]
fn absent_is_none_and_has_no_length() {
    let none = Char::absent();
    assert!(none.is_none());
    assert_eq!(none.len_utf8(), 0);
    assert!(!none.is_word_char());
    assert!(none.case_fold().is_none());
    assert_eq!(Char::from_option(None), none);
}

#[test]
fn lengths_of_encodings() {
    assert_eq!(Char::from_char('a').len_utf8(), 1);
    assert_eq!(Char::from_char('\u{7f}').len_utf8(), 1);
    assert_eq!(Char::from_char('\u{80}').len_utf8(), 2);
    assert_eq!(Char::from_char('\u{e9}').len_utf8(), 2);
    assert_eq!(Char::from_char('\u{7ff}').len_utf8(), 2);
    assert_eq!(Char::from_char('\u{800}').len_utf8(), 3);
    assert_eq!(Char::from_char('\u{20ac}').len_utf8(), 3);
    assert_eq!(Char::from_char('\u{ffff}').len_utf8(), 3);
    assert_eq!(Char::from_char('\u{10000}').len_utf8(), 4);
    assert_eq!(Char::from_char('\u{1f600}').len_utf8(), 4);
}

#[test]
fn scalar_values() {
    assert_eq!(Char::from_char('a').scalar(), 97);
    assert_eq!(Char::absent().scalar(), u32::MAX);
    assert_eq!(char_code('\u{20ac}'), 0x20AC);
    assert_eq!(Char::from_option(Some('z')), Char::from_char('z'));
    assert!(!Char::from_char('z').is_none());
}

#[test]
fn absent_orders_behind_every_character() {
    assert!(Char::from_char('\u{10ffff}') < Char::absent());
    assert!(Char::from_char('a') < Char::from_char('b'));
}

#[test]
fn case_fold_changes_the_character() {
    let folded = Char::from_char('A').case_fold();
    assert_eq!(folded, Char::from_char(regex_syntax::simple_case_fold('A')));
    assert_ne!(folded, Char::from_char('A'));
    assert_eq!(Char::from_char('1').case_fold(), Char::from_char('1'));
}

#[test]
fn word_characters() {
    assert!(Char::from_char('a').is_word_char());
    assert!(Char::from_char('Z').is_word_char());
    assert!(Char::from_char('0').is_word_char());
    assert!(Char::from_char('_').is_word_char());
    assert!(Char::from_char('\u{e9}').is_word_char());
    assert!(!Char::from_char(' ').is_word_char());
    assert!(!Char::from_char('-').is_word_char());
}

#[test]
fn one_char_matches() {
    let plain = OneChar { c: 'a', casei: false };
    assert!(plain.matches(Char::from_char('a')));
    assert!(!plain.matches(Char::from_char('A')));
    assert!(!plain.matches(Char::from_char('b')));
    assert!(!plain.matches(Char::absent()));
    let folding = OneChar { c: 'a', casei: true };
    assert!(folding.matches(Char::from_char('a')));
    assert!(folding.matches(Char::from_char('A')));
    assert!(!folding.matches(Char::from_char('b')));
    assert!(!folding.matches(Char::absent()));
}

#[test]
fn ranges_any() {
    let any = CharRanges::any();
    assert_eq!(any.ranges, vec![('\x00', '\u{10ffff}')]);
    assert!(!any.casei);
    assert_eq!(any.matches(Char::from_char('\n')), Some(0));
    assert_eq!(any.matches(Char::from_char('\u{10ffff}')), Some(0));
    assert_eq!(any.matches(Char::absent()), None);
}

#[test]
fn ranges_any_but_newline() {
    let any = CharRanges::any_nonl();
    assert_eq!(any.ranges, vec![('\x00', '\x09'), ('\x0B', '\u{10ffff}')]);
    assert_eq!(any.matches(Char::from_char('\n')), None);
    assert_eq!(any.matches(Char::from_char('\t')), Some(0));
    assert_eq!(any.matches(Char::from_char('a')), Some(1));
    assert_eq!(any.matches(Char::absent()), None);
}

#[test]
fn ranges_beyond_the_first_four_are_found() {
    let ranges = CharRanges {
        ranges: vec![
            ('a', 'b'),
            ('d', 'e'),
            ('g', 'h'),
            ('j', 'k'),
            ('m', 'n'),
            ('p', 'q'),
            ('s', 't'),
        ],
        casei: false,
    };
    assert_eq!(ranges.matches(Char::from_char('a')), Some(0));
    assert_eq!(ranges.matches(Char::from_char('e')), Some(1));
    assert_eq!(ranges.matches(Char::from_char('k')), Some(3));
    assert_eq!(ranges.matches(Char::from_char('m')), Some(4));
    assert_eq!(ranges.matches(Char::from_char('q')), Some(5));
    assert_eq!(ranges.matches(Char::from_char('t')), Some(6));
    assert_eq!(ranges.matches(Char::from_char('c')), None);
    assert_eq!(ranges.matches(Char::from_char('l')), None);
    assert_eq!(ranges.matches(Char::from_char('o')), None);
    assert_eq!(ranges.matches(Char::from_char('z')), None);
    assert_eq!(ranges.matches(Char::from_char('A')), None);
    assert_eq!(ranges.matches(Char::absent()), None);
}

#[test]
fn ranges_fold_before_they_look() {
    let ranges = CharRanges { ranges: vec![('a', 'c')], casei: true };
    assert_eq!(ranges.matches(Char::from_char('B')), Some(0));
    let plain = CharRanges { ranges: vec![('a', 'c')], casei: false };
    assert_eq!(plain.matches(Char::from_char('B')), None);
}

#[test]
fn empty_ranges_hold_nothing() {
    let ranges = CharRanges { ranges: vec![], casei: false };
    assert_eq!(ranges.matches(Char::from_char('a')), None);
}

#[test]
fn looks() {
    let none = Char::absent();
    let nl = Char::from_char('\n');
    let a = Char::from_char('a');
    let sp = Char::from_char(' ');
    assert!(LookInst::StartLine.matches(none, a));
    assert!(LookInst::StartLine.matches(nl, a));
    assert!(!LookInst::StartLine.matches(a, a));
    assert!(LookInst::EndLine.matches(a, none));
    assert!(LookInst::EndLine.matches(a, nl));
    assert!(!LookInst::EndLine.matches(a, a));
    assert!(LookInst::StartText.matches(none, a));
    assert!(!LookInst::StartText.matches(nl, a));
    assert!(LookInst::EndText.matches(a, none));
    assert!(!LookInst::EndText.matches(a, nl));
    assert!(LookInst::WordBoundary.matches(sp, a));
    assert!(LookInst::WordBoundary.matches(a, none));
    assert!(LookInst::WordBoundary.matches(none, a));
    assert!(!LookInst::WordBoundary.matches(a, a));
    assert!(!LookInst::WordBoundary.matches(sp, none));
    assert!(LookInst::NotWordBoundary.matches(a, a));
    assert!(LookInst::NotWordBoundary.matches(sp, sp));
    assert!(LookInst::NotWordBoundary.matches(none, none));
    assert!(!LookInst::NotWordBoundary.matches(sp, a));
}

#[test]
fn values_compare_with_characters() {
    let a = Char::from('a');
    assert!(a == 'a');
    assert!('a' == a);
    assert!(a != 'b');
    assert!('b' != a);
    assert!(a < 'b');
    assert!(a <= 'a');
    assert!(a > 'A');
    assert!('A' < a);
    assert!('b' >= a);
    assert!(!('b' < a));
}

#[test]
fn absent_compares_behind_every_character() {
    let none = Char::from(None);
    assert!(none.is_none());
    assert!(none != '\u{10ffff}');
    assert!(none > '\u{10ffff}');
    assert!('\u{10ffff}' < none);
    assert!(!(none <= '\u{0}'));
}

#[test]
fn conversions_agree_with_the_constructors() {
    assert_eq!(Char::from('z'), Char::from_char('z'));
    assert_eq!(Char::from(Some('z')), Char::from_option(Some('z')));
    assert_eq!(Char::from(None), Char::absent());
    let c: Char = '\u{20ac}'.into();
    assert_eq!(c.scalar(), 0x20AC);
}
