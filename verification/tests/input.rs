use regex_core::char::Char;
use regex_core::input::{CharInput, Input, InputAt};

#[test]
fn beginning_is_at_the_start_with_no_character() {
    let at = InputAt::beginning();
    assert!(at.is_beginning());
    assert!(at.is_end());
    assert_eq!(at.pos(), 0);
    assert_eq!(at.len(), 0);
    assert_eq!(at.next_pos(), 0);
    assert!(at.char().is_none());
}

#[test]
fn at_reads_characters_of_every_width() {
    let text = "a\u{e9}\u{20ac}\u{1f600}z";
    let input = CharInput::new(text);
    assert_eq!(input.len(), 11);
    let a = input.at(0);
    assert_eq!((a.pos(), a.char(), a.len(), a.next_pos()), (0, Char::from_char('a'), 1, 1));
    assert!(a.is_beginning());
    assert!(!a.is_end());
    let e = input.at(1);
    assert_eq!((e.pos(), e.char(), e.len(), e.next_pos()), (1, Char::from_char('\u{e9}'), 2, 3));
    assert!(!e.is_beginning());
    let euro = input.at(3);
    assert_eq!((euro.char(), euro.len(), euro.next_pos()), (Char::from_char('\u{20ac}'), 3, 6));
    let face = input.at(6);
    assert_eq!((face.char(), face.len(), face.next_pos()), (Char::from_char('\u{1f600}'), 4, 10));
    let z = input.at(10);
    assert_eq!((z.char(), z.len(), z.next_pos()), (Char::from_char('z'), 1, 11));
    let end = input.at(11);
    assert!(end.is_end());
    assert_eq!((end.pos(), end.len(), end.next_pos()), (11, 0, 11));
}

#[test]
fn at_on_an_empty_text() {
    let input = CharInput::new("");
    let at = input.at(0);
    assert!(at.is_end());
    assert!(at.is_beginning());
    assert_eq!(at.pos(), 0);
    let before = input.previous_at(0);
    assert!(before.char().is_none());
    assert_eq!(before.pos(), 0);
}

#[test]
fn previous_at_reads_backwards() {
    let text = "a\u{e9}\u{20ac}\u{1f600}z";
    let input = CharInput::new(text);
    let z = input.previous_at(11);
    assert_eq!((z.pos(), z.char(), z.len()), (10, Char::from_char('z'), 1));
    let face = input.previous_at(10);
    assert_eq!((face.pos(), face.char(), face.len()), (6, Char::from_char('\u{1f600}'), 4));
    let euro = input.previous_at(6);
    assert_eq!((euro.pos(), euro.char(), euro.len()), (3, Char::from_char('\u{20ac}'), 3));
    let e = input.previous_at(3);
    assert_eq!((e.pos(), e.char(), e.len()), (1, Char::from_char('\u{e9}'), 2));
    let a = input.previous_at(1);
    assert_eq!((a.pos(), a.char(), a.len()), (0, Char::from_char('a'), 1));
}

#[test]
fn stepping_forward_and_back_returns() {
    let text = "x\u{e9}\u{20ac}\u{1f600}\n";
    let input = CharInput::new(text);
    let mut pos = 0;
    while pos < text.len() {
        let at = input.at(pos);
        let back = input.previous_at(at.pos() + at.len());
        assert_eq!(back.pos(), at.pos());
        assert_eq!(back.char(), at.char());
        pos = at.next_pos();
    }
    assert_eq!(pos, text.len());
}

#[test]
fn prefix_at_without_prefixes_stays() {
    let input = CharInput::new("abc");
    let at = input.at(1);
    let found = input.prefix_at(&[], at).unwrap();
    assert_eq!(found.pos(), 1);
    assert_eq!(found.char(), Char::from_char('b'));
}

#[test]
fn prefix_at_finds_one_prefix() {
    let input = CharInput::new("xxabcxxabc");
    let prefixes = vec!["abc".to_string()];
    let found = input.prefix_at(&prefixes, input.at(0)).unwrap();
    assert_eq!(found.pos(), 2);
    assert_eq!(found.char(), Char::from_char('a'));
    let again = input.prefix_at(&prefixes, input.at(3)).unwrap();
    assert_eq!(again.pos(), 7);
    assert!(input.prefix_at(&prefixes, input.at(8)).is_none());
}

#[test]
fn prefix_at_finds_the_leftmost_of_many() {
    let input = CharInput::new("\u{e9}\u{e9}def abc");
    let prefixes = vec!["abc".to_string(), "def".to_string()];
    let found = input.prefix_at(&prefixes, input.at(0)).unwrap();
    assert_eq!(found.pos(), 4);
    assert_eq!(found.char(), Char::from_char('d'));
    let next = input.prefix_at(&prefixes, input.at(5)).unwrap();
    assert_eq!(next.pos(), 8);
    assert!(input.prefix_at(&prefixes, input.at(9)).is_none());
}

#[test]
fn prefix_at_lands_on_a_boundary() {
    let text = "\u{20ac}\u{e9}x\u{e9}";
    let input = CharInput::new(text);
    let prefixes = vec!["\u{e9}".to_string()];
    let found = input.prefix_at(&prefixes, input.at(0)).unwrap();
    assert_eq!(found.pos(), 3);
    assert!(text.is_char_boundary(found.pos()));
    assert_eq!(found.char(), Char::from_char('\u{e9}'));
    assert_eq!(&text.as_bytes()[found.pos()..found.pos() + 2], "\u{e9}".as_bytes());
}

#[test]
fn input_derefs_to_its_text() {
    let input = CharInput::new("h\u{e9}llo");
    assert_eq!(&*input, "h\u{e9}llo");
    assert!(input.starts_with("h"));
    assert_eq!(input.chars().count(), 5);
    assert_eq!(input.len(), 6);
}
