//! A character or "no character" in one value, as the cursor reports it at
//! a place in the text.

use vstd::prelude::*;
use vstd::std_specs::convert::FromSpecImpl;
use vstd::utf8::*;

verus! {

/// The canonical simple case folding of `c`, as the syntax crate's
/// Unicode tables define it.
pub uninterp spec fn simple_fold(c: char) -> char;

/// Whether the syntax crate's tables class `c` as a word character.
pub uninterp spec fn word_char(c: char) -> bool;

/// `char::from_u32` yields the character with the given scalar value, and
/// nothing for a surrogate or a value above `0x10FFFF`.
pub assume_specification[ std::char::from_u32 ](i: u32) -> (r: Option<char>)
    ensures
        r == (if is_scalar(i) {
            Some(i as char)
        } else {
            None
        }),
;

/// Calls `regex_syntax::simple_case_fold`, a lookup in a fixed table: the
/// result depends on `c` alone.
#[verifier::external_body]
fn fold_scalar(c: char) -> (r: char)
    ensures
        r == simple_fold(c),
{
    regex_syntax::simple_case_fold(c)
}

/// Calls `regex_syntax::is_word_char`, a lookup in a fixed table: the result
/// depends on `c` alone.
#[verifier::external_body]
fn word_scalar(c: char) -> (r: bool)
    ensures
        r == word_char(c),
{
    regex_syntax::is_word_char(c)
}

/// The code that stands for "no character".
pub const ABSENT: u32 = 0xFFFF_FFFF;

/// How many bytes the UTF-8 encoding of the scalar value `v` takes.
pub open spec fn scalar_width(v: u32) -> int {
    if v <= 0x7F {
        1
    } else if v <= 0x7FF {
        2
    } else if v <= 0xFFFF {
        3
    } else {
        4
    }
}

/// How many bytes a character takes in UTF-8; nothing takes none.
pub open spec fn width_of(c: Option<char>) -> int {
    match c {
        Some(c) => scalar_width(c as u32),
        None => 0,
    }
}

/// A character's number is a scalar value, also where the character is
/// taken out of a tuple or a sequence.
pub proof fn lemma_char_code(c: char)
    ensures
        c as int == c as u32 as int,
        is_scalar(c as u32),
{
}

/// The scalar value of `c`.
pub fn char_code(c: char) -> (v: u32)
    ensures
        v as int == c as int,
        v == c as u32,
        is_scalar(v),
{
    c as u32
}

/// Either a Unicode scalar value or the mark for "no character", which is
/// what a cursor reports at either end of the text.
#[derive(Clone, Copy, Debug, Hash, PartialEq, Eq, Structural, PartialOrd, Ord)]
pub struct Char(u32);

impl View for Char {
    type V = Option<char>;

    open spec fn view(&self) -> Option<char> {
        if is_scalar(self.code()) {
            Some(self.code() as char)
        } else {
            None
        }
    }
}

impl Char {
    #[verifier::type_invariant]
    spec fn valid(self) -> bool {
        self.0 == ABSENT || is_scalar(self.0)
    }

    /// The number by which values are ordered: the scalar value of a
    /// character, and for "no character" a number above every scalar value.
    pub closed spec fn code(self) -> u32 {
        self.0
    }

    /// The value that stands for `x`.
    pub closed spec fn of(x: Option<char>) -> Char {
        match x {
            Some(c) => Char(c as u32),
            None => Char(ABSENT),
        }
    }

    /// The value that stands for `x` has `x` as its view.
    pub proof fn lemma_of(x: Option<char>)
        ensures
            Char::of(x)@ == x,
    {
        if let Some(c) = x {
            lemma_char_code(c);
        }
    }

    /// The value that stands for the character `c`.
    pub fn from_char(c: char) -> (r: Char)
        ensures
            r == Char::of(Some(c)),
            r@ == Some(c),
            r.code() == c as u32,
    {
        Char(char_code(c))
    }

    /// The value that stands for `c`, where nothing is "no character".
    pub fn from_option(c: Option<char>) -> (r: Char)
        ensures
            r == Char::of(c),
            r@ == c,
    {
        match c {
            Some(c) => Char(char_code(c)),
            None => Char(ABSENT),
        }
    }

    /// The value that stands for "no character".
    pub fn absent() -> (r: Char)
        ensures
            r@ is None,
            r.code() == ABSENT,
    {
        Char(ABSENT)
    }

    /// The scalar value of a character, or `ABSENT`.
    pub fn scalar(self) -> (r: u32)
        ensures
            r == self.code(),
            r == ABSENT || is_scalar(r),
            self@ == (if r == ABSENT {
                None
            } else {
                Some(r as char)
            }),
    {
        proof {
            use_type_invariant(self);
        }
        self.0
    }

    /// Whether this is "no character".
    pub fn is_none(self) -> (r: bool)
        ensures
            r == (self@ is None),
    {
        proof {
            use_type_invariant(self);
        }
        self.0 == ABSENT
    }

    /// The number of bytes that the character takes in UTF-8; "no
    /// character" takes none.
    pub fn len_utf8(self) -> (r: usize)
        ensures
            r == width_of(self@),
    {
        proof {
            use_type_invariant(self);
        }
        if self.0 == ABSENT {
            0
        } else if self.0 <= 0x7F {
            1
        } else if self.0 <= 0x7FF {
            2
        } else if self.0 <= 0xFFFF {
            3
        } else {
            4
        }
    }

    /// The character after simple case folding; "no character" stays.
    pub fn case_fold(self) -> (r: Char)
        ensures
            r@ == (match self@ {
                Some(c) => Some(simple_fold(c)),
                None => None,
            }),
    {
        proof {
            use_type_invariant(self);
        }
        match std::char::from_u32(self.0) {
            Some(c) => {
                let folded = fold_scalar(c);
                proof {
                    Char::lemma_of(Some(folded));
                }
                Char::from(folded)
            },
            None => self,
        }
    }

    /// Whether this is a word character; "no character" is none.
    pub fn is_word_char(self) -> (r: bool)
        ensures
            r == (match self@ {
                Some(c) => word_char(c),
                None => false,
            }),
    {
        proof {
            use_type_invariant(self);
        }
        match std::char::from_u32(self.0) {
            Some(c) => word_scalar(c),
            None => false,
        }
    }
}

/// A character as a value.
impl From<char> for Char {
    fn from(c: char) -> (r: Char) {
        Char::from_char(c)
    }
}

impl FromSpecImpl<char> for Char {
    open spec fn obeys_from_spec() -> bool {
        true
    }

    open spec fn from_spec(c: char) -> Char {
        Char::of(Some(c))
    }
}

/// A character or nothing as a value.
impl From<Option<char>> for Char {
    fn from(c: Option<char>) -> (r: Char) {
        Char::from_option(c)
    }
}

impl FromSpecImpl<Option<char>> for Char {
    open spec fn obeys_from_spec() -> bool {
        true
    }

    open spec fn from_spec(c: Option<char>) -> Char {
        Char::of(c)
    }
}

} // verus!
