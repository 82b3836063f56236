//! The cursor over a UTF-8 text: the character at a boundary, the one
//! before it, and the next place where a literal prefix stands.

use crate::char::{width_of, Char};
use crate::prefix::{any_occurs_at, find_any, find_one};
use vstd::prelude::*;
use vstd::string::*;
use vstd::utf8::*;

verus! {

/// `i` is an offset in the UTF-8 text `text` at which a character starts,
/// or the end of the text.
pub open spec fn boundary(text: Seq<u8>, i: int) -> bool {
    valid_utf8(text) && is_char_boundary(text, i)
}

/// The character that starts at offset `i`, if one does.
pub open spec fn char_at(text: Seq<u8>, i: int) -> Option<char> {
    if 0 <= i < text.len() {
        Some(decode_first_scalar(text.subrange(i, text.len() as int)) as char)
    } else {
        None
    }
}

/// The offset at which the character that ends at offset `i` starts.
pub open spec fn prev_pos(text: Seq<u8>, i: int) -> int {
    if 0 < i <= text.len() {
        i - length_of_last_scalar(text.subrange(0, i))
    } else {
        i
    }
}

/// The character that ends at offset `i`, if one does.
pub open spec fn char_before(text: Seq<u8>, i: int) -> Option<char> {
    if 0 < i <= text.len() {
        Some(decode_last_scalar(text.subrange(0, i)) as char)
    } else {
        None
    }
}

/// The offset just behind the character that starts at offset `i`.
pub open spec fn next_pos(text: Seq<u8>, i: int) -> int {
    i + width_of(char_at(text, i))
}

/// A boundary lies within the text.
pub proof fn lemma_boundary_range(text: Seq<u8>, i: int)
    requires
        boundary(text, i),
    ensures
        0 <= i <= text.len(),
{
}

/// At a boundary before the end a well-formed scalar starts, and its width
/// is the width of the character decoded there.
pub proof fn lemma_scalar_at(text: Seq<u8>, i: int)
    requires
        boundary(text, i),
        i < text.len(),
    ensures
        valid_first_scalar(text.subrange(i, text.len() as int)),
        is_scalar(decode_first_scalar(text.subrange(i, text.len() as int))),
        width_of(char_at(text, i)) == length_of_first_scalar(
            text.subrange(i, text.len() as int),
        ),
        1 <= width_of(char_at(text, i)) <= 4,
        i + width_of(char_at(text, i)) <= text.len(),
{
    let rest = text.subrange(i, text.len() as int);
    valid_utf8_split(text, i);
    assert(valid_first_scalar(rest));
    let b0 = rest[0];
    let v = decode_first_scalar(rest);
    if is_leading_byte_width_1(b0) {
        assert((b0 & 0x7F) as u32 <= 0x7F) by (bit_vector);
    } else if is_leading_byte_width_2(b0) {
        let b1 = rest[1];
        assert((((b0 & 0x1F) as u32) << 6 | (b1 & 0x3F) as u32) <= 0x7FF) by (bit_vector);
    } else if is_leading_byte_width_3(b0) {
        let b1 = rest[1];
        let b2 = rest[2];
        assert((((b0 & 0x0F) as u32) << 12 | ((b1 & 0x3F) as u32) << 6 | (b2 & 0x3F) as u32)
            <= 0xFFFF) by (bit_vector);
    } else {
    }
    assert(is_scalar(v));
    assert(v as char as u32 == v);
}

/// Behind the character that starts at a boundary lies the next boundary,
/// with none between the two.
pub proof fn lemma_next_boundary(text: Seq<u8>, i: int)
    requires
        boundary(text, i),
        i < text.len(),
    ensures
        boundary(text, next_pos(text, i)),
        i < next_pos(text, i) <= text.len(),
        forall|k: int| i < k < next_pos(text, i) ==> !boundary(text, k),
        forall|k: int| i < k < next_pos(text, i) ==> is_continuation_byte(#[trigger] text[k]),
{
    let n = text.len() as int;
    let rest = text.subrange(i, n);
    lemma_scalar_at(text, i);
    let w = length_of_first_scalar(rest);
    let j = i + w;
    valid_utf8_split(text, i);
    assert(valid_utf8(pop_first_scalar(rest)));
    assert(pop_first_scalar(rest) =~= text.subrange(j, n));
    if j == n {
        is_char_boundary_start_end_of_seq(text);
    } else {
        let tail = text.subrange(j, n);
        assert(valid_first_scalar(tail));
        assert(tail[0] == text[j]);
        is_char_boundary_iff_not_is_continuation_byte(text, j);
    }
    assert forall|k: int| i < k < j implies is_continuation_byte(#[trigger] text[k]) by {
        assert(rest[k - i] == text[k]);
    }
    assert forall|k: int| i < k < j implies !boundary(text, k) by {
        assert(is_continuation_byte(text[k]));
        is_char_boundary_iff_not_is_continuation_byte(text, k);
    }
}

/// Stepping forward over a character and then back over it returns to the
/// start, and looking back from behind a character sees that character.
pub proof fn lemma_prev_of_next(text: Seq<u8>, i: int)
    requires
        boundary(text, i),
        i < text.len(),
    ensures
        prev_pos(text, next_pos(text, i)) == i,
        char_before(text, next_pos(text, i)) == char_at(text, i),
{
    let n = text.len() as int;
    lemma_scalar_at(text, i);
    lemma_next_boundary(text, i);
    let j = next_pos(text, i);
    let rest = text.subrange(i, n);
    let head = text.subrange(0, j);
    is_char_boundary_iff_not_is_continuation_byte(text, i);
    assert(!is_continuation_byte(text[i]));
    assert forall|k: int| i <= k < j implies head[k] == text[k] && rest[k - i] == text[k] by {}
    assert(head.len() == j);
    if j - i == 1 {
        assert(head[j - 1] == text[i]);
    } else if j - i == 2 {
        assert(is_continuation_byte(text[j - 1]));
        assert(head[j - 2] == text[i]);
    } else if j - i == 3 {
        assert(is_continuation_byte(text[j - 1]));
        assert(is_continuation_byte(text[j - 2]));
        assert(head[j - 3] == text[i]);
    } else {
        assert(is_continuation_byte(text[j - 1]));
        assert(is_continuation_byte(text[j - 2]));
        assert(is_continuation_byte(text[j - 3]));
        assert(head[j - 4] == text[i]);
    }
}

/// Before a boundary that is not the start lies a boundary from which one
/// character leads to it.
pub proof fn lemma_prev_boundary(text: Seq<u8>, i: int)
    requires
        boundary(text, i),
        0 < i,
    ensures
        boundary(text, prev_pos(text, i)),
        0 <= prev_pos(text, i) < i,
        next_pos(text, prev_pos(text, i)) == i,
        char_before(text, i) == char_at(text, prev_pos(text, i)),
    decreases i,
{
    let n = text.len() as int;
    let j = lemma_last_start(text, i, 0);
    lemma_prev_of_next(text, j);
}

/// From a boundary `from` before the boundary `i`, steps forward reach a
/// boundary from which one character leads to `i`.
proof fn lemma_last_start(text: Seq<u8>, i: int, from: int) -> (j: int)
    requires
        boundary(text, i),
        boundary(text, from),
        0 <= from < i,
    ensures
        boundary(text, j),
        from <= j < i,
        next_pos(text, j) == i,
    decreases i - from,
{
    lemma_next_boundary(text, from);
    let nx = next_pos(text, from);
    if nx == i {
        from
    } else {
        assert(nx < i) by {
            if nx > i {
                assert(!boundary(text, i));
            }
        }
        lemma_last_start(text, i, nx)
    }
}

/// A place in a text: a byte offset and the character that starts there,
/// with the length of that character's encoding.
#[derive(Clone, Copy, Debug)]
pub struct InputAt {
    pos: usize,
    c: Char,
    len: usize,
}

impl View for InputAt {
    type V = (int, Option<char>);

    closed spec fn view(&self) -> (int, Option<char>) {
        (self.pos as int, self.c@)
    }
}

/// What a cursor reports at offset `i` of `text`.
pub open spec fn spot(text: Seq<u8>, i: int) -> (int, Option<char>) {
    (i, char_at(text, i))
}

/// `at` is a place in `text`: a boundary, with the character that starts
/// there.
pub open spec fn placed(text: Seq<u8>, at: InputAt) -> bool {
    boundary(text, at@.0) && at@ == spot(text, at@.0)
}

impl InputAt {
    #[verifier::type_invariant]
    spec fn valid(self) -> bool {
        self.len == width_of(self.c@) && self.pos + self.len <= usize::MAX
    }

    /// The place before any text: offset 0 with no character.
    pub fn beginning() -> (r: InputAt)
        ensures
            r@ == (0int, None::<char>),
    {
        InputAt { pos: 0, c: Char::absent(), len: 0 }
    }

    /// Whether the cursor is at the start of the text.
    pub fn is_beginning(&self) -> (r: bool)
        ensures
            r == (self@.0 == 0),
    {
        self.pos == 0
    }

    /// Whether the cursor is at the end of the text.
    pub fn is_end(&self) -> (r: bool)
        ensures
            r == (self@.1 is None),
    {
        self.c.is_none()
    }

    /// The character at the cursor.
    pub fn char(&self) -> (r: Char)
        ensures
            r@ == self@.1,
    {
        self.c
    }

    /// The number of bytes of the character at the cursor.
    pub fn len(&self) -> (r: usize)
        ensures
            r == width_of(self@.1),
    {
        proof {
            use_type_invariant(self);
        }
        self.len
    }

    /// The offset of the cursor.
    pub fn pos(&self) -> (r: usize)
        ensures
            r == self@.0,
    {
        self.pos
    }

    /// The offset behind the character at the cursor.
    pub fn next_pos(&self) -> (r: usize)
        ensures
            r == self@.0 + width_of(self@.1),
    {
        proof {
            use_type_invariant(self);
        }
        self.pos + self.len
    }
}

/// A text that can be read at any boundary, forwards and backwards.
pub trait Input {
    /// The bytes of the text.
    spec fn text(&self) -> Seq<u8>;

    /// The place at offset `i`.
    fn at(&self, i: usize) -> (r: InputAt)
        requires
            boundary(self.text(), i as int),
        ensures
            r@ == spot(self.text(), i as int),
    ;

    /// The place of the character that ends at offset `i`; at the start of
    /// the text, the start with no character.
    fn previous_at(&self, i: usize) -> (r: InputAt)
        requires
            boundary(self.text(), i as int),
        ensures
            r@ == (prev_pos(self.text(), i as int), char_before(self.text(), i as int)),
    ;

    /// The first place at or after `at` where one of `prefixes` starts. With
    /// no prefixes, that is `at` itself.
    fn prefix_at(&self, prefixes: &[String], at: InputAt) -> (r: Option<InputAt>)
        requires
            boundary(self.text(), at@.0),
            at@ == spot(self.text(), at@.0),
        ensures
            prefixes@.len() == 0 ==> r == Some(at),
            prefixes@.len() > 0 ==> match r {
                Some(a) => {
                    &&& at@.0 <= a@.0
                    &&& boundary(self.text(), a@.0)
                    &&& a@ == spot(self.text(), a@.0)
                    &&& any_occurs_at(prefixes@, self.text(), a@.0)
                    &&& forall|j: int| at@.0 <= j < a@.0 ==> !any_occurs_at(prefixes@, self.text(), j)
                },
                None => forall|j: int| at@.0 <= j ==> !any_occurs_at(prefixes@, self.text(), j),
            },
    ;
}

/// A `&str` as an `Input`.
#[derive(Debug)]
pub struct CharInput<'t>(&'t str);

impl<'t> CharInput<'t> {
    /// The text `s` as an input.
    pub fn new(s: &'t str) -> (r: CharInput<'t>)
        ensures
            r.text() == s.spec_bytes(),
            valid_utf8(r.text()),
    {
        broadcast use encode_utf8_valid_utf8;

        CharInput(s)
    }

    /// The text of a `CharInput` is UTF-8.
    pub proof fn lemma_text_valid(&self)
        ensures
            valid_utf8(self.text()),
    {
        broadcast use encode_utf8_valid_utf8;

    }

    /// The number of bytes of the text.
    pub fn len(&self) -> (r: usize)
        ensures
            r == self.text().len(),
    {
        self.0.as_bytes().len()
    }

    /// The text as bytes.
    pub fn as_bytes(&self) -> (r: &'t [u8])
        ensures
            r@ == self.text(),
            valid_utf8(r@),
    {
        broadcast use encode_utf8_valid_utf8;

        self.0.as_bytes()
    }
}

/// A `CharInput` can stand where its text is asked for.
impl<'t> std::ops::Deref for CharInput<'t> {
    type Target = str;

    fn deref(&self) -> (r: &str)
        ensures
            r.spec_bytes() == self.text(),
    {
        self.0
    }
}

impl<'t> Input for CharInput<'t> {
    closed spec fn text(&self) -> Seq<u8> {
        self.0.spec_bytes()
    }

    fn at(&self, i: usize) -> (r: InputAt) {
        let bytes = self.as_bytes();
        let n = bytes.len();
        if i >= n {
            return InputAt { pos: i, c: Char::absent(), len: 0 };
        }
        let ghost rest = bytes@.subrange(i as int, n as int);
        proof {
            lemma_scalar_at(bytes@, i as int);
        }
        let b0 = bytes[i];
        assert(rest[0] == b0);
        let (v, len): (u32, usize) = if b0 <= 0x7F {
            ((b0 & 0x7F) as u32, 1)
        } else if b0 <= 0xDF {
            assert(rest[1] == bytes@[i + 1]);
            let b1 = bytes[i + 1];
            (((b0 & 0x1F) as u32) << 6 | (b1 & 0x3F) as u32, 2)
        } else if b0 <= 0xEF {
            assert(rest[1] == bytes@[i + 1]);
            assert(rest[2] == bytes@[i + 2]);
            let b1 = bytes[i + 1];
            let b2 = bytes[i + 2];
            (((b0 & 0x0F) as u32) << 12 | ((b1 & 0x3F) as u32) << 6 | (b2 & 0x3F) as u32, 3)
        } else {
            assert(rest[1] == bytes@[i + 1]);
            assert(rest[2] == bytes@[i + 2]);
            assert(rest[3] == bytes@[i + 3]);
            let b1 = bytes[i + 1];
            let b2 = bytes[i + 2];
            let b3 = bytes[i + 3];
            (
                ((b0 & 0x07) as u32) << 18 | ((b1 & 0x3F) as u32) << 12 | ((b2 & 0x3F) as u32) << 6
                    | (b3 & 0x3F) as u32,
                4,
            )
        };
        assert(v == decode_first_scalar(rest));
        let c = Char::from_option(std::char::from_u32(v));
        InputAt { pos: i, c, len }
    }

    fn previous_at(&self, i: usize) -> (r: InputAt) {
        let bytes = self.as_bytes();
        if i == 0 {
            return InputAt { pos: 0, c: Char::absent(), len: 0 };
        }
        proof {
            lemma_boundary_range(bytes@, i as int);
            lemma_prev_boundary(bytes@, i as int);
            lemma_next_boundary(bytes@, prev_pos(bytes@, i as int));
            lemma_scalar_at(bytes@, prev_pos(bytes@, i as int));
        }
        let ghost head = bytes@.subrange(0, i as int);
        assert(head.len() == i);
        assert(forall|k: int| 0 <= k < i ==> head[k] == bytes@[k]);
        let ghost p = prev_pos(bytes@, i as int);
        proof {
            is_char_boundary_iff_not_is_continuation_byte(bytes@, p);
            utf8_byte_ranges_bitwise(bytes@[i - 1]);
        }
        let mut back: usize = 1;
        if bytes[i - 1] & 0xC0 == 0x80 {
            proof {
                utf8_byte_ranges_bitwise(bytes@[i - 2]);
            }
            back = 2;
            if bytes[i - 2] & 0xC0 == 0x80 {
                proof {
                    utf8_byte_ranges_bitwise(bytes@[i - 3]);
                }
                back = 3;
                if bytes[i - 3] & 0xC0 == 0x80 {
                    back = 4;
                }
            }
        }
        assert(back == length_of_last_scalar(head));
        self.at(i - back)
    }

    fn prefix_at(&self, prefixes: &[String], at: InputAt) -> (r: Option<InputAt>) {
        let bytes = self.as_bytes();
        let start = at.pos();
        proof {
            lemma_boundary_range(bytes@, start as int);
        }
        let haystack = &bytes[start..bytes.len()];
        let found = match prefixes.len() {
            0 => {
                return Some(at);
            },
            1 => find_single(prefixes, haystack),
            _ => find_any(prefixes, haystack),
        };
        proof {
            assert forall|j: int| start <= j implies (any_occurs_at(prefixes@, bytes@, j)
                <==> any_occurs_at(prefixes@, haystack@, j - start)) by {
                lemma_shift(prefixes@, bytes@, start as int, j);
            }
        }
        match found {
            None => None,
            Some(adv) => {
                proof {
                    lemma_found_boundary(prefixes@, bytes@, start + adv);
                }
                Some(self.at(start + adv))
            },
        }
    }
}

/// `find_one` for a list of one needle, in the terms of `find_any`.
fn find_single(needles: &[String], haystack: &[u8]) -> (r: Option<usize>)
    requires
        needles@.len() == 1,
    ensures
        match r {
            Some(i) => {
                &&& any_occurs_at(needles@, haystack@, i as int)
                &&& forall|j: int| 0 <= j < i ==> !any_occurs_at(needles@, haystack@, j)
            },
            None => forall|j: int| !any_occurs_at(needles@, haystack@, j),
        },
{
    let needle = needles[0].as_str().as_bytes();
    proof {
        reveal(any_occurs_at);
        crate::prefix::lemma_bytes_empty(needles@[0]@);
    }
    let r = find_one(needle, haystack);
    proof {
        assert forall|j: int| any_occurs_at(needles@, haystack@, j) <==> (needle@.len() > 0
            && crate::prefix::occurs_at(needle@, haystack@, j)) by {
            if needle@.len() > 0 && crate::prefix::occurs_at(needle@, haystack@, j) {
                assert(crate::prefix::occurs_at(encode_utf8(needles@[0]@), haystack@, j));
            }
        }
    }
    r
}

/// A needle stands in the tail of a text where it stands in the text.
proof fn lemma_shift(needles: Seq<String>, text: Seq<u8>, start: int, j: int)
    requires
        0 <= start <= j,
        start <= text.len(),
    ensures
        any_occurs_at(needles, text, j) <==> any_occurs_at(
            needles,
            text.subrange(start, text.len() as int),
            j - start,
        ),
{
    reveal(any_occurs_at);
    let tail = text.subrange(start, text.len() as int);
    assert forall|k: int| 0 <= k < needles.len() implies (crate::prefix::occurs_at(
        encode_utf8(needles[k]@),
        text,
        j,
    ) <==> #[trigger] crate::prefix::occurs_at(encode_utf8(needles[k]@), tail, j - start)) by {
        let nd = encode_utf8(needles[k]@);
        if j + nd.len() <= text.len() {
            assert(text.subrange(j, j + nd.len()) =~= tail.subrange(
                j - start,
                j - start + nd.len(),
            ));
        }
    }
    if any_occurs_at(needles, text, j) {
        let k = choose|k: int|
            0 <= k < needles.len() && needles[k]@.len() > 0 && #[trigger] crate::prefix::occurs_at(
                encode_utf8(needles[k]@),
                text,
                j,
            );
        assert(crate::prefix::occurs_at(encode_utf8(needles[k]@), tail, j - start));
    }
    if any_occurs_at(needles, tail, j - start) {
        let k = choose|k: int|
            0 <= k < needles.len() && needles[k]@.len() > 0 && #[trigger] crate::prefix::occurs_at(
                encode_utf8(needles[k]@),
                tail,
                j - start,
            );
        assert(crate::prefix::occurs_at(encode_utf8(needles[k]@), text, j));
    }
}

/// Where a string that is not empty stands in a UTF-8 text, a character
/// starts.
pub proof fn lemma_found_boundary(needles: Seq<String>, text: Seq<u8>, j: int)
    requires
        valid_utf8(text),
        any_occurs_at(needles, text, j),
    ensures
        boundary(text, j),
        j < text.len(),
{
    reveal(any_occurs_at);
    let k = choose|k: int|
        0 <= k < needles.len() && needles[k]@.len() > 0 && #[trigger] crate::prefix::occurs_at(
            encode_utf8(needles[k]@),
            text,
            j,
        );
    let nd = encode_utf8(needles[k]@);
    crate::prefix::lemma_bytes_empty(needles[k]@);
    encode_utf8_valid_utf8(needles[k]@);
    assert(valid_first_scalar(nd));
    assert(text.subrange(j, j + nd.len())[0] == nd[0]);
    is_char_boundary_iff_not_is_continuation_byte(text, j);
}

} // verus!
