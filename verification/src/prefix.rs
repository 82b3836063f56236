//! Searching a text for a byte, for a string, and for the first of several
//! strings.

use vstd::prelude::*;
use vstd::string::*;
use vstd::utf8::encode_utf8;

verus! {

/// `needle` stands in `haystack` at offset `i`.
pub open spec fn occurs_at(needle: Seq<u8>, haystack: Seq<u8>, i: int) -> bool {
    &&& 0 <= i
    &&& i + needle.len() <= haystack.len()
    &&& haystack.subrange(i, i + needle.len()) == needle
}

/// Some needle that is not empty stands in `haystack` at offset `i`.
#[verifier::opaque]
pub open spec fn any_occurs_at(needles: Seq<String>, haystack: Seq<u8>, i: int) -> bool {
    exists|k: int|
        0 <= k < needles.len() && needles[k]@.len() > 0 && #[trigger] occurs_at(
            encode_utf8(needles[k]@),
            haystack,
            i,
        )
}

/// `i` is the first offset in `haystack` that holds the byte `b`.
pub open spec fn first_byte_at(b: u8, haystack: Seq<u8>, i: int) -> bool {
    &&& 0 <= i < haystack.len()
    &&& haystack[i] == b
    &&& forall|j: int| 0 <= j < i ==> haystack[j] != b
}

/// The first offset at or after `from` that holds `b`.
fn memchr_from(b: u8, haystack: &[u8], from: usize) -> (r: Option<usize>)
    requires
        from <= haystack@.len(),
    ensures
        match r {
            Some(i) => from <= i < haystack@.len() && haystack@[i as int] == b && forall|j: int|
                from <= j < i ==> haystack@[j] != b,
            None => forall|j: int| from <= j < haystack@.len() ==> haystack@[j] != b,
        },
{
    let mut i: usize = from;
    while i < haystack.len()
        invariant
            from <= i <= haystack@.len(),
            forall|j: int| from <= j < i ==> haystack@[j] != b,
        decreases haystack@.len() - i,
    {
        if haystack[i] == b {
            return Some(i);
        }
        i += 1;
    }
    None
}

/// The first offset in `haystack` that holds the byte `needle`.
pub fn memchr(needle: u8, haystack: &[u8]) -> (r: Option<usize>)
    ensures
        match r {
            Some(i) => first_byte_at(needle, haystack@, i as int),
            None => !haystack@.contains(needle),
        },
{
    memchr_from(needle, haystack, 0)
}

/// Whether `needle` stands in `haystack` at offset `at`.
fn window_eq(needle: &[u8], haystack: &[u8], at: usize) -> (r: bool)
    requires
        at + needle@.len() <= haystack@.len(),
    ensures
        r == occurs_at(needle@, haystack@, at as int),
{
    let n = needle.len();
    let hlen = haystack.len();
    let mut k: usize = 0;
    while k < n
        invariant
            n == needle@.len(),
            hlen == haystack@.len(),
            at + n <= hlen,
            k <= n,
            forall|j: int| 0 <= j < k ==> haystack@[at + j] == needle@[j],
        decreases n - k,
    {
        if haystack[at + k] != needle[k] {
            proof {
                let w = haystack@.subrange(at as int, at + n);
                assert(w[k as int] != needle@[k as int]);
            }
            return false;
        }
        k += 1;
    }
    assert(haystack@.subrange(at as int, at + n) =~= needle@);
    true
}

/// The first offset at which `needle` stands in `haystack`. An empty needle
/// is never found.
pub fn find_one(needle: &[u8], haystack: &[u8]) -> (r: Option<usize>)
    ensures
        match r {
            Some(i) => {
                &&& needle@.len() > 0
                &&& occurs_at(needle@, haystack@, i as int)
                &&& forall|j: int| 0 <= j < i ==> !occurs_at(needle@, haystack@, j)
            },
            None => needle@.len() == 0 || forall|j: int| !occurs_at(needle@, haystack@, j),
        },
{
    let hlen = haystack.len();
    let nlen = needle.len();
    if nlen > hlen || nlen == 0 {
        return None;
    } else if nlen == 1 {
        let r = memchr(needle[0], haystack);
        proof {
            assert forall|j: int| 0 <= j < hlen implies (occurs_at(needle@, haystack@, j)
                <==> haystack@[j] == needle@[0]) by {
                let w = haystack@.subrange(j, j + 1);
                if haystack@[j] == needle@[0] {
                    assert(w =~= needle@);
                } else {
                    assert(w[0] != needle@[0]);
                }
            }
        }
        return r;
    } else if nlen == hlen {
        return if window_eq(needle, haystack, 0) {
            Some(0)
        } else {
            None
        };
    }
    let mut cur: usize = 0;
    loop
        invariant
            hlen == haystack@.len(),
            nlen == needle@.len(),
            1 < nlen < hlen,
            cur <= hlen,
            forall|j: int| 0 <= j < cur ==> !occurs_at(needle@, haystack@, j),
        decreases hlen - cur,
    {
        match memchr_from(needle[0], haystack, cur) {
            None => {
                proof {
                    assert forall|j: int| !occurs_at(needle@, haystack@, j) by {
                        if occurs_at(needle@, haystack@, j) {
                            assert(haystack@.subrange(j, j + nlen)[0] == needle@[0]);
                        }
                    }
                }
                return None;
            },
            Some(i) => {
                proof {
                    assert forall|j: int| cur <= j < i implies !occurs_at(
                        needle@,
                        haystack@,
                        j,
                    ) by {
                        if occurs_at(needle@, haystack@, j) {
                            assert(haystack@.subrange(j, j + nlen)[0] == needle@[0]);
                        }
                    }
                }
                cur = i;
                if nlen > hlen - cur {
                    return None;
                }
                if window_eq(needle, haystack, cur) {
                    return Some(cur);
                }
                cur += 1;
            },
        }
    }
}

/// The first offset at which a needle that is not empty stands in
/// `haystack`.
pub fn find_any(needles: &[String], haystack: &[u8]) -> (r: Option<usize>)
    ensures
        match r {
            Some(i) => {
                &&& any_occurs_at(needles@, haystack@, i as int)
                &&& forall|j: int| 0 <= j < i ==> !any_occurs_at(needles@, haystack@, j)
            },
            None => forall|j: int| !any_occurs_at(needles@, haystack@, j),
        },
{
    reveal(any_occurs_at);
    let hlen = haystack.len();
    let mut hi: usize = 0;
    while hi < hlen
        invariant
            hlen == haystack@.len(),
            hi <= hlen,
            forall|j: int| 0 <= j < hi ==> !any_occurs_at(needles@, haystack@, j),
        decreases hlen - hi,
    {
        let mut k: usize = 0;
        while k < needles.len()
            invariant
                hlen == haystack@.len(),
                hi < hlen,
                k <= needles@.len(),
                forall|j: int| 0 <= j < hi ==> !any_occurs_at(needles@, haystack@, j),
                forall|m: int|
                    0 <= m < k ==> !(needles@[m]@.len() > 0 && #[trigger] occurs_at(
                        encode_utf8(needles@[m]@),
                        haystack@,
                        hi as int,
                    )),
            decreases needles@.len() - k,
        {
            let needle = needles[k].as_str().as_bytes();
            proof {
                lemma_bytes_empty(needles@[k as int]@);
            }
            if needle.len() > 0 && needle.len() <= hlen - hi && window_eq(needle, haystack, hi) {
                proof {
                    reveal(any_occurs_at);
                    assert(occurs_at(encode_utf8(needles@[k as int]@), haystack@, hi as int));
                }
                return Some(hi);
            }
            k += 1;
        }
        proof {
            reveal(any_occurs_at);
        }
        hi += 1;
    }
    proof {
        reveal(any_occurs_at);
        assert forall|j: int| !any_occurs_at(needles@, haystack@, j) by {
            if any_occurs_at(needles@, haystack@, j) {
                let k = choose|k: int|
                    0 <= k < needles@.len() && needles@[k]@.len() > 0 && #[trigger] occurs_at(
                        encode_utf8(needles@[k]@),
                        haystack@,
                        j,
                    );
                lemma_bytes_empty(needles@[k]@);
            }
        }
    }
    None
}

/// A string has no bytes exactly when it has no characters.
pub proof fn lemma_bytes_empty(s: Seq<char>)
    ensures
        encode_utf8(s).len() == 0 <==> s.len() == 0,
{
    if s.len() > 0 {
        vstd::utf8::char_is_scalar(s[0]);
    }
}

} // verus!
