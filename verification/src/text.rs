//! Verified text scans used to recognize generated item names.
//!
//! All scans work on the UTF-8 bytes of the strings; since UTF-8 is
//! self-synchronizing, a byte-level substring, prefix, or suffix match
//! coincides with the character-level one.

use vstd::prelude::*;
use vstd::string::StringSliceAdditionalSpecFns;
use vstd::utf8::{decode_utf8, encode_utf8, is_char_boundary, is_continuation_byte, valid_utf8};

verus! {

/// `needle` occurs contiguously in `hay` starting at position `i`.
pub open spec fn occurs_at(hay: Seq<u8>, needle: Seq<u8>, i: int) -> bool {
    0 <= i && i + needle.len() <= hay.len() && hay.subrange(i, i + needle.len() as int) == needle
}

/// `needle` occurs contiguously somewhere in `hay`.
pub open spec fn contains_bytes(hay: Seq<u8>, needle: Seq<u8>) -> bool {
    exists|i: int| occurs_at(hay, needle, i)
}

/// `needle` is a suffix of `hay`.
pub open spec fn ends_with_bytes(hay: Seq<u8>, needle: Seq<u8>) -> bool {
    occurs_at(hay, needle, hay.len() - needle.len())
}

/// `needle` is a prefix of `hay`.
pub open spec fn starts_with_bytes(hay: Seq<u8>, needle: Seq<u8>) -> bool {
    occurs_at(hay, needle, 0)
}

/// Compares the byte ranges `hay[i..i+len]` and `needle[0..len]`.
fn match_at(hay: &[u8], needle: &[u8], i: usize) -> (r: bool)
    requires
        i + needle@.len() <= hay@.len(),
    ensures
        r == occurs_at(hay@, needle@, i as int),
{
    let hl = hay.len();
    let mut k: usize = 0;
    while k < needle.len()
        invariant
            i + needle@.len() <= hay@.len(),
            hl == hay@.len(),
            k <= needle@.len(),
            forall|q: int| 0 <= q < k ==> hay@[i + q] == needle@[q],
        decreases needle@.len() - k,
    {
        if hay[i + k] != needle[k] {
            proof {
                assert(hay@.subrange(i as int, i + needle@.len() as int)[k as int] != needle@[
                    k as int]);
            }
            return false;
        }
        k = k + 1;
    }
    proof {
        assert(hay@.subrange(i as int, i + needle@.len() as int) =~= needle@);
    }
    true
}

/// Returns whether `needle` occurs in `hay`, comparing UTF-8 bytes.
pub fn str_contains(hay: &str, needle: &str) -> (r: bool)
    ensures
        r == contains_bytes(hay.spec_bytes(), needle.spec_bytes()),
{
    let h = hay.as_bytes();
    let n = needle.as_bytes();
    if n.len() > h.len() {
        proof {
            assert forall|i: int| !occurs_at(h@, n@, i) by {}
        }
        return false;
    }
    let hl = h.len();
    let nl = n.len();
    if nl == 0 {
        proof {
            assert(h@.subrange(0, 0) =~= n@);
            assert(occurs_at(h@, n@, 0));
        }
        return true;
    }
    let mut i: usize = 0;
    while i <= hl - nl
        invariant
            h@ == hay.spec_bytes(),
            n@ == needle.spec_bytes(),
            hl == h@.len(),
            nl == n@.len(),
            0 < nl <= hl,
            i <= hl - nl + 1,
            forall|q: int| 0 <= q < i ==> !occurs_at(h@, n@, q),
        decreases h@.len() - n@.len() + 1 - i,
    {
        if match_at(h, n, i) {
            return true;
        }
        i = i + 1;
    }
    proof {
        if contains_bytes(h@, n@) {
            let q = choose|q: int| occurs_at(h@, n@, q);
            assert(q < i);
        }
    }
    false
}

/// Returns whether `hay` ends with `needle`, comparing UTF-8 bytes.
pub fn str_ends_with(hay: &str, needle: &str) -> (r: bool)
    ensures
        r == ends_with_bytes(hay.spec_bytes(), needle.spec_bytes()),
{
    let h = hay.as_bytes();
    let n = needle.as_bytes();
    if n.len() > h.len() {
        return false;
    }
    match_at(h, n, h.len() - n.len())
}

/// Returns whether `hay` starts with `needle`, comparing UTF-8 bytes.
pub fn str_starts_with(hay: &str, needle: &str) -> (r: bool)
    ensures
        r == starts_with_bytes(hay.spec_bytes(), needle.spec_bytes()),
{
    let h = hay.as_bytes();
    let n = needle.as_bytes();
    if n.len() > h.len() {
        return false;
    }
    match_at(h, n, 0)
}

/// Returns whether the two strings are equal.
pub fn str_eq(a: &str, b: &str) -> (r: bool)
    ensures
        r == (a@ == b@),
{
    let ab = a.as_bytes();
    let bb = b.as_bytes();
    if ab.len() != bb.len() {
        proof {
            vstd::utf8::encode_utf8_decode_utf8(a@);
            vstd::utf8::encode_utf8_decode_utf8(b@);
        }
        return false;
    }
    let r = match_at(ab, bb, 0);
    proof {
        vstd::utf8::encode_utf8_decode_utf8(a@);
        vstd::utf8::encode_utf8_decode_utf8(b@);
        if r {
            assert(ab@.subrange(0, bb@.len() as int) =~= ab@);
            assert(a.spec_bytes() == b.spec_bytes());
            assert(a@ == decode_utf8(encode_utf8(a@)));
            assert(b@ == decode_utf8(encode_utf8(b@)));
        } else {
            if a@ == b@ {
                assert(a.spec_bytes() == b.spec_bytes());
                assert(ab@.subrange(0, bb@.len() as int) =~= ab@);
            }
        }
    }
    r
}

/// The byte position just after the last `sep` byte, or zero when the
/// byte does not occur.
pub open spec fn after_last_byte(b: Seq<u8>, sep: u8) -> int {
    if (exists|i: int| 0 <= i < b.len() && b[i] == sep) {
        (choose|i: int|
            0 <= i < b.len() && b[i] == sep && (forall|j: int| i < j < b.len() ==> b[j] != sep))
            + 1
    } else {
        0
    }
}

/// The final path segment of `s`: its characters after the last `:`,
/// the whole string when it has none.
pub open spec fn last_segment_of(s: Seq<char>) -> Seq<char> {
    let b = encode_utf8(s);
    decode_utf8(b.subrange(after_last_byte(b, 58u8), b.len() as int))
}

/// Returns the final path segment of `s`: everything after its last
/// `:`, the whole string when it has none.
pub fn last_path_segment(s: &str) -> (r: String)
    ensures
        r@ == last_segment_of(s@),
{
    let bytes = s.as_bytes();
    proof {
        vstd::utf8::encode_utf8_valid_utf8(s@);
    }
    let mut cut: usize = 0;
    let mut found = false;
    let mut i: usize = 0;
    while i < bytes.len()
        invariant
            bytes@ == s.spec_bytes(),
            i <= bytes@.len(),
            !found ==> cut == 0 && (forall|j: int| 0 <= j < i ==> bytes@[j] != 58u8),
            found ==> 0 < cut <= i && bytes@[cut - 1] == 58u8 && (forall|j: int|
                cut <= j < i ==> bytes@[j] != 58u8),
        decreases bytes@.len() - i,
    {
        if bytes[i] == 58u8 {
            cut = i + 1;
            found = true;
        }
        i = i + 1;
    }
    proof {
        assert(cut as int == after_last_byte(bytes@, 58u8)) by {
            if found {
                assert(0 <= cut - 1 < bytes@.len() && bytes@[cut - 1] == 58u8 && (forall|j: int|
                    cut - 1 < j < bytes@.len() ==> bytes@[j] != 58u8));
                let w = choose|w: int|
                    0 <= w < bytes@.len() && bytes@[w] == 58u8 && (forall|j: int|
                        w < j < bytes@.len() ==> bytes@[j] != 58u8);
                assert(w == cut - 1) by {
                    if w < cut - 1 {
                        assert(bytes@[cut - 1] != 58u8);
                    }
                    if w > cut - 1 {
                        assert(bytes@[w] != 58u8);
                    }
                }
            } else {
                if exists|w: int| 0 <= w < bytes@.len() && bytes@[w] == 58u8 {
                    let w = choose|w: int| 0 <= w < bytes@.len() && bytes@[w] == 58u8;
                    assert(bytes@[w] != 58u8);
                }
            }
        }
        lemma_boundary_after_ascii(bytes@, cut as int);
    }
    let pieces = s.split_at(cut);
    let r = pieces.1.to_owned();
    proof {
        assert(pieces.1.spec_bytes() =~= bytes@.subrange(cut as int, bytes@.len() as int));
        vstd::utf8::encode_utf8_decode_utf8(pieces.1@);
        assert(pieces.1@ == decode_utf8(encode_utf8(pieces.1@)));
    }
    r
}

/// In valid UTF-8, the position after an ASCII byte (and position
/// zero) is a character boundary.
proof fn lemma_boundary_after_ascii(b: Seq<u8>, cut: int)
    requires
        valid_utf8(b),
        cut == 0 || (0 < cut <= b.len() && b[cut - 1] < 128),
    ensures
        is_char_boundary(b, cut),
{
    broadcast use vstd::utf8::is_char_boundary_start_end_of_seq;
    broadcast use vstd::utf8::is_char_boundary_iff_not_is_continuation_byte;

    if cut == 0 {
        assert(is_char_boundary(b, 0));
    } else if cut == b.len() {
        assert(is_char_boundary(b, b.len() as int));
    } else {
        // the byte before `cut` is ASCII, so it forms a one-byte scalar
        // and the next byte starts a new one
        assert(is_char_boundary(b, cut - 1)) by {
            assert(!is_continuation_byte(b[cut - 1]));
        }
        lemma_ascii_scalar_next_boundary(b, cut - 1);
    }
}

/// In valid UTF-8, an ASCII byte at a boundary is a one-byte scalar,
/// so the next position is a boundary too.
proof fn lemma_ascii_scalar_next_boundary(b: Seq<u8>, p: int)
    requires
        valid_utf8(b),
        0 <= p < b.len(),
        b[p] < 128,
        is_char_boundary(b, p),
    ensures
        is_char_boundary(b, p + 1),
    decreases b.len(),
{
    broadcast use vstd::utf8::is_char_boundary_start_end_of_seq;

    reveal_with_fuel(vstd::utf8::is_char_boundary, 2);
    reveal_with_fuel(vstd::utf8::valid_utf8, 2);
    if p == 0 {
        assert(vstd::utf8::length_of_first_scalar(b) == 1);
    } else {
        let l = vstd::utf8::length_of_first_scalar(b);
        assert(p >= l);
        lemma_ascii_scalar_next_boundary(vstd::utf8::pop_first_scalar(b), p - l);
    }
}

/// The first position at which `needle` occurs in `hay`, if any.
pub open spec fn first_occurrence_from(hay: Seq<u8>, needle: Seq<u8>, i: int) -> Option<int>
    decreases (if hay.len() + 1 - i >= 0 { hay.len() + 1 - i } else { 0 }),
{
    if i < 0 || i + needle.len() > hay.len() {
        None
    } else if occurs_at(hay, needle, i) {
        Some(i)
    } else {
        first_occurrence_from(hay, needle, i + 1)
    }
}

/// The first position at which `needle` occurs in `hay`, if any.
pub open spec fn first_occurrence(hay: Seq<u8>, needle: Seq<u8>) -> Option<int> {
    first_occurrence_from(hay, needle, 0)
}

/// The capture of an angle-bracketed subject: the text between a
/// leading `<` and the first occurrence of `marker`, when the string
/// starts with `<`, the marker occurs after at least one captured
/// byte, and the capture is non-empty.
pub open spec fn angle_capture(s: Seq<char>, marker: Seq<char>) -> Option<Seq<u8>> {
    let b = encode_utf8(s);
    let mb = encode_utf8(marker);
    match first_occurrence(b, mb) {
        Some(i) => if b.len() > 0 && b[0] == 60 && i > 1 {
            Some(b.subrange(1, i))
        } else {
            None
        },
        None => None,
    }
}

/// Extracts the subject between a leading `<` and the first
/// occurrence of `marker`; the result's bytes are exactly the
/// captured range.
///
/// This is narrower than a general whitespace-tolerant pattern: the
/// `<` must be the very first character and the marker is matched
/// byte for byte.  Compiler-generated trait-projection names are of
/// exactly this shape, with a single space before `as`.
pub fn capture_angle_subject(s: &str, marker: &str) -> (r: Option<String>)
    requires
        marker@.len() > 0,
        !is_continuation_byte(marker.spec_bytes()[0]),
    ensures
        r is Some <==> angle_capture(s@, marker@) is Some,
        r is Some ==> encode_utf8((r->Some_0)@) == angle_capture(s@, marker@)->Some_0,
{
    let b = s.as_bytes();
    let mb = marker.as_bytes();
    proof {
        vstd::utf8::encode_utf8_valid_utf8(s@);
        assert(mb@.len() > 0);
    }
    let hl = b.len();
    let nl = mb.len();
    if nl > hl {
        proof {
            lemma_first_occurrence_none(b@, mb@, 0);
        }
        return None;
    }
    let mut i: usize = 0;
    let mut found: Option<usize> = None;
    loop
        invariant_except_break
            b@ == s.spec_bytes(),
            mb@ == marker.spec_bytes(),
            hl == b@.len(),
            nl == mb@.len(),
            0 < nl <= hl,
            i <= hl - nl + 1,
            found is None,
            forall|q: int| 0 <= q < i ==> !occurs_at(b@, mb@, q),
        ensures
            match found {
                Some(f) => first_occurrence(b@, mb@) == Some(f as int),
                None => first_occurrence(b@, mb@) is None,
            },
            b@ == s.spec_bytes(),
            mb@ == marker.spec_bytes(),
        decreases hl - nl + 1 - i,
    {
        if i > hl - nl {
            proof {
                assert forall|q: int| 0 <= q implies !occurs_at(b@, mb@, q) by {
                    if q >= i {
                        assert(q + mb@.len() > b@.len());
                    }
                }
                lemma_first_occurrence_none_all(b@, mb@);
            }
            break ;
        }
        if match_at(b, mb, i) {
            found = Some(i);
            proof {
                lemma_first_occurrence_found(b@, mb@, i as int);
            }
            break ;
        }
        i = i + 1;
    }
    match found {
        Some(f) => {
            if f > 1 && b.len() > 0 && b[0] == 60u8 {
                proof {
                    lemma_boundary_after_ascii(b@, 1);
                    assert(occurs_at(b@, mb@, f as int)) by {
                        lemma_first_occurrence_occurs(b@, mb@, f as int);
                    }
                    assert(b@[f as int] == mb@[0]) by {
                        assert(b@.subrange(f as int, f + mb@.len() as int)[0] == mb@[0]);
                    }
                    broadcast use vstd::utf8::is_char_boundary_iff_not_is_continuation_byte;

                    assert(is_char_boundary(b@, f as int));
                }
                let pieces = s.split_at(1);
                let rest = pieces.1;
                proof {
                    assert(rest.spec_bytes() =~= b@.subrange(1, b@.len() as int));
                    vstd::utf8::encode_utf8_valid_utf8(rest@);
                    assert(rest.spec_bytes()[f - 1] == b@[f as int]);
                    broadcast use vstd::utf8::is_char_boundary_iff_not_is_continuation_byte;

                    assert(is_char_boundary(rest.spec_bytes(), f - 1));
                }
                let pieces2 = rest.split_at(f - 1);
                let cap = pieces2.0.to_owned();
                proof {
                    assert(encode_utf8(cap@) =~= b@.subrange(1, f as int)) by {
                        assert(pieces2.0.spec_bytes() =~= rest.spec_bytes().subrange(0, f - 1));
                        assert(cap@ == pieces2.0@);
                    }
                }
                Some(cap)
            } else {
                None
            }
        },
        None => None,
    }
}

proof fn lemma_first_occurrence_occurs(hay: Seq<u8>, needle: Seq<u8>, f: int)
    requires
        first_occurrence(hay, needle) == Some(f),
    ensures
        occurs_at(hay, needle, f),
    decreases hay.len(),
{
    lemma_first_occurrence_occurs_from(hay, needle, 0, f);
}

proof fn lemma_first_occurrence_occurs_from(hay: Seq<u8>, needle: Seq<u8>, i: int, f: int)
    requires
        first_occurrence_from(hay, needle, i) == Some(f),
        i >= 0,
    ensures
        occurs_at(hay, needle, f),
    decreases (if hay.len() + 1 - i >= 0 { hay.len() + 1 - i } else { 0 }),
{
    if i + needle.len() <= hay.len() {
        if !occurs_at(hay, needle, i) {
            lemma_first_occurrence_occurs_from(hay, needle, i + 1, f);
        }
    }
}

proof fn lemma_first_occurrence_found(hay: Seq<u8>, needle: Seq<u8>, f: int)
    requires
        0 <= f,
        occurs_at(hay, needle, f),
        forall|q: int| 0 <= q < f ==> !occurs_at(hay, needle, q),
    ensures
        first_occurrence(hay, needle) == Some(f),
{
    lemma_first_occurrence_found_from(hay, needle, 0, f);
}

proof fn lemma_first_occurrence_found_from(hay: Seq<u8>, needle: Seq<u8>, i: int, f: int)
    requires
        0 <= i <= f,
        occurs_at(hay, needle, f),
        forall|q: int| i <= q < f ==> !occurs_at(hay, needle, q),
    ensures
        first_occurrence_from(hay, needle, i) == Some(f),
    decreases f - i,
{
    if i < f {
        lemma_first_occurrence_found_from(hay, needle, i + 1, f);
    }
}

proof fn lemma_first_occurrence_none(hay: Seq<u8>, needle: Seq<u8>, i: int)
    requires
        i >= 0,
        needle.len() > hay.len(),
    ensures
        first_occurrence_from(hay, needle, i) is None,
{
}

proof fn lemma_first_occurrence_none_all(hay: Seq<u8>, needle: Seq<u8>)
    requires
        forall|q: int| 0 <= q ==> !occurs_at(hay, needle, q),
    ensures
        first_occurrence(hay, needle) is None,
{
    lemma_first_occurrence_none_all_from(hay, needle, 0);
}

proof fn lemma_first_occurrence_none_all_from(hay: Seq<u8>, needle: Seq<u8>, i: int)
    requires
        i >= 0,
        forall|q: int| 0 <= q ==> !occurs_at(hay, needle, q),
    ensures
        first_occurrence_from(hay, needle, i) is None,
    decreases (if hay.len() + 1 - i >= 0 { hay.len() + 1 - i } else { 0 }),
{
    if i + needle.len() <= hay.len() {
        lemma_first_occurrence_none_all_from(hay, needle, i + 1);
    }
}

} // verus!
