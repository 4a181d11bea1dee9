//! Conversions between bytes and strings, and slicing strings at bytes.
use vstd::prelude::*;
use vstd::string::StringSliceAdditionalSpecFns;
use vstd::utf8::*;

use crate::vlq::is_ascii_bytes;

verus! {

broadcast use {encode_utf8_valid_utf8, is_char_boundary_start_end_of_seq};

/// The characters of ASCII bytes, one per byte.
pub open spec fn ascii_chars(bytes: Seq<u8>) -> Seq<char> {
    bytes.map_values(|b: u8| b as char)
}

/// What `String::from_utf8_lossy` reads from bytes: the characters they
/// encode, each invalid sequence replaced by U+FFFD.
pub uninterp spec fn utf8_lossy(bytes: Seq<u8>) -> Seq<char>;

/// Calls `String::from_utf8_lossy` and takes the owned string.  Its
/// documentation promises, for valid UTF-8, the string that the bytes
/// encode; what it makes of invalid sequences is named (`utf8_lossy`), not
/// stated.
#[verifier::external_body]
pub(crate) fn string_from_utf8_lossy(bytes: &[u8]) -> (s: String)
    ensures
        s@ == utf8_lossy(bytes@),
        valid_utf8(bytes@) ==> s@ == decode_utf8(bytes@),
{
    String::from_utf8_lossy(bytes).into_owned()
}

/// The characters of ASCII bytes encode back to those bytes.
pub proof fn lemma_ascii_chars_encode(b: Seq<u8>)
    requires
        is_ascii_bytes(b),
    ensures
        encode_utf8(ascii_chars(b)) == b,
{
    let cs = ascii_chars(b);
    assert(is_ascii_chars(cs)) by {
        assert forall|i: int| 0 <= i < cs.len() implies '\0' <= #[trigger] cs[i] <= '\u{7f}' by {
            assert(b[i] < 128);
        }
    }
    is_ascii_chars_encode_utf8(cs);
    assert(encode_utf8(cs) =~= b);
}

/// The string of ASCII bytes, one character per byte.
pub(crate) fn string_from_ascii(bytes: &[u8]) -> (s: String)
    requires
        is_ascii_bytes(bytes@),
    ensures
        s@ == ascii_chars(bytes@),
{
    proof {
        lemma_ascii_chars_encode(bytes@);
        encode_utf8_decode_utf8(ascii_chars(bytes@));
    }
    string_from_utf8_lossy(bytes)
}

/// The byte after an ASCII byte starts a character (or is the end).
pub proof fn lemma_ascii_next_boundary(bytes: Seq<u8>, i: int)
    requires
        valid_utf8(bytes),
        0 <= i < bytes.len(),
        bytes[i] < 128,
    ensures
        is_char_boundary(bytes, i + 1),
    decreases bytes.len(),
{
    let l = length_of_first_scalar(bytes);
    if i < l {
        is_char_boundary_iff_not_is_continuation_byte(bytes, i);
        if i > 0 {
            reveal_with_fuel(is_char_boundary, 2);
            assert(false);
        }
        reveal_with_fuel(is_char_boundary, 2);
    } else {
        let p = pop_first_scalar(bytes);
        assert(p[i - l] == bytes[i]);
        lemma_ascii_next_boundary(p, i - l);
        reveal_with_fuel(is_char_boundary, 2);
    }
}

/// A boundary before `to` stays one in the prefix that ends at `to`.
pub proof fn lemma_prefix_boundary(bytes: Seq<u8>, from: int, to: int)
    requires
        valid_utf8(bytes),
        0 <= from <= to <= bytes.len(),
        is_char_boundary(bytes, from),
        is_char_boundary(bytes, to),
    ensures
        valid_utf8(bytes.subrange(0, to)),
        is_char_boundary(bytes.subrange(0, to), from),
{
    valid_utf8_split(bytes, to);
    let pre = bytes.subrange(0, to);
    if from < to {
        is_char_boundary_iff_not_is_continuation_byte(bytes, from);
        is_char_boundary_iff_not_is_continuation_byte(pre, from);
    } else {
        assert(pre.len() == to);
    }
}

/// The part of `s` between two byte positions that start characters.
pub fn str_slice(s: &str, from: usize, to: usize) -> (r: &str)
    requires
        from <= to <= s.spec_bytes().len(),
        is_char_boundary(s.spec_bytes(), from as int),
        is_char_boundary(s.spec_bytes(), to as int),
    ensures
        r.spec_bytes() == s.spec_bytes().subrange(from as int, to as int),
{
    proof {
        lemma_prefix_boundary(s.spec_bytes(), from as int, to as int);
    }
    let (head, _) = s.split_at(to);
    let (_, r) = head.split_at(from);
    assert(r.spec_bytes() =~= s.spec_bytes().subrange(from as int, to as int));
    r
}

} // verus!
