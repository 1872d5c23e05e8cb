//! Byte-level reasoning about UTF-8 text.
//!
//! The engine addresses its input by byte offset, while patterns and matched
//! text are naturally sequences of characters. This module ties the two
//! together: it relates character prefixes to byte prefixes, shows that a
//! valid encoded prefix always ends on a character boundary, and provides the
//! executable prefix test used by literal matchers.

use vstd::prelude::*;
use vstd::string::StringSliceAdditionalSpecFns;
use vstd::utf8::decode_utf8;
use vstd::utf8::decode_utf8_encode_utf8;
use vstd::utf8::decode_utf8_split;
use vstd::utf8::encode_scalar;
use vstd::utf8::encode_utf8;
use vstd::utf8::encode_utf8_decode_utf8;
use vstd::utf8::encode_utf8_valid_utf8;
use vstd::utf8::is_char_boundary;
use vstd::utf8::is_char_boundary_iff_not_is_continuation_byte;
use vstd::utf8::is_char_boundary_start_end_of_seq;
use vstd::utf8::length_of_first_scalar;
use vstd::utf8::pop_first_scalar;
use vstd::utf8::valid_first_scalar;
use vstd::utf8::valid_utf8;
use vstd::utf8::valid_utf8_split;

verus! {

/// The characters of the input that remain at byte offset `pos`.
pub open spec fn suffix_chars(text: Seq<char>, pos: int) -> Seq<char> {
    decode_utf8(encode_utf8(text).subrange(pos, encode_utf8(text).len() as int))
}

/// The characters of the input between byte offsets `start` and `end`.
pub open spec fn slice_chars(text: Seq<char>, start: int, end: int) -> Seq<char> {
    decode_utf8(encode_utf8(text).subrange(start, end))
}

/// At a character boundary, the remaining characters encode to exactly the
/// remaining bytes, and they run out exactly at the end of the input.
pub proof fn lemma_suffix_bytes(text: Seq<char>, pos: int)
    requires
        0 <= pos <= encode_utf8(text).len(),
        is_char_boundary(encode_utf8(text), pos),
    ensures
        encode_utf8(suffix_chars(text, pos)) == encode_utf8(text).subrange(
            pos,
            encode_utf8(text).len() as int,
        ),
        (suffix_chars(text, pos).len() == 0) <==> (pos == encode_utf8(text).len()),
{
    let tb = encode_utf8(text);
    encode_utf8_valid_utf8(text);
    valid_utf8_split(tb, pos);
    let sub = tb.subrange(pos, tb.len() as int);
    decode_utf8_encode_utf8(sub);
    lemma_encode_utf8_len(decode_utf8(sub));
}

/// A string slice's character view is the decoding of its byte view.
pub proof fn lemma_view_is_decoded_bytes(s: &str)
    ensures
        s@ == decode_utf8(s.spec_bytes()),
        valid_utf8(s.spec_bytes()),
{
    encode_utf8_valid_utf8(s@);
    encode_utf8_decode_utf8(s@);
}

/// Encoding distributes over concatenation of character sequences.
pub proof fn lemma_encode_utf8_concat(a: Seq<char>, b: Seq<char>)
    ensures
        encode_utf8(a + b) == encode_utf8(a) + encode_utf8(b),
    decreases a.len(),
{
    if a.len() == 0 {
        assert(a + b =~= b);
        assert(encode_utf8(a) + encode_utf8(b) =~= encode_utf8(b));
    } else {
        assert((a + b).drop_first() =~= a.drop_first() + b);
        assert((a + b)[0] == a[0]);
        lemma_encode_utf8_concat(a.drop_first(), b);
        assert(encode_utf8(a + b) =~= encode_utf8(a) + encode_utf8(b));
    }
}

/// A character sequence is empty exactly when its encoding is, and the
/// encoding is never shorter than the sequence.
pub proof fn lemma_encode_utf8_len(chars: Seq<char>)
    ensures
        chars.len() <= encode_utf8(chars).len(),
        (encode_utf8(chars).len() == 0) <==> (chars.len() == 0),
    decreases chars.len(),
{
    if chars.len() > 0 {
        lemma_encode_utf8_len(chars.drop_first());
        assert(encode_scalar(chars[0] as u32).len() >= 1);
    }
}

/// A position whose preceding bytes form a valid encoding on their own is a
/// character boundary of the whole sequence.
pub proof fn lemma_valid_prefix_is_boundary(bytes: Seq<u8>, i: int)
    requires
        valid_utf8(bytes),
        0 <= i <= bytes.len(),
        valid_utf8(bytes.subrange(0, i)),
    ensures
        is_char_boundary(bytes, i),
    decreases bytes.len(),
{
    if i != 0 {
        let prefix = bytes.subrange(0, i);
        assert(valid_first_scalar(prefix));
        assert(valid_first_scalar(bytes));
        let k = length_of_first_scalar(bytes);
        assert(prefix[0] == bytes[0]);
        assert(length_of_first_scalar(prefix) == k);
        assert(1 <= k <= i);
        assert(pop_first_scalar(prefix) =~= pop_first_scalar(bytes).subrange(0, i - k));
        assert(valid_utf8(pop_first_scalar(prefix)));
        assert(valid_utf8(pop_first_scalar(bytes)));
        lemma_valid_prefix_is_boundary(pop_first_scalar(bytes), i - k);
    }
}

/// A character boundary of a suffix, shifted by the suffix's start, is a
/// character boundary of the whole sequence.
pub proof fn lemma_boundary_transfer(bytes: Seq<u8>, pos: int, i: int)
    requires
        valid_utf8(bytes),
        is_char_boundary(bytes, pos),
        0 <= pos <= bytes.len(),
        0 <= i <= bytes.len() - pos,
        is_char_boundary(bytes.subrange(pos, bytes.len() as int), i),
    ensures
        is_char_boundary(bytes, pos + i),
{
    let suffix = bytes.subrange(pos, bytes.len() as int);
    valid_utf8_split(bytes, pos);
    if pos + i == bytes.len() {
        is_char_boundary_start_end_of_seq(bytes);
    } else {
        is_char_boundary_iff_not_is_continuation_byte(suffix, i);
        is_char_boundary_iff_not_is_continuation_byte(bytes, pos + i);
        assert(suffix[i] == bytes[pos + i]);
    }
}

/// A character prefix encodes to a byte prefix.
pub proof fn lemma_char_prefix_to_bytes(p: Seq<char>, t: Seq<char>)
    requires
        p.len() <= t.len(),
        t.take(p.len() as int) == p,
    ensures
        encode_utf8(p).len() <= encode_utf8(t).len(),
        encode_utf8(t).take(encode_utf8(p).len() as int) == encode_utf8(p),
{
    let rest = t.skip(p.len() as int);
    assert(t =~= p + rest);
    lemma_encode_utf8_concat(p, rest);
    assert(encode_utf8(t).take(encode_utf8(p).len() as int) =~= encode_utf8(p));
}

/// A byte prefix that is itself a whole encoding decodes to a character
/// prefix.
pub proof fn lemma_byte_prefix_to_chars(p: Seq<char>, t: Seq<char>)
    requires
        encode_utf8(p).len() <= encode_utf8(t).len(),
        encode_utf8(t).take(encode_utf8(p).len() as int) == encode_utf8(p),
    ensures
        p.len() <= t.len(),
        t.take(p.len() as int) == p,
{
    let pb = encode_utf8(p);
    let tb = encode_utf8(t);
    encode_utf8_valid_utf8(p);
    encode_utf8_valid_utf8(t);
    assert(tb.subrange(0, pb.len() as int) == pb);
    lemma_valid_prefix_is_boundary(tb, pb.len() as int);
    decode_utf8_split(tb, pb.len() as int);
    encode_utf8_decode_utf8(p);
    encode_utf8_decode_utf8(t);
    lemma_encode_utf8_len(p);
    lemma_encode_utf8_len(t);
    assert(decode_utf8(tb.subrange(0, pb.len() as int)) == p);
    assert(t == p + decode_utf8(tb.subrange(pb.len() as int, tb.len() as int)));
    assert(t.take(p.len() as int) =~= p);
}

/// A byte mismatch inside the pattern's encoding rules out a character
/// prefix.
pub proof fn lemma_mismatch_not_prefix(p: Seq<char>, t: Seq<char>, i: int)
    requires
        0 <= i < encode_utf8(p).len(),
        i < encode_utf8(t).len(),
        encode_utf8(p)[i] != encode_utf8(t)[i],
    ensures
        !(p.len() <= t.len() && t.take(p.len() as int) == p),
{
    if p.len() <= t.len() && t.take(p.len() as int) == p {
        lemma_char_prefix_to_bytes(p, t);
        assert(encode_utf8(t).take(encode_utf8(p).len() as int)[i] == encode_utf8(p)[i]);
        assert(encode_utf8(t).take(encode_utf8(p).len() as int)[i] == encode_utf8(t)[i]);
        assert(false);
    }
}

/// Relies on `str::len`: the length of a string slice in bytes. Rust
/// guarantees that no allocation exceeds `isize::MAX` bytes, so the exact
/// length always fits the returned machine integer.
#[verifier::external_body]
pub fn str_byte_len(s: &str) -> (r: usize)
    ensures
        r as int == s.spec_bytes().len(),
{
    s.len()
}

/// Reports whether `text` begins with `pattern`, comparing the underlying
/// UTF-8 bytes.
pub fn is_str_prefix(pattern: &str, text: &str) -> (r: bool)
    ensures
        r == (pattern@.len() <= text@.len() && text@.take(pattern@.len() as int) == pattern@),
{
    let ghost p = pattern@;
    let ghost t = text@;
    let pb = pattern.as_bytes();
    let tb = text.as_bytes();
    if pb.len() > tb.len() {
        proof {
            if p.len() <= t.len() && t.take(p.len() as int) == p {
                lemma_char_prefix_to_bytes(p, t);
            }
        }
        return false;
    }
    let mut i: usize = 0;
    while i < pb.len()
        invariant
            p == pattern@,
            t == text@,
            i <= pb.len() <= tb.len(),
            pb@ == encode_utf8(p),
            tb@ == encode_utf8(t),
            forall|j: int| 0 <= j < i ==> pb@[j] == tb@[j],
        decreases pb.len() - i,
    {
        if pb[i] != tb[i] {
            proof {
                assert(encode_utf8(p)[i as int] != encode_utf8(t)[i as int]);
                lemma_mismatch_not_prefix(p, t, i as int);
            }
            return false;
        }
        i += 1;
    }
    proof {
        assert(encode_utf8(t).take(encode_utf8(p).len() as int) =~= encode_utf8(p));
        lemma_byte_prefix_to_chars(p, t);
    }
    true
}

} // verus!
