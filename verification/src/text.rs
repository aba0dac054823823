//! Texts as UTF-8 byte sequences: slicing at byte offsets and joining pieces.

use vstd::prelude::*;
use vstd::string::*;
use vstd::utf8::*;

verus! {

/// The UTF-8 encoding of two texts joined is the two encodings joined.
pub proof fn lemma_encode_concat(a: Seq<char>, b: Seq<char>)
    ensures
        encode_utf8(a + b) == encode_utf8(a) + encode_utf8(b),
    decreases a.len(),
{
    if a.len() == 0 {
        assert(a + b =~= b);
        assert(encode_utf8(a) + encode_utf8(b) =~= encode_utf8(b));
    } else {
        assert((a + b).drop_first() =~= a.drop_first() + b);
        lemma_encode_concat(a.drop_first(), b);
        assert(encode_utf8(a + b) =~= encode_utf8(a) + encode_utf8(b));
    }
}

/// A boundary of a text is a boundary of each prefix that reaches it.
pub proof fn lemma_boundary_in_prefix(bytes: Seq<u8>, start: int, end: int)
    requires
        valid_utf8(bytes),
        0 <= start <= end <= bytes.len(),
        is_char_boundary(bytes, start),
        is_char_boundary(bytes, end),
    ensures
        valid_utf8(bytes.subrange(0, end)),
        is_char_boundary(bytes.subrange(0, end), start),
{
    valid_utf8_split(bytes, end);
    let head = bytes.subrange(0, end);
    if start == end {
        is_char_boundary_start_end_of_seq(head);
    } else {
        is_char_boundary_iff_not_is_continuation_byte(bytes, start);
        is_char_boundary_iff_not_is_continuation_byte(head, start);
    }
}

/// The bytes between two boundaries of a text are themselves a text.
pub proof fn lemma_slice_valid(bytes: Seq<u8>, start: int, end: int)
    requires
        valid_utf8(bytes),
        0 <= start <= end <= bytes.len(),
        is_char_boundary(bytes, start),
        is_char_boundary(bytes, end),
    ensures
        valid_utf8(bytes.subrange(start, end)),
        encode_utf8(decode_utf8(bytes.subrange(start, end))) == bytes.subrange(start, end),
{
    lemma_boundary_in_prefix(bytes, start, end);
    let head = bytes.subrange(0, end);
    valid_utf8_split(head, start);
    assert(head.subrange(start, head.len() as int) =~= bytes.subrange(start, end));
    decode_utf8_encode_utf8(bytes.subrange(start, end));
}

/// The offset of an ASCII byte is a character boundary.
pub proof fn lemma_ascii_is_boundary(bytes: Seq<u8>, index: int)
    requires
        valid_utf8(bytes),
        0 <= index < bytes.len(),
        bytes[index] < 0x80,
    ensures
        is_char_boundary(bytes, index),
{
    is_char_boundary_iff_not_is_continuation_byte(bytes, index);
}

/// A character starts behind an ASCII byte.
pub proof fn lemma_boundary_after_ascii(bytes: Seq<u8>, index: int)
    requires
        valid_utf8(bytes),
        0 <= index < bytes.len(),
        bytes[index] < 0x80,
    ensures
        is_char_boundary(bytes, index),
        is_char_boundary(bytes, index + 1),
{
    lemma_ascii_is_boundary(bytes, index);
    let head = bytes.subrange(0, index);
    let tail = bytes.subrange(index, bytes.len() as int);
    valid_utf8_split(bytes, index);
    assert(tail[0] == bytes[index]);
    assert(is_char_boundary(tail, 1)) by {
        reveal_with_fuel(is_char_boundary, 2);
        reveal_with_fuel(valid_utf8, 2);
    }
    lemma_boundary_right(head, tail, 1);
    assert(head + tail =~= bytes);
}

/// Where two texts are joined, a character starts.
pub proof fn lemma_boundary_of_join(x: Seq<u8>, y: Seq<u8>)
    requires
        valid_utf8(x),
        valid_utf8(y),
    ensures
        valid_utf8(x + y),
        is_char_boundary(x + y, x.len() as int),
{
    valid_utf8_concat(x, y);
    if y.len() == 0 {
        assert(x + y =~= x);
        is_char_boundary_start_end_of_seq(x);
    } else {
        is_char_boundary_start_end_of_seq(y);
        is_char_boundary_iff_not_is_continuation_byte(y, 0);
        is_char_boundary_iff_not_is_continuation_byte(x + y, x.len() as int);
    }
}

/// Two texts joined decode to the two texts.
pub proof fn lemma_decode_concat(x: Seq<u8>, y: Seq<u8>)
    requires
        valid_utf8(x),
        valid_utf8(y),
    ensures
        decode_utf8(x + y) == decode_utf8(x) + decode_utf8(y),
{
    lemma_boundary_of_join(x, y);
    decode_utf8_split(x + y, x.len() as int);
    assert((x + y).subrange(0, x.len() as int) =~= x);
    assert((x + y).subrange(x.len() as int, (x + y).len() as int) =~= y);
}

/// A boundary of a text stays one when more text follows.
pub proof fn lemma_boundary_left(x: Seq<u8>, y: Seq<u8>, index: int)
    requires
        valid_utf8(x),
        valid_utf8(y),
        0 <= index <= x.len(),
        is_char_boundary(x, index),
    ensures
        is_char_boundary(x + y, index),
{
    lemma_boundary_of_join(x, y);
    if index < x.len() {
        is_char_boundary_iff_not_is_continuation_byte(x, index);
        is_char_boundary_iff_not_is_continuation_byte(x + y, index);
    }
}

/// A boundary of a text stays one, moved along, when text is put before it.
pub proof fn lemma_boundary_right(x: Seq<u8>, y: Seq<u8>, index: int)
    requires
        valid_utf8(x),
        valid_utf8(y),
        0 <= index <= y.len(),
        is_char_boundary(y, index),
    ensures
        is_char_boundary(x + y, x.len() + index),
{
    lemma_boundary_of_join(x, y);
    if index == y.len() {
        is_char_boundary_start_end_of_seq(x + y);
    } else {
        is_char_boundary_iff_not_is_continuation_byte(y, index);
        is_char_boundary_iff_not_is_continuation_byte(x + y, x.len() + index);
    }
}

/// A boundary of one text is a boundary of another that starts with the same
/// bytes, as far as the common part reaches.
pub proof fn lemma_boundary_transfer(from: Seq<u8>, to: Seq<u8>, common: int, index: int)
    requires
        valid_utf8(from),
        valid_utf8(to),
        0 <= index <= common,
        common <= from.len(),
        common <= to.len(),
        from.subrange(0, common) == to.subrange(0, common),
        is_char_boundary(from, index),
        is_char_boundary(to, common),
    ensures
        is_char_boundary(to, index),
{
    if index < common {
        assert(from.subrange(0, common)[index] == from[index]);
        assert(to.subrange(0, common)[index] == to[index]);
        is_char_boundary_iff_not_is_continuation_byte(from, index);
        is_char_boundary_iff_not_is_continuation_byte(to, index);
    }
}

/// Within a span that holds the encoding of `inner`, a character starts
/// after every prefix of `inner`.
pub proof fn lemma_boundary_after_prefix(
    bytes: Seq<u8>,
    start: int,
    end: int,
    inner: Seq<char>,
    keep: int,
)
    requires
        valid_utf8(bytes),
        0 <= start <= end <= bytes.len(),
        is_char_boundary(bytes, start),
        is_char_boundary(bytes, end),
        bytes.subrange(start, end) == encode_utf8(inner),
        0 <= keep <= inner.len(),
    ensures
        start + encode_utf8(inner.subrange(0, keep)).len() <= end,
        is_char_boundary(bytes, start + encode_utf8(inner.subrange(0, keep)).len()),
        bytes.subrange(start, start + encode_utf8(inner.subrange(0, keep)).len())
            == encode_utf8(inner.subrange(0, keep)),
{
    let kept = inner.subrange(0, keep);
    let rest = inner.subrange(keep, inner.len() as int);
    assert(inner =~= kept + rest);
    lemma_encode_concat(kept, rest);
    encode_utf8_valid_utf8(kept);
    encode_utf8_valid_utf8(rest);
    let p = encode_utf8(kept);
    let r = encode_utf8(rest);
    let span = bytes.subrange(start, end);
    assert(span.len() == p.len() + r.len());
    lemma_boundary_of_join(p, r);
    let head = bytes.subrange(0, start);
    let tail = bytes.subrange(end, bytes.len() as int);
    valid_utf8_split(bytes, start);
    valid_utf8_split(bytes, end);
    lemma_boundary_right(head, span, p.len() as int);
    valid_utf8_concat(head, span);
    lemma_boundary_left(head + span, tail, start + p.len());
    assert(head + span + tail =~= bytes);
    assert(bytes.subrange(start, start + p.len()) =~= p);
}

/// A boundary of a text is a boundary of each suffix that starts at an
/// earlier boundary.
pub proof fn lemma_boundary_in_suffix(bytes: Seq<u8>, start: int, index: int)
    requires
        valid_utf8(bytes),
        0 <= start <= index <= bytes.len(),
        is_char_boundary(bytes, start),
        is_char_boundary(bytes, index),
    ensures
        valid_utf8(bytes.subrange(start, bytes.len() as int)),
        is_char_boundary(bytes.subrange(start, bytes.len() as int), index - start),
{
    valid_utf8_split(bytes, start);
    let tail = bytes.subrange(start, bytes.len() as int);
    if index == bytes.len() {
        is_char_boundary_start_end_of_seq(tail);
    } else {
        is_char_boundary_iff_not_is_continuation_byte(bytes, index);
        is_char_boundary_iff_not_is_continuation_byte(tail, index - start);
    }
}

/// The encoding of a text that is not empty is not empty.
pub proof fn lemma_encode_nonempty(chars: Seq<char>)
    requires
        chars.len() > 0,
    ensures
        encode_utf8(chars).len() > 0,
{
    assert(encode_utf8(chars) == encode_scalar(chars[0] as u32) + encode_utf8(chars.drop_first()));
}

/// A text with the bytes from `cut` to `end` replaced by `mark`.
pub open spec fn replaced_span(bytes: Seq<u8>, mark: Seq<u8>, cut: int, end: int) -> Seq<u8> {
    bytes.subrange(0, cut) + mark + bytes.subrange(end, bytes.len() as int)
}

/// Where a span of a text gives way to another text, the boundaries before
/// the span stay, those behind it move along, and a character starts
/// behind what was put in.
pub proof fn lemma_boundaries_after_replacing(bytes: Seq<u8>, mark: Seq<u8>, cut: int, end: int)
    requires
        valid_utf8(bytes),
        valid_utf8(mark),
        0 <= cut <= end <= bytes.len(),
        is_char_boundary(bytes, cut),
        is_char_boundary(bytes, end),
    ensures
        valid_utf8(replaced_span(bytes, mark, cut, end)),
        replaced_span(bytes, mark, cut, end).len() == bytes.len() - (end - cut) + mark.len(),
        is_char_boundary(replaced_span(bytes, mark, cut, end), cut + mark.len()),
        forall|p: int|
            0 <= p <= cut && #[trigger] is_char_boundary(bytes, p) ==> is_char_boundary(
                replaced_span(bytes, mark, cut, end),
                p,
            ),
        forall|q: int|
            end <= q <= bytes.len() && #[trigger] is_char_boundary(bytes, q) ==> is_char_boundary(
                replaced_span(bytes, mark, cut, end),
                cut + mark.len() + (q - end),
            ),
{
    let front = bytes.subrange(0, cut);
    let behind = bytes.subrange(end, bytes.len() as int);
    let after = replaced_span(bytes, mark, cut, end);
    valid_utf8_split(bytes, cut);
    valid_utf8_split(bytes, end);
    valid_utf8_concat(front, mark);
    valid_utf8_concat(mark, behind);
    lemma_boundary_of_join(front + mark, behind);
    assert(after =~= front + (mark + behind));
    assert forall|p: int| 0 <= p <= cut && #[trigger] is_char_boundary(bytes, p) implies is_char_boundary(
        after,
        p,
    ) by {
        lemma_boundary_in_prefix(bytes, p, cut);
        lemma_boundary_left(front, mark + behind, p);
    }
    assert forall|q: int|
        end <= q <= bytes.len() && #[trigger] is_char_boundary(bytes, q) implies is_char_boundary(
        after,
        cut + mark.len() + (q - end),
    ) by {
        lemma_boundary_in_suffix(bytes, end, q);
        lemma_boundary_right(front + mark, behind, q - end);
    }
}

/// A boundary lies within the text.
pub proof fn lemma_boundary_in_range(bytes: Seq<u8>, index: int)
    requires
        valid_utf8(bytes),
        is_char_boundary(bytes, index),
    ensures
        0 <= index <= bytes.len(),
{
}

/// The length of a text in bytes.
pub fn byte_len(text: &str) -> (len: usize)
    ensures
        len == text.spec_bytes().len(),
{
    text.as_bytes().len()
}

/// The part of `text` between two byte offsets that lie on character boundaries.
pub fn byte_slice<'a>(text: &'a str, start: usize, end: usize) -> (part: &'a str)
    requires
        start <= end <= text.spec_bytes().len(),
        is_char_boundary(text.spec_bytes(), start as int),
        is_char_boundary(text.spec_bytes(), end as int),
    ensures
        part.spec_bytes() == text.spec_bytes().subrange(start as int, end as int),
{
    proof {
        encode_utf8_valid_utf8(text@);
        lemma_boundary_in_prefix(text.spec_bytes(), start as int, end as int);
    }
    let (head, _) = text.split_at(end);
    let (_, part) = head.split_at(start);
    assert(part.spec_bytes() =~= text.spec_bytes().subrange(start as int, end as int));
    part
}

/// Joins three pieces into one owned text.
pub fn join3(a: &str, b: &str, c: &str) -> (joined: String)
    ensures
        joined@ == a@ + b@ + c@,
        encode_utf8(joined@) == a.spec_bytes() + b.spec_bytes() + c.spec_bytes(),
{
    let mut joined = String::from_str(a);
    joined.append(b);
    joined.append(c);
    proof {
        lemma_encode_concat(a@, b@);
        lemma_encode_concat(a@ + b@, c@);
    }
    joined
}

} // verus!
