//! What holds of encoding and decoding together.
use vstd::prelude::*;

use crate::buffer::{decode_buffer, decode_parts, header_layout};
use crate::config::{all_fit, encode_parts, encoded_buffer, lemma_encode_push, record};
use crate::layout::{
    LengthWidth, lemma_prefix_round_trip, length_prefix, order_tag, width_bytes, width_of_tag,
    width_tag,
};

verus! {

/// The header of an encoded buffer names the width and order it was
/// encoded with, and the records follow it.
proof fn lemma_header(parts: Seq<Seq<u8>>, w: LengthWidth, big: bool, cut: nat)
    requires
        cut <= encode_parts(parts, w, big).len(),
    ensures
        header_layout(encoded_buffer(parts, w, big).take(2 + cut as int)) == Some((w, big)),
        encoded_buffer(parts, w, big).take(2 + cut as int).skip(2) == encode_parts(parts, w, big).take(
            cut as int,
        ),
{
    let b = encoded_buffer(parts, w, big).take(2 + cut as int);
    assert(b[0] == order_tag(big));
    assert(b[1] == width_tag(w));
    assert(width_of_tag(width_tag(w)) == Some(w));
    assert(b.skip(2) =~= encode_parts(parts, w, big).take(cut as int));
}

/// Decoding records that were encoded, followed by more bytes, gives the
/// encoded parts followed by what the rest decodes to.
proof fn lemma_decode_after_records(q: Seq<Seq<u8>>, t: Seq<u8>, w: LengthWidth, big: bool)
    requires
        all_fit(q, w),
    ensures
        decode_parts(encode_parts(q, w, big) + t, w, big) == match decode_parts(t, w, big) {
            Some(r) => Some(q + r),
            None => None,
        },
    decreases q.len(),
{
    if q.len() == 0 {
        assert(encode_parts(q, w, big) + t =~= t);
        match decode_parts(t, w, big) {
            Some(r) => {
                assert(q + r =~= r);
            },
            None => {},
        }
    } else {
        let p = q[0];
        let n = p.len();
        let k = width_bytes(w) as int;
        lemma_prefix_round_trip(n, w, big);
        let s = encode_parts(q, w, big) + t;
        let tail = encode_parts(q.skip(1), w, big) + t;
        assert(s =~= length_prefix(n, w, big) + p + tail);
        assert(s.take(k) =~= length_prefix(n, w, big));
        assert(s.subrange(k, k + n) =~= p);
        assert(s.skip(k + n) =~= tail);
        assert(all_fit(q.skip(1), w)) by {
            assert forall|i: int| 0 <= i < q.skip(1).len() implies #[trigger] q.skip(1)[i].len()
                <= crate::layout::max_part_len(w) by {
                assert(q.skip(1)[i] == q[i + 1]);
            }
        }
        lemma_decode_after_records(q.skip(1), t, w, big);
        match decode_parts(t, w, big) {
            Some(r) => {
                assert(seq![p] + (q.skip(1) + r) =~= q + r);
            },
            None => {},
        }
    }
}

/// Round trip: decoding the buffer that encodes `parts` with width `w` and
/// byte order `big` gives back `parts`, in order and byte for byte, as long
/// as every part fits under the width.
pub proof fn round_trip(parts: Seq<Seq<u8>>, w: LengthWidth, big: bool)
    requires
        all_fit(parts, w),
    ensures
        decode_buffer(encoded_buffer(parts, w, big)) == Some(parts),
{
    let e = encode_parts(parts, w, big);
    lemma_header(parts, w, big, e.len());
    assert(encoded_buffer(parts, w, big).take(2 + e.len() as int) =~= encoded_buffer(parts, w, big));
    assert(e.take(e.len() as int) =~= e);
    lemma_decode_after_records(parts, Seq::empty(), w, big);
    assert(e + Seq::<u8>::empty() =~= e);
    assert(parts + Seq::<Seq<u8>>::empty() =~= parts);
}

/// Encoding no parts gives the header alone, which decodes to no parts.
pub proof fn empty_input(w: LengthWidth, big: bool)
    ensures
        encoded_buffer(Seq::empty(), w, big) == seq![order_tag(big), width_tag(w)],
        decode_buffer(encoded_buffer(Seq::empty(), w, big)) == Some(Seq::<Seq<u8>>::empty()),
{
    assert(encoded_buffer(Seq::empty(), w, big) =~= seq![order_tag(big), width_tag(w)]);
    round_trip(Seq::empty(), w, big);
}

/// An empty part is kept: decoding gives an empty part at its position, and
/// as many parts as were encoded.
pub proof fn empty_part_kept(parts: Seq<Seq<u8>>, i: int, w: LengthWidth, big: bool)
    requires
        all_fit(parts, w),
        0 <= i < parts.len(),
        parts[i].len() == 0,
    ensures
        decode_buffer(encoded_buffer(parts, w, big)) matches Some(ps) && ps.len() == parts.len()
            && ps[i].len() == 0,
{
    round_trip(parts, w, big);
}

/// Cutting off the last `cut` bytes of a buffer, where `cut` is at least one
/// and at most the length of the last part, makes decoding fail instead of
/// giving a shorter part.
pub proof fn truncation_detected(parts: Seq<Seq<u8>>, w: LengthWidth, big: bool, cut: nat)
    requires
        all_fit(parts, w),
        parts.len() > 0,
        0 < cut <= parts.last().len(),
    ensures
        decode_buffer(
            encoded_buffer(parts, w, big).take(encoded_buffer(parts, w, big).len() - cut),
        ) is None,
{
    let q = parts.drop_last();
    let p = parts.last();
    let n = p.len();
    let k = width_bytes(w) as int;
    assert(q.push(p) =~= parts);
    lemma_encode_push(q, p, w, big);
    lemma_prefix_round_trip(n, w, big);
    let e = encode_parts(parts, w, big);
    let keep = (e.len() - cut) as nat;
    lemma_header(parts, w, big, keep);
    let b = encoded_buffer(parts, w, big);
    assert(b.len() - cut == 2 + keep);
    let t = record(p, w, big).take(k + n - cut);
    assert(e.take(keep as int) =~= encode_parts(q, w, big) + t);
    assert(t.take(k) =~= length_prefix(n, w, big));
    assert(decode_parts(t, w, big) is None);
    assert(all_fit(q, w)) by {
        assert forall|i: int| 0 <= i < q.len() implies #[trigger] q[i].len()
            <= crate::layout::max_part_len(w) by {
            assert(q[i] == parts[i]);
        }
    }
    lemma_decode_after_records(q, t, w, big);
}

} // verus!
