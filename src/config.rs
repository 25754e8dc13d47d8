//! The encoder's configuration and the encoding of parts into a buffer.
use vstd::prelude::*;

use crate::buffer::Buffer;
use crate::layout::{
    ByteOrder, LengthWidth, length_prefix, max_part_len, order_tag, width_bytes, width_tag,
    write_length_prefix,
};

verus! {

/// A part was longer than the configured length width can state.
#[derive(Clone, Copy, Debug, PartialEq, Eq, Structural)]
pub struct LengthOverflowError {
    /// Position of the first part that is too long.
    pub index: usize,
    /// Its length in bytes.
    pub len: usize,
}

/// How a buffer is laid out: the width and byte order of its length
/// prefixes, and how many bytes to reserve up front.
#[derive(Clone, Copy, Debug, PartialEq, Eq, Structural)]
pub struct Config {
    pub length_width: LengthWidth,
    pub byte_order: ByteOrder,
    /// Capacity to reserve; when `None` it is estimated from the parts.
    pub size_hint: Option<usize>,
}

/// The parts as sequences of bytes.
pub open spec fn parts_model(parts: &[&[u8]]) -> Seq<Seq<u8>> {
    Seq::new(parts@.len(), |i: int| parts@[i]@)
}

/// Whether every part fits under width `w`.
pub open spec fn all_fit(parts: Seq<Seq<u8>>, w: LengthWidth) -> bool {
    forall|i: int| 0 <= i < parts.len() ==> #[trigger] parts[i].len() <= max_part_len(w)
}

/// Whether `i` is the position of the first part that does not fit under `w`.
pub open spec fn first_too_long(parts: Seq<Seq<u8>>, w: LengthWidth, i: int) -> bool {
    &&& 0 <= i < parts.len()
    &&& parts[i].len() > max_part_len(w)
    &&& forall|j: int| 0 <= j < i ==> #[trigger] parts[j].len() <= max_part_len(w)
}

/// One record: the part's length prefix followed by the part.
pub open spec fn record(part: Seq<u8>, w: LengthWidth, big: bool) -> Seq<u8> {
    length_prefix(part.len(), w, big) + part
}

/// The records of all parts, in order.
pub open spec fn encode_parts(parts: Seq<Seq<u8>>, w: LengthWidth, big: bool) -> Seq<u8>
    decreases parts.len(),
{
    if parts.len() == 0 {
        Seq::empty()
    } else {
        record(parts[0], w, big) + encode_parts(parts.skip(1), w, big)
    }
}

/// A whole buffer: the two header tags, then the records.
pub open spec fn encoded_buffer(parts: Seq<Seq<u8>>, w: LengthWidth, big: bool) -> Seq<u8> {
    seq![order_tag(big), width_tag(w)] + encode_parts(parts, w, big)
}

/// Whether the concrete order `big` is one that `order` may resolve to.
pub open spec fn resolves_to(order: ByteOrder, big: bool) -> bool {
    match order {
        ByteOrder::Big => big,
        ByteOrder::Little => !big,
        ByteOrder::Native => true,
    }
}

/// Sum of the lengths of the parts.
pub open spec fn total_len(parts: Seq<Seq<u8>>) -> nat
    decreases parts.len(),
{
    if parts.len() == 0 {
        0
    } else {
        total_len(parts.drop_last()) + parts.last().len()
    }
}

/// The capacity that encoding the parts with width `w` takes.
pub open spec fn encoded_size(parts: Seq<Seq<u8>>, w: LengthWidth) -> nat {
    2 + parts.len() * width_bytes(w) + total_len(parts)
}

/// Appending a part appends its record.
pub proof fn lemma_encode_push(parts: Seq<Seq<u8>>, part: Seq<u8>, w: LengthWidth, big: bool)
    ensures
        encode_parts(parts.push(part), w, big) == encode_parts(parts, w, big) + record(
            part,
            w,
            big,
        ),
    decreases parts.len(),
{
    if parts.len() == 0 {
        assert(parts.push(part).skip(1) =~= Seq::<Seq<u8>>::empty());
        assert(encode_parts(parts.push(part).skip(1), w, big) == Seq::<u8>::empty());
        assert(encode_parts(parts.push(part), w, big) =~= record(part, w, big));
    } else {
        assert(parts.push(part).skip(1) =~= parts.skip(1).push(part));
        lemma_encode_push(parts.skip(1), part, w, big);
        assert(encode_parts(parts.push(part), w, big) =~= encode_parts(parts, w, big) + record(
            part,
            w,
            big,
        ));
    }
}

/// Relies on u16::to_ne_bytes: the bytes of one in the machine's own order,
/// which is either big-endian or little-endian.
#[verifier::external_body]
fn native_bytes_of_one() -> (r: [u8; 2])
    ensures
        r@ == seq![0u8, 1u8] || r@ == seq![1u8, 0u8],
{
    1u16.to_ne_bytes()
}

impl ByteOrder {
    /// The concrete order (`true` for big-endian) that this order stands for
    /// on the running machine.
    pub fn resolve(&self) -> (big: bool)
        ensures
            resolves_to(*self, big),
    {
        match self {
            ByteOrder::Big => true,
            ByteOrder::Little => false,
            ByteOrder::Native => {
                let one = native_bytes_of_one();
                one[0] == 0
            },
        }
    }
}

/// The capacity that encoding the parts with width `w` takes, or
/// `usize::MAX` where that does not fit.
pub fn size_estimate(parts: &[&[u8]], w: LengthWidth) -> (r: usize)
    ensures
        r as int == if encoded_size(parts_model(parts), w) <= usize::MAX {
            encoded_size(parts_model(parts), w) as int
        } else {
            usize::MAX as int
        },
{
    let ghost pm = parts_model(parts);
    let k = w.byte_len();
    let mut acc: usize = 2;
    let mut saturated = false;
    let mut i: usize = 0;
    while i < parts.len()
        invariant
            i <= parts@.len(),
            pm == parts_model(parts),
            k == width_bytes(w),
            saturated ==> acc == usize::MAX && encoded_size(pm.take(i as int), w) > usize::MAX,
            !saturated ==> acc as int == encoded_size(pm.take(i as int), w),
        decreases parts@.len() - i,
    {
        let n = parts[i].len();
        proof {
            let t = pm.take(i + 1);
            assert(t.drop_last() =~= pm.take(i as int));
            assert(t.last() == parts@[i as int]@);
            assert(encoded_size(t, w) == encoded_size(pm.take(i as int), w) + k + n) by (nonlinear_arith)
                requires
                    encoded_size(t, w) == 2 + (i + 1) * k + total_len(pm.take(i as int)) + n,
                    encoded_size(pm.take(i as int), w) == 2 + i * k + total_len(pm.take(i as int)),
            ;
        }
        if !saturated {
            if acc <= usize::MAX - k && acc + k <= usize::MAX - n {
                acc = acc + k + n;
            } else {
                acc = usize::MAX;
                saturated = true;
            }
        }
        i = i + 1;
    }
    assert(pm.take(parts@.len() as int) =~= pm);
    acc
}

/// The default configuration: pointer-sized prefixes, big-endian order, no
/// size hint.
pub fn configure() -> (r: Config)
    ensures
        r == (Config {
            length_width: LengthWidth::Pointer,
            byte_order: ByteOrder::Big,
            size_hint: None,
        }),
{
    Config::new()
}

impl Config {
    /// The default configuration: pointer-sized prefixes, big-endian order,
    /// no size hint.
    pub fn new() -> (r: Config)
        ensures
            r == (Config {
                length_width: LengthWidth::Pointer,
                byte_order: ByteOrder::Big,
                size_hint: None,
            }),
    {
        Config { length_width: LengthWidth::Pointer, byte_order: ByteOrder::Big, size_hint: None }
    }

    /// This configuration with another length width.
    pub fn with_length_width(self, width: LengthWidth) -> (r: Config)
        ensures
            r == (Config { length_width: width, ..self }),
    {
        Config { length_width: width, ..self }
    }

    /// This configuration with another byte order.
    pub fn with_byte_order(self, order: ByteOrder) -> (r: Config)
        ensures
            r == (Config { byte_order: order, ..self }),
    {
        Config { byte_order: order, ..self }
    }

    /// This configuration with a capacity to reserve.
    pub fn with_size_hint(self, n: usize) -> (r: Config)
        ensures
            r == (Config { size_hint: Some(n), ..self }),
    {
        Config { size_hint: Some(n), ..self }
    }

    /// Encodes the parts: a header naming the byte order and the length
    /// width, then for each part in order its length prefix and its bytes.
    /// Fails, naming the first offending part, when a part is longer than the
    /// length width can state.
    pub fn build(&self, parts: &[&[u8]]) -> (r: Result<Buffer, LengthOverflowError>)
        ensures
            r is Ok <==> all_fit(parts_model(parts), self.length_width),
            r matches Ok(b) ==> {
                &&& resolves_to(self.byte_order, b@[0] == 0)
                &&& b@ == encoded_buffer(parts_model(parts), self.length_width, b@[0] == 0)
            },
            r matches Err(e) ==> {
                &&& first_too_long(parts_model(parts), self.length_width, e.index as int)
                &&& e.len == parts@[e.index as int]@.len()
            },
    {
        let ghost pm = parts_model(parts);
        let w = self.length_width;
        let big = self.byte_order.resolve();
        let hint = match self.size_hint {
            Some(h) => h,
            None => size_estimate(parts, w),
        };
        let mut out: Vec<u8> = Vec::with_capacity(hint);
        out.push(if big {
            0
        } else {
            1
        });
        out.push(w.tag());
        let max = w.max_len();
        let mut i: usize = 0;
        while i < parts.len()
            invariant
                i <= parts@.len(),
                pm == parts_model(parts),
                w == self.length_width,
                max == max_part_len(w),
                out@ == seq![order_tag(big), width_tag(w)] + encode_parts(pm.take(i as int), w, big),
                all_fit(pm.take(i as int), w),
            decreases parts@.len() - i,
        {
            let part = parts[i];
            let n = part.len();
            if n as u64 > max {
                proof {
                    assert(pm[i as int] == part@);
                    assert(pm[i as int].len() > max_part_len(w));
                    assert forall|j: int| 0 <= j < i implies #[trigger] pm[j].len() <= max_part_len(
                        w,
                    ) by {
                        assert(pm.take(i as int)[j] == pm[j]);
                    }
                }
                return Err(LengthOverflowError { index: i, len: n });
            }
            let ghost before = out@;
            write_length_prefix(&mut out, n as u64, w, big);
            out.extend_from_slice(part);
            proof {
                assert(out@ =~= before + (length_prefix(n as nat, w, big) + part@));
                assert(pm.take(i + 1) =~= pm.take(i as int).push(pm[i as int]));
                lemma_encode_push(pm.take(i as int), pm[i as int], w, big);
                assert(out@ =~= seq![order_tag(big), width_tag(w)] + encode_parts(
                    pm.take(i + 1),
                    w,
                    big,
                ));
                assert forall|j: int| 0 <= j < i + 1 implies #[trigger] pm.take(i + 1)[j].len()
                    <= max_part_len(w) by {
                    if j < i {
                        assert(pm.take(i + 1)[j] == pm.take(i as int)[j]);
                    }
                }
            }
            i = i + 1;
        }
        assert(pm.take(parts@.len() as int) =~= pm);
        let b = Buffer::from_bytes(out);
        Ok(b)
    }
}

} // verus!
