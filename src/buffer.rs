//! An encoded buffer and the walk over its parts.
use vstd::prelude::*;

use vstd::slice::slice_subrange;

use crate::config::{Config, encoded_buffer, parts_model, size_estimate};
use crate::layout::{
    ByteOrder, LengthWidth, lemma_pow256_widths, max_part_len, order_of_tag, prefix_value,
    read_length_prefix, width_bytes, width_of_tag,
};

verus! {

/// The bytes of a buffer do not hold a well-formed header and records.
#[derive(Clone, Copy, Debug, PartialEq, Eq, Structural)]
pub struct MalformedBufferError;

/// Parts packed one after another, each behind its length prefix, after a
/// two-byte header that names the byte order and the length width.
#[derive(Clone, Debug)]
pub struct Buffer(Vec<u8>);

impl View for Buffer {
    type V = Seq<u8>;

    closed spec fn view(&self) -> Seq<u8> {
        self.0@
    }
}

/// The width and concrete byte order that a buffer's header names, if it
/// has a valid one.
pub open spec fn header_layout(b: Seq<u8>) -> Option<(LengthWidth, bool)> {
    if b.len() < 2 {
        None
    } else {
        match (width_of_tag(b[1]), order_of_tag(b[0])) {
            (Some(w), Some(big)) => Some((w, big)),
            _ => None,
        }
    }
}

/// The first record of `rem`, as the part and what follows the record, or
/// `None` where the prefix or the part runs past the end.
pub open spec fn next_record(rem: Seq<u8>, w: LengthWidth, big: bool) -> Option<
    (Seq<u8>, Seq<u8>),
> {
    let k = width_bytes(w) as int;
    if rem.len() < k {
        None
    } else {
        let n = prefix_value(rem.take(k), big) as int;
        if rem.len() < k + n {
            None
        } else {
            Some((rem.subrange(k, k + n), rem.skip(k + n)))
        }
    }
}

/// The parts that the records of `rem` hold, or `None` where a record is
/// cut short.
pub open spec fn decode_parts(rem: Seq<u8>, w: LengthWidth, big: bool) -> Option<Seq<Seq<u8>>>
    decreases rem.len(),
{
    let k = width_bytes(w) as int;
    if rem.len() == 0 {
        Some(Seq::empty())
    } else if rem.len() < k {
        None
    } else {
        let n = prefix_value(rem.take(k), big) as int;
        if rem.len() < k + n {
            None
        } else {
            match decode_parts(rem.skip(k + n), w, big) {
                Some(ps) => Some(seq![rem.subrange(k, k + n)] + ps),
                None => None,
            }
        }
    }
}

/// The parts that a whole buffer holds, or `None` where it is malformed.
pub open spec fn decode_buffer(b: Seq<u8>) -> Option<Seq<Seq<u8>>> {
    match header_layout(b) {
        Some((w, big)) => decode_parts(b.skip(2), w, big),
        None => None,
    }
}

/// A walk over the parts of a buffer, one record at a time. Each part is
/// handed out as a view into the buffer's bytes.
pub struct BufferIterator<'a> {
    bytes: &'a [u8],
    offset: usize,
    width: LengthWidth,
    big: bool,
}

impl<'a> BufferIterator<'a> {
    /// The bytes not yet walked.
    pub closed spec fn remaining(&self) -> Seq<u8> {
        self.bytes@.skip(self.offset as int)
    }

    /// The width of the length prefixes.
    pub closed spec fn width(&self) -> LengthWidth {
        self.width
    }

    /// Whether the length prefixes are big-endian.
    pub closed spec fn is_big(&self) -> bool {
        self.big
    }

    /// The walk's position lies within the buffer.
    pub closed spec fn wf(&self) -> bool {
        self.offset <= self.bytes@.len()
    }

    /// The next part; `None` once every byte has been walked. A record cut
    /// short gives an error, after which the walk is over.
    pub fn next(&mut self) -> (r: Option<Result<&'a [u8], MalformedBufferError>>)
        requires
            old(self).wf(),
        ensures
            final(self).wf(),
            final(self).width() == old(self).width(),
            final(self).is_big() == old(self).is_big(),
            old(self).remaining().len() == 0 ==> r is None && final(self).remaining() == old(
                self,
            ).remaining(),
            old(self).remaining().len() > 0 ==> match next_record(
                old(self).remaining(),
                old(self).width(),
                old(self).is_big(),
            ) {
                Some((part, rest)) => {
                    &&& r matches Some(Ok(s)) && s@ == part
                    &&& final(self).remaining() == rest
                },
                None => {
                    &&& r matches Some(Err(_))
                    &&& final(self).remaining().len() == 0
                },
            },
    {
        let len = self.bytes.len();
        let ghost rem = self.bytes@.skip(self.offset as int);
        if self.offset == len {
            return None;
        }
        let k = self.width.byte_len();
        if len - self.offset < k {
            self.offset = len;
            return Some(Err(MalformedBufferError));
        }
        let n = read_length_prefix(self.bytes, self.offset, self.width, self.big);
        let start = self.offset + k;
        assert(rem.take(k as int) =~= self.bytes@.subrange(self.offset as int, start as int));
        if n > (len - start) as u64 {
            self.offset = len;
            return Some(Err(MalformedBufferError));
        }
        let end = start + n as usize;
        let part = slice_subrange(self.bytes, start, end);
        assert(rem.subrange(k as int, k + n) =~= part@);
        assert(rem.skip(k + n) =~= self.bytes@.skip(end as int));
        self.offset = end;
        Some(Ok(part))
    }
}

impl Buffer {
    /// Takes bytes as they are, for instance a buffer received from
    /// elsewhere; they are checked when the parts are read.
    pub fn from_bytes(bytes: Vec<u8>) -> (r: Buffer)
        ensures
            r@ == bytes@,
    {
        Buffer(bytes)
    }

    /// Encodes the parts with pointer-sized (eight-byte) little-endian
    /// length prefixes, reserving the capacity that the encoding takes.
    pub fn build(parts: &[&[u8]]) -> (r: Buffer)
        ensures
            r@ == encoded_buffer(parts_model(parts), LengthWidth::Pointer, false),
    {
        let hint = size_estimate(parts, LengthWidth::Pointer);
        Buffer::build_with_size_hint(parts, hint)
    }

    /// Encodes the parts with pointer-sized (eight-byte) little-endian
    /// length prefixes, reserving `size_hint` bytes up front.
    pub fn build_with_size_hint(parts: &[&[u8]], size_hint: usize) -> (r: Buffer)
        ensures
            r@ == encoded_buffer(parts_model(parts), LengthWidth::Pointer, false),
    {
        let config = Config::new().with_length_width(LengthWidth::Pointer).with_byte_order(
            ByteOrder::Little,
        ).with_size_hint(size_hint);
        proof {
            lemma_pow256_widths();
            let pm = parts_model(parts);
            assert forall|i: int| 0 <= i < pm.len() implies #[trigger] pm[i].len() <= max_part_len(
                LengthWidth::Pointer,
            ) by {
                assert(pm[i] == parts@[i]@);
                assert(parts@[i]@.len() == parts@[i].len());
            }
        }
        config.build(parts).unwrap()
    }

    /// A fresh walk over the parts, or an error where the header is missing
    /// or names an unknown byte order or length width. Every call starts
    /// from the same state: walks do not affect one another.
    pub fn parts(&self) -> (r: Result<BufferIterator<'_>, MalformedBufferError>)
        ensures
            match header_layout(self@) {
                Some((w, big)) => r matches Ok(it) && {
                    &&& it.wf()
                    &&& it.remaining() == self@.skip(2)
                    &&& it.width() == w
                    &&& it.is_big() == big
                },
                None => r is Err,
            },
    {
        let b = self.0.as_slice();
        if b.len() < 2 {
            return Err(MalformedBufferError);
        }
        let w = match LengthWidth::from_tag(b[1]) {
            Some(w) => w,
            None => {
                return Err(MalformedBufferError);
            },
        };
        let big = if b[0] == 0 {
            true
        } else if b[0] == 1 {
            false
        } else {
            return Err(MalformedBufferError);
        };
        Ok(BufferIterator { bytes: b, offset: 2, width: w, big })
    }

    /// All parts in order, or an error where the header or a record is
    /// malformed.
    pub fn to_parts(&self) -> (r: Result<Vec<&[u8]>, MalformedBufferError>)
        ensures
            match decode_buffer(self@) {
                Some(ps) => r matches Ok(v) && v@.map_values(|s: &[u8]| s@) == ps,
                None => r is Err,
            },
    {
        let mut it = match self.parts() {
            Ok(it) => it,
            Err(e) => {
                return Err(e);
            },
        };
        let ghost w = it.width();
        let ghost big = it.is_big();
        let mut out: Vec<&[u8]> = Vec::new();
        loop
            invariant
                it.wf(),
                it.width() == w,
                it.is_big() == big,
                header_layout(self@) == Some((w, big)),
                decode_buffer(self@) == match decode_parts(it.remaining(), w, big) {
                    Some(ps) => Some(out@.map_values(|s: &[u8]| s@) + ps),
                    None => None,
                },
            decreases it.remaining().len(),
        {
            let ghost rem = it.remaining();
            match it.next() {
                None => {
                    assert(out@.map_values(|s: &[u8]| s@) + Seq::<Seq<u8>>::empty() =~= out@.map_values(|s: &[u8]| s@));
                    return Ok(out);
                },
                Some(Err(e)) => {
                    return Err(e);
                },
                Some(Ok(part)) => {
                    let ghost before = out@.map_values(|s: &[u8]| s@);
                    out.push(part);
                    proof {
                        assert(out@.map_values(|s: &[u8]| s@) =~= before.push(part@));
                        match decode_parts(it.remaining(), w, big) {
                            Some(ps) => {
                                assert(before + (seq![part@] + ps) =~= before.push(part@) + ps);
                            },
                            None => {},
                        }
                    }
                },
            }
        }
    }

    /// Gives up the buffer's bytes.
    pub fn into_inner(self) -> (r: Vec<u8>)
        ensures
            r@ == self@,
    {
        self.0
    }
}

} // verus!
