//! Length prefixes: their width, their byte order, and how an integer is
//! written into and read back from a fixed number of bytes.
use vstd::prelude::*;

verus! {

/// The order of the bytes inside a multi-byte length prefix.
#[derive(Clone, Copy, Debug, PartialEq, Eq, Structural)]
pub enum ByteOrder {
    Big,
    Little,
    /// The order of the machine that encodes; resolved to `Big` or `Little`
    /// when a buffer is built and recorded as such in its header.
    Native,
}

/// The integer width used for every length prefix of a buffer.
#[derive(Clone, Copy, Debug, PartialEq, Eq, Structural)]
pub enum LengthWidth {
    Bits8,
    Bits16,
    Bits32,
    /// Pointer-sized prefixes, fixed at eight bytes on every platform so that
    /// buffers stay portable.
    Pointer,
}

/// Number of bytes of one length prefix.
pub open spec fn width_bytes(w: LengthWidth) -> nat {
    match w {
        LengthWidth::Bits8 => 1,
        LengthWidth::Bits16 => 2,
        LengthWidth::Bits32 => 4,
        LengthWidth::Pointer => 8,
    }
}

/// `256` raised to the power `k`.
pub open spec fn pow256(k: nat) -> nat
    decreases k,
{
    if k == 0 {
        1
    } else {
        256 * pow256((k - 1) as nat)
    }
}

/// The largest part length that a prefix of width `w` can state.
pub open spec fn max_part_len(w: LengthWidth) -> nat {
    (pow256(width_bytes(w)) - 1) as nat
}

/// The `k` lowest base-256 digits of `n`, least significant first.
pub open spec fn le_bytes(n: nat, k: nat) -> Seq<u8>
    decreases k,
{
    if k == 0 {
        Seq::empty()
    } else {
        seq![(n % 256) as u8] + le_bytes(n / 256, (k - 1) as nat)
    }
}

/// The `k` lowest base-256 digits of `n`, most significant first.
pub open spec fn be_bytes(n: nat, k: nat) -> Seq<u8>
    decreases k,
{
    if k == 0 {
        Seq::empty()
    } else {
        be_bytes(n / 256, (k - 1) as nat).push((n % 256) as u8)
    }
}

/// The number whose base-256 digits, least significant first, are `s`.
pub open spec fn le_value(s: Seq<u8>) -> nat
    decreases s.len(),
{
    if s.len() == 0 {
        0
    } else {
        s[0] as nat + 256 * le_value(s.skip(1))
    }
}

/// The number whose base-256 digits, most significant first, are `s`.
pub open spec fn be_value(s: Seq<u8>) -> nat
    decreases s.len(),
{
    if s.len() == 0 {
        0
    } else {
        be_value(s.drop_last()) * 256 + s.last() as nat
    }
}

/// The length prefix that states `n` with width `w`, big-endian if `big`.
pub open spec fn length_prefix(n: nat, w: LengthWidth, big: bool) -> Seq<u8> {
    if big {
        be_bytes(n, width_bytes(w))
    } else {
        le_bytes(n, width_bytes(w))
    }
}

/// The number that the prefix bytes `s` state, big-endian if `big`.
pub open spec fn prefix_value(s: Seq<u8>, big: bool) -> nat {
    if big {
        be_value(s)
    } else {
        le_value(s)
    }
}

/// Header tag of a concrete byte order.
pub open spec fn order_tag(big: bool) -> u8 {
    if big {
        0
    } else {
        1
    }
}

/// Header tag of a length width.
pub open spec fn width_tag(w: LengthWidth) -> u8 {
    match w {
        LengthWidth::Bits8 => 0,
        LengthWidth::Bits16 => 1,
        LengthWidth::Bits32 => 2,
        LengthWidth::Pointer => 3,
    }
}

/// The length width that a header tag names, if any.
pub open spec fn width_of_tag(t: u8) -> Option<LengthWidth> {
    if t == 0 {
        Some(LengthWidth::Bits8)
    } else if t == 1 {
        Some(LengthWidth::Bits16)
    } else if t == 2 {
        Some(LengthWidth::Bits32)
    } else if t == 3 {
        Some(LengthWidth::Pointer)
    } else {
        None
    }
}

/// The concrete byte order (`true` for big-endian) that a header tag names.
/// The tag of `Native` is never written, so a decoder does not accept it.
pub open spec fn order_of_tag(t: u8) -> Option<bool> {
    if t == 0 {
        Some(true)
    } else if t == 1 {
        Some(false)
    } else {
        None
    }
}

/// The powers of 256 that the four widths use.
pub proof fn lemma_pow256_widths()
    ensures
        pow256(8) == 0x1_0000_0000_0000_0000,
        pow256(4) == 0x1_0000_0000,
        pow256(2) == 0x1_0000,
        pow256(1) == 0x100,
{
    reveal_with_fuel(pow256, 9);
}

/// Every power of 256 is at least one.
pub proof fn lemma_pow256_positive(k: nat)
    ensures
        pow256(k) >= 1,
    decreases k,
{
    if k > 0 {
        lemma_pow256_positive((k - 1) as nat);
    }
}

/// Powers of 256 grow with the exponent.
pub proof fn lemma_pow256_monotonic(a: nat, b: nat)
    requires
        a <= b,
    ensures
        pow256(a) <= pow256(b),
    decreases b,
{
    if a < b {
        lemma_pow256_monotonic(a, (b - 1) as nat);
        lemma_pow256_positive((b - 1) as nat);
    }
}

/// Writing `n` in `k` little-endian bytes and reading it back gives `n`.
pub proof fn lemma_le_round_trip(n: nat, k: nat)
    requires
        n < pow256(k),
    ensures
        le_bytes(n, k).len() == k,
        le_value(le_bytes(n, k)) == n,
    decreases k,
{
    if k > 0 {
        let km1 = (k - 1) as nat;
        assert(n / 256 < pow256(km1)) by (nonlinear_arith)
            requires
                n < 256 * pow256(km1),
        ;
        lemma_le_round_trip(n / 256, km1);
        let s = le_bytes(n, k);
        assert(s.skip(1) =~= le_bytes(n / 256, km1));
    }
}

/// Writing `n` in `k` big-endian bytes and reading it back gives `n`.
pub proof fn lemma_be_round_trip(n: nat, k: nat)
    requires
        n < pow256(k),
    ensures
        be_bytes(n, k).len() == k,
        be_value(be_bytes(n, k)) == n,
    decreases k,
{
    if k > 0 {
        let km1 = (k - 1) as nat;
        assert(n / 256 < pow256(km1)) by (nonlinear_arith)
            requires
                n < 256 * pow256(km1),
        ;
        lemma_be_round_trip(n / 256, km1);
        let s = be_bytes(n, k);
        assert(s.drop_last() =~= be_bytes(n / 256, km1));
    }
}

/// A length prefix has the width's number of bytes and states its length.
pub proof fn lemma_prefix_round_trip(n: nat, w: LengthWidth, big: bool)
    requires
        n <= max_part_len(w),
    ensures
        length_prefix(n, w, big).len() == width_bytes(w),
        prefix_value(length_prefix(n, w, big), big) == n,
{
    lemma_pow256_positive(width_bytes(w));
    if big {
        lemma_be_round_trip(n, width_bytes(w));
    } else {
        lemma_le_round_trip(n, width_bytes(w));
    }
}

impl LengthWidth {
    /// Number of bytes of one length prefix.
    pub fn byte_len(&self) -> (r: usize)
        ensures
            r == width_bytes(*self),
    {
        match self {
            LengthWidth::Bits8 => 1,
            LengthWidth::Bits16 => 2,
            LengthWidth::Bits32 => 4,
            LengthWidth::Pointer => 8,
        }
    }

    /// The largest part length that a prefix of this width can state.
    pub fn max_len(&self) -> (r: u64)
        ensures
            r == max_part_len(*self),
    {
        proof {
            lemma_pow256_widths();
        }
        match self {
            LengthWidth::Bits8 => 0xff,
            LengthWidth::Bits16 => 0xffff,
            LengthWidth::Bits32 => 0xffff_ffff,
            LengthWidth::Pointer => 0xffff_ffff_ffff_ffff,
        }
    }

    /// The header tag of this width.
    pub fn tag(&self) -> (r: u8)
        ensures
            r == width_tag(*self),
            width_of_tag(r) == Some(*self),
    {
        match self {
            LengthWidth::Bits8 => 0,
            LengthWidth::Bits16 => 1,
            LengthWidth::Bits32 => 2,
            LengthWidth::Pointer => 3,
        }
    }

    /// The width that a header tag names, or `None` for an unknown tag.
    pub fn from_tag(t: u8) -> (r: Option<LengthWidth>)
        ensures
            r == width_of_tag(t),
    {
        if t == 0 {
            Some(LengthWidth::Bits8)
        } else if t == 1 {
            Some(LengthWidth::Bits16)
        } else if t == 2 {
            Some(LengthWidth::Bits32)
        } else if t == 3 {
            Some(LengthWidth::Pointer)
        } else {
            None
        }
    }
}

/// Appends to `out` the prefix that states `n` with width `w`.
pub fn write_length_prefix(out: &mut Vec<u8>, n: u64, w: LengthWidth, big: bool)
    requires
        n <= max_part_len(w),
    ensures
        final(out)@ == old(out)@ + length_prefix(n as nat, w, big),
{
    let k = w.byte_len();
    if big {
        let mut digits: Vec<u8> = Vec::new();
        let mut z: usize = 0;
        while z < k
            invariant
                z <= k,
                digits@.len() == z,
            decreases k - z,
        {
            digits.push(0);
            z = z + 1;
        }
        let mut m: u64 = n;
        let mut i: usize = k;
        while i > 0
            invariant
                i <= k,
                digits@.len() == k,
                be_bytes(n as nat, k as nat) == be_bytes(m as nat, i as nat) + digits@.subrange(
                    i as int,
                    k as int,
                ),
            decreases i,
        {
            let old_digits = Ghost(digits@);
            let d = (m % 256) as u8;
            digits.set(i - 1, d);
            proof {
                assert(be_bytes(m as nat, i as nat) == be_bytes((m / 256) as nat, (i - 1) as nat).push(d));
                assert(digits@.subrange(i - 1, k as int) =~= seq![d] + old_digits@.subrange(
                    i as int,
                    k as int,
                ));
                assert(be_bytes((m / 256) as nat, (i - 1) as nat).push(d) + old_digits@.subrange(
                    i as int,
                    k as int,
                ) =~= be_bytes((m / 256) as nat, (i - 1) as nat) + digits@.subrange(
                    i - 1,
                    k as int,
                ));
            }
            m = m / 256;
            i = i - 1;
        }
        assert(digits@.subrange(0, k as int) =~= digits@);
        assert(be_bytes(m as nat, 0) =~= Seq::<u8>::empty());
        assert(be_bytes(n as nat, k as nat) =~= digits@);
        out.append(&mut digits);
    } else {
        let ghost start = out@;
        let mut m: u64 = n;
        let mut i: usize = 0;
        while i < k
            invariant
                i <= k,
                out@ + le_bytes(m as nat, (k - i) as nat) == start + le_bytes(n as nat, k as nat),
            decreases k - i,
        {
            let ghost before = out@;
            let d = (m % 256) as u8;
            out.push(d);
            proof {
                assert(le_bytes(m as nat, (k - i) as nat) == seq![d] + le_bytes(
                    (m / 256) as nat,
                    (k - i - 1) as nat,
                ));
                assert(before + (seq![d] + le_bytes((m / 256) as nat, (k - i - 1) as nat))
                    =~= out@ + le_bytes((m / 256) as nat, (k - i - 1) as nat));
            }
            m = m / 256;
            i = i + 1;
        }
        assert(out@ + le_bytes(m as nat, 0) =~= out@);
    }
}

/// Reads the length prefix of width `w` that starts at `start` in `bytes`.
pub fn read_length_prefix(bytes: &[u8], start: usize, w: LengthWidth, big: bool) -> (r: u64)
    requires
        start + width_bytes(w) <= bytes@.len(),
    ensures
        r == prefix_value(bytes@.subrange(start as int, start + width_bytes(w)), big),
{
    let k = w.byte_len();
    let len = bytes.len();
    let ghost s = bytes@.subrange(start as int, start + k);
    proof {
        lemma_pow256_widths();
        lemma_pow256_monotonic(k as nat, 8);
    }
    if big {
        let mut acc: u64 = 0;
        let mut j: usize = 0;
        while j < k
            invariant
                j <= k <= 8,
                start + k <= bytes@.len(),
                len == bytes@.len(),
                s == bytes@.subrange(start as int, start + k),
                pow256(k as nat) <= pow256(8),
                pow256(8) == 0x1_0000_0000_0000_0000,
                acc == be_value(s.subrange(0, j as int)),
                acc < pow256(j as nat),
            decreases k - j,
        {
            let b = bytes[start + j];
            proof {
                lemma_pow256_monotonic((j + 1) as nat, k as nat);
                let p = pow256(j as nat);
                assert(acc * 256 + b < 256 * p) by (nonlinear_arith)
                    requires
                        acc < p,
                        b < 256,
                ;
                assert(s.subrange(0, j + 1).drop_last() =~= s.subrange(0, j as int));
            }
            acc = acc * 256 + b as u64;
            j = j + 1;
        }
        assert(s.subrange(0, k as int) =~= s);
        acc
    } else {
        let mut acc: u64 = 0;
        let mut j: usize = k;
        while j > 0
            invariant
                j <= k <= 8,
                start + k <= bytes@.len(),
                len == bytes@.len(),
                s == bytes@.subrange(start as int, start + k),
                pow256(k as nat) <= pow256(8),
                pow256(8) == 0x1_0000_0000_0000_0000,
                acc == le_value(s.subrange(j as int, k as int)),
                acc < pow256((k - j) as nat),
            decreases j,
        {
            let b = bytes[start + j - 1];
            proof {
                lemma_pow256_monotonic((k - j + 1) as nat, k as nat);
                let p = pow256((k - j) as nat);
                assert(acc * 256 + b < 256 * p) by (nonlinear_arith)
                    requires
                        acc < p,
                        b < 256,
                ;
                assert(s.subrange(j - 1, k as int).skip(1) =~= s.subrange(j as int, k as int));
            }
            acc = b as u64 + 256 * acc;
            j = j - 1;
        }
        assert(s.subrange(0, k as int) =~= s);
        acc
    }
}

} // verus!
