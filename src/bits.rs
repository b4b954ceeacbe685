//! Bit-level values and streams: a left-justified buffer of at most 32 bits,
//! a writer that packs bits into bytes most-significant-bit first and closes the
//! stream with a sentinel byte, and a reader that recovers exactly the bits
//! that were written.

use vstd::arithmetic::power2::{lemma2_to64, lemma_pow2_unfold, pow2};
use vstd::prelude::*;

verus! {

/// Bit `i` (0 is the most significant) of a 32-bit word.
pub open spec fn word_bit(data: u32, i: u32) -> bool {
    ((data >> ((31 - i) as u32)) & 1u32) == 1u32
}

/// Bit `j` (0 is the most significant) of a byte.
pub open spec fn byte_bit(b: u8, j: u8) -> bool {
    ((b >> ((7 - j) as u8)) & 1u8) == 1u8
}

/// The eight bits of a byte, most significant first.
pub open spec fn byte_bits(b: u8) -> Seq<bool> {
    Seq::new(8, |j: int| byte_bit(b, j as u8))
}

proof fn lemma_set_word_bit(data: u32, amt: u32, i: u32)
    by (bit_vector)
    requires
        amt < 32,
        i < 32,
        data & (0xffff_ffffu32 >> amt) == 0,
    ensures
        ((((0x8000_0000u32 >> amt) | data) >> ((31 - i) as u32)) & 1u32 == 1u32) == (i == amt
            || ((data >> ((31 - i) as u32)) & 1u32 == 1u32)),
        ((data >> ((31 - i) as u32)) & 1u32 == 1u32) ==> i < amt,
        amt + 1 < 32 ==> ((0x8000_0000u32 >> amt) | data) & (0xffff_ffffu32 >> ((amt + 1) as u32))
            == 0,
        amt + 1 < 32 ==> data & (0xffff_ffffu32 >> ((amt + 1) as u32)) == 0,
{
}

proof fn lemma_byte_word(b: u8, i: u32)
    by (bit_vector)
    requires
        i < 8,
    ensures
        ((((b as u32) << 24u32) >> ((31 - i) as u32)) & 1u32 == 1u32) == (((b >> ((7 - i) as u8))
            & 1u8) == 1u8),
        ((b as u32) << 24u32) & (0xffff_ffffu32 >> 8u32) == 0,
{
}

/// An immutable buffer of up to 32 bits, held left-justified in `data`:
/// the first bit is the most significant one, and the bits past
/// `amount_of_bits` are zero.
#[derive(Debug, Clone, Copy)]
pub struct Bits {
    pub data: u32,
    pub amount_of_bits: u8,
}

impl View for Bits {
    type V = Seq<bool>;

    open spec fn view(&self) -> Seq<bool> {
        Seq::new(self.amount_of_bits as nat, |i: int| word_bit(self.data, i as u32))
    }
}

impl Bits {
    /// At most 32 bits, and none set past the valid ones.
    pub open spec fn wf(&self) -> bool {
        &&& self.amount_of_bits <= 32
        &&& self.amount_of_bits < 32 ==> self.data & (0xffff_ffffu32 >> (self.amount_of_bits as u32))
            == 0
    }

    pub fn empty() -> (r: Self)
        ensures
            r.wf(),
            r@ == Seq::<bool>::empty(),
    {
        let r = Self { data: 0, amount_of_bits: 0 };
        assert(0u32 & (0xffff_ffffu32 >> 0u32) == 0) by (bit_vector);
        assert(r@ =~= Seq::<bool>::empty());
        r
    }

    pub fn byte(byte: u8) -> (r: Self)
        ensures
            r.wf(),
            r@ == byte_bits(byte),
    {
        let r = Self { data: (byte as u32) << 24, amount_of_bits: 8 };
        assert forall|i: int| 0 <= i < 8 implies #[trigger] word_bit(r.data, i as u32) == byte_bit(
            byte,
            i as u8,
        ) by {
            lemma_byte_word(byte, i as u32);
        }
        proof {
            lemma_byte_word(byte, 0);
        }
        assert(r@ =~= byte_bits(byte));
        r
    }

    /// The bits as ASCII digits `0` and `1`, first bit first.
    pub fn to_digits(&self) -> (r: Vec<u8>)
        requires
            self.wf(),
        ensures
            r@ == Seq::new(self@.len(), |i: int| if self@[i] { 49u8 } else { 48u8 }),
    {
        let mut r: Vec<u8> = Vec::new();
        let mut i: u8 = 0;
        while i < self.amount_of_bits
            invariant
                self.wf(),
                i <= self.amount_of_bits,
                r@ == Seq::new(i as nat, |k: int| if self@[k] { 49u8 } else { 48u8 }),
            decreases self.amount_of_bits - i,
        {
            proof {
                lemma_word_test(self.data, i as u32);
            }
            let digit = if self.data & (0x8000_0000u32 >> i as u32) != 0 {
                49u8
            } else {
                48u8
            };
            r.push(digit);
            i = i + 1;
            assert(r@ =~= Seq::new(i as nat, |k: int| if self@[k] { 49u8 } else { 48u8 }));
        }
        r
    }

    /// A copy of these bits with one more bit at the end.
    pub fn add(&self, bit: bool) -> (r: Self)
        requires
            self.wf(),
            self@.len() < 32,
        ensures
            r.wf(),
            r@ == self@.push(bit),
    {
        let amt = self.amount_of_bits as u32;
        let data = if bit {
            (0x8000_0000u32 >> amt) | self.data
        } else {
            self.data
        };
        let r = Self { data, amount_of_bits: self.amount_of_bits + 1 };
        assert forall|i: int| 0 <= i < r.amount_of_bits implies word_bit(r.data, i as u32) == (
        #[trigger] self@.push(bit))[i] by {
            lemma_set_word_bit(self.data, amt, i as u32);
        }
        proof {
            lemma_set_word_bit(self.data, amt, 0);
        }
        assert(r@ =~= self@.push(bit));
        r
    }
}

/// The writer's and reader's mask after `k` bits of a byte: the bit at
/// position `k`, or zero once all eight are done. As a sentinel it marks that
/// `k` bits of the byte before it are valid.
pub open spec fn mask_of(k: nat) -> u8 {
    if k == 0 {
        0x80u8
    } else if k == 1 {
        0x40u8
    } else if k == 2 {
        0x20u8
    } else if k == 3 {
        0x10u8
    } else if k == 4 {
        0x08u8
    } else if k == 5 {
        0x04u8
    } else if k == 6 {
        0x02u8
    } else if k == 7 {
        0x01u8
    } else {
        0u8
    }
}

/// How many bits of the last data byte a sentinel byte declares valid: `k`
/// for the single-bit value `mask_of(k)`, and all eight for any other value.
pub open spec fn last_valid(s: u8) -> nat {
    if s == 0x80u8 {
        0
    } else if s == 0x40u8 {
        1
    } else if s == 0x20u8 {
        2
    } else if s == 0x10u8 {
        3
    } else if s == 0x08u8 {
        4
    } else if s == 0x04u8 {
        5
    } else if s == 0x02u8 {
        6
    } else if s == 0x01u8 {
        7
    } else {
        8
    }
}

proof fn lemma_mask_shifts()
    by (bit_vector)
    ensures
        0x80u8 >> 1u8 == 0x40u8,
        0x40u8 >> 1u8 == 0x20u8,
        0x20u8 >> 1u8 == 0x10u8,
        0x10u8 >> 1u8 == 0x08u8,
        0x08u8 >> 1u8 == 0x04u8,
        0x04u8 >> 1u8 == 0x02u8,
        0x02u8 >> 1u8 == 0x01u8,
        0x01u8 >> 1u8 == 0x00u8,
{
}

proof fn lemma_mask_tests(c: u8)
    by (bit_vector)
    ensures
        (c & 0x80u8 == 0x80u8) == (((c >> 7u8) & 1u8) == 1u8),
        (c & 0x40u8 == 0x40u8) == (((c >> 6u8) & 1u8) == 1u8),
        (c & 0x20u8 == 0x20u8) == (((c >> 5u8) & 1u8) == 1u8),
        (c & 0x10u8 == 0x10u8) == (((c >> 4u8) & 1u8) == 1u8),
        (c & 0x08u8 == 0x08u8) == (((c >> 3u8) & 1u8) == 1u8),
        (c & 0x04u8 == 0x04u8) == (((c >> 2u8) & 1u8) == 1u8),
        (c & 0x02u8 == 0x02u8) == (((c >> 1u8) & 1u8) == 1u8),
        (c & 0x01u8 == 0x01u8) == (((c >> 0u8) & 1u8) == 1u8),
{
}


/// The byte with bits `b0` (most significant) to `b7`.
pub open spec fn pack8(b0: bool, b1: bool, b2: bool, b3: bool, b4: bool, b5: bool, b6: bool, b7: bool) -> u8 {
    (if b0 { 0x80u8 } else { 0u8 }) | (if b1 { 0x40u8 } else { 0u8 }) | (if b2 { 0x20u8 } else { 0u8 })
        | (if b3 { 0x10u8 } else { 0u8 }) | (if b4 { 0x08u8 } else { 0u8 }) | (if b5 { 0x04u8 } else { 0u8 })
        | (if b6 { 0x02u8 } else { 0u8 }) | (if b7 { 0x01u8 } else { 0u8 })
}

/// Bit `j` of `s`, reading past its end as zero.
pub open spec fn padded_bit(s: Seq<bool>, j: int) -> bool {
    j < s.len() && s[j]
}

/// The byte whose leading bits are `s` (at most eight), padded with zeros.
pub open spec fn byte_of(s: Seq<bool>) -> u8 {
    pack8(
        padded_bit(s, 0),
        padded_bit(s, 1),
        padded_bit(s, 2),
        padded_bit(s, 3),
        padded_bit(s, 4),
        padded_bit(s, 5),
        padded_bit(s, 6),
        padded_bit(s, 7),
    )
}

proof fn lemma_pack_byte(c: u8, k: u8)
    by (bit_vector)
    requires
        k <= 8,
        k < 8 ==> c & (0xffu8 >> k) == 0,
    ensures
        c == pack8(
            0 < k && (c >> 7u8) & 1u8 == 1u8,
            1 < k && (c >> 6u8) & 1u8 == 1u8,
            2 < k && (c >> 5u8) & 1u8 == 1u8,
            3 < k && (c >> 4u8) & 1u8 == 1u8,
            4 < k && (c >> 3u8) & 1u8 == 1u8,
            5 < k && (c >> 2u8) & 1u8 == 1u8,
            6 < k && (c >> 1u8) & 1u8 == 1u8,
            7 < k && (c >> 0u8) & 1u8 == 1u8,
        ),
{
}

proof fn lemma_unpack_byte(b0: bool, b1: bool, b2: bool, b3: bool, b4: bool, b5: bool, b6: bool, b7: bool)
    by (bit_vector)
    ensures
        ((pack8(b0, b1, b2, b3, b4, b5, b6, b7) >> 7u8) & 1u8 == 1u8) == b0,
        ((pack8(b0, b1, b2, b3, b4, b5, b6, b7) >> 6u8) & 1u8 == 1u8) == b1,
        ((pack8(b0, b1, b2, b3, b4, b5, b6, b7) >> 5u8) & 1u8 == 1u8) == b2,
        ((pack8(b0, b1, b2, b3, b4, b5, b6, b7) >> 4u8) & 1u8 == 1u8) == b3,
        ((pack8(b0, b1, b2, b3, b4, b5, b6, b7) >> 3u8) & 1u8 == 1u8) == b4,
        ((pack8(b0, b1, b2, b3, b4, b5, b6, b7) >> 2u8) & 1u8 == 1u8) == b5,
        ((pack8(b0, b1, b2, b3, b4, b5, b6, b7) >> 1u8) & 1u8 == 1u8) == b6,
        ((pack8(b0, b1, b2, b3, b4, b5, b6, b7) >> 0u8) & 1u8 == 1u8) == b7,
{
}

proof fn lemma_mask_values()
    by (bit_vector)
    ensures
        0x80u8 >> 0u8 == 0x80u8,
        0x80u8 >> 1u8 == 0x40u8,
        0x80u8 >> 2u8 == 0x20u8,
        0x80u8 >> 3u8 == 0x10u8,
        0x80u8 >> 4u8 == 0x08u8,
        0x80u8 >> 5u8 == 0x04u8,
        0x80u8 >> 6u8 == 0x02u8,
        0x80u8 >> 7u8 == 0x01u8,
{
}

proof fn lemma_put_bit(c: u8, s: u8, j: u8)
    by (bit_vector)
    requires
        s < 8,
        j < 8,
        c & (0xffu8 >> s) == 0,
    ensures
        ((((c | (0x80u8 >> s)) >> ((7 - j) as u8)) & 1u8) == 1u8) == (j == s || (((c >> ((7
            - j) as u8)) & 1u8) == 1u8)),
        (((c >> ((7 - j) as u8)) & 1u8) == 1u8) ==> j < s,
        s + 1 < 8 ==> (c | (0x80u8 >> s)) & (0xffu8 >> ((s + 1) as u8)) == 0,
        s + 1 < 8 ==> c & (0xffu8 >> ((s + 1) as u8)) == 0,
{
}

proof fn lemma_word_test(data: u32, i: u32)
    by (bit_vector)
    requires
        i < 32,
    ensures
        (data & (0x8000_0000u32 >> i) != 0) == (((data >> ((31 - i) as u32)) & 1u32) == 1u32),
{
}

/// The bits of a byte sequence, eight per byte, most significant first.
pub open spec fn bytes_to_bits(s: Seq<u8>) -> Seq<bool> {
    Seq::new(8 * s.len(), |i: int| byte_bit(s[i / 8], (i % 8) as u8))
}

proof fn lemma_bytes_to_bits_push(s: Seq<u8>, c: u8)
    ensures
        bytes_to_bits(s.push(c)) == bytes_to_bits(s) + byte_bits(c),
{
    let l = bytes_to_bits(s.push(c));
    let r = bytes_to_bits(s) + byte_bits(c);
    assert forall|i: int| 0 <= i < l.len() implies l[i] == r[i] by {
        if i < 8 * s.len() {
            assert(i / 8 < s.len());
        } else {
            assert(i / 8 == s.len());
            assert(i % 8 == i - 8 * s.len());
        }
    }
    assert(l =~= r);
}

/// What a finished stream holds: the complete bytes, then the pending bits
/// padded with zeros into one more byte (if there are any), then the
/// sentinel byte `mask_of(k)`, where `k` is the number of valid bits in the
/// byte before it (`mask_of(0)` alone for a stream that holds no bits).
pub open spec fn finished(out: Seq<u8>, pending: Seq<bool>) -> Seq<u8> {
    if pending.len() == 0 {
        out.push(mask_of(0))
    } else {
        out.push(byte_of(pending)).push(mask_of(pending.len()))
    }
}

/// Bits `8 * k` up to `8 * k + 8` of `w`, or to its end if that comes first.
pub open spec fn chunk(w: Seq<bool>, k: int) -> Seq<bool> {
    if 8 * k + 8 <= w.len() {
        w.subrange(8 * k, 8 * k + 8)
    } else {
        w.subrange(8 * k, w.len() as int)
    }
}

/// The bits `w`, eight to a byte, the last byte padded with zeros.
pub open spec fn pack_bits(w: Seq<bool>) -> Seq<u8> {
    Seq::new(((w.len() + 7) / 8) as nat, |k: int| byte_of(chunk(w, k)))
}

/// The stream that holds exactly the bits `w`: the packed bytes, then a
/// sentinel byte that marks how many bits of the last one are valid.
pub open spec fn stream_of(w: Seq<bool>) -> Seq<u8> {
    if w.len() == 0 {
        seq![mask_of(0)]
    } else {
        pack_bits(w).push(mask_of((w.len() - 8 * ((w.len() + 7) / 8 - 1)) as nat))
    }
}

proof fn lemma_byte_of_bit(s: Seq<bool>, j: int)
    requires
        0 <= j < 8,
    ensures
        byte_bit(byte_of(s), j as u8) == padded_bit(s, j),
{
    lemma_unpack_byte(
        padded_bit(s, 0),
        padded_bit(s, 1),
        padded_bit(s, 2),
        padded_bit(s, 3),
        padded_bit(s, 4),
        padded_bit(s, 5),
        padded_bit(s, 6),
        padded_bit(s, 7),
    );
}

pub proof fn lemma_byte_of_bits(b: u8)
    ensures
        byte_of(byte_bits(b)) == b,
{
    lemma_pack_byte(b, 8);
}

/// The sentinel byte tells the reader where the bits end: a stream built
/// from any non-empty bit sequence holds exactly that sequence, whatever the
/// number of padding bits in its last data byte.
pub proof fn lemma_stream_bits_of(w: Seq<bool>)
    requires
        w.len() > 0,
    ensures
        stream_bits(stream_of(w)) == w,
{
    let nb = (w.len() + 7) / 8;
    let tail = (w.len() - 8 * (nb - 1)) as nat;
    assert(1 <= tail <= 8);
    let d = stream_of(w);
    assert(d.drop_last() =~= pack_bits(w));
    assert(last_valid(mask_of(tail)) == tail);
    assert(valid_len(d) == w.len());
    let r = stream_bits(d);
    assert forall|i: int| 0 <= i < w.len() implies r[i] == w[i] by {
        let k = i / 8;
        let j = i % 8;
        assert(0 <= k < nb);
        lemma_byte_of_bit(chunk(w, k), j);
        assert(chunk(w, k)[j] == w[i]);
    }
    assert(r =~= w);
}

/// Packs bits into bytes, most significant bit first, and closes the stream
/// with a sentinel byte. A byte is emitted once its eight bits are in and a
/// further bit arrives, so a writer that has been given any bits always holds
/// some pending ones. The writer owns the bytes it produces and hands them
/// back only through `final_flush_with_offset`, which consumes it: a stream
/// is finished once, and nothing can be written after its sentinel.
pub struct BitsWriter {
    writer: Vec<u8>,
    mask: u8,
    shift: u8,
    current_byte: u8,
}

impl BitsWriter {
    pub closed spec fn wf(&self) -> bool {
        &&& self.shift <= 8
        &&& self.mask == mask_of(self.shift as nat)
        &&& self.shift < 8 ==> self.current_byte & (0xffu8 >> self.shift) == 0
    }

    /// The complete bytes emitted so far.
    pub closed spec fn bytes(&self) -> Seq<u8> {
        self.writer@
    }

    /// The bits of the byte being filled (at most eight).
    pub closed spec fn pending(&self) -> Seq<bool> {
        byte_bits(self.current_byte).take(self.shift as int)
    }

    /// Every bit this writer holds, in order.
    pub open spec fn written(&self) -> Seq<bool> {
        bytes_to_bits(self.bytes()) + self.pending()
    }

    proof fn lemma_pending_byte(&self)
        requires
            self.wf(),
        ensures
            self.pending().len() == self.shift,
            self.pending().len() <= 8,
            byte_of(self.pending()) == self.current_byte,
    {
        lemma_pack_byte(self.current_byte, self.shift);
        let p = self.pending();
        assert(padded_bit(p, 0) == (0 < self.shift && (self.current_byte >> 7u8) & 1u8 == 1u8));
        assert(padded_bit(p, 1) == (1 < self.shift && (self.current_byte >> 6u8) & 1u8 == 1u8));
        assert(padded_bit(p, 2) == (2 < self.shift && (self.current_byte >> 5u8) & 1u8 == 1u8));
        assert(padded_bit(p, 3) == (3 < self.shift && (self.current_byte >> 4u8) & 1u8 == 1u8));
        assert(padded_bit(p, 4) == (4 < self.shift && (self.current_byte >> 3u8) & 1u8 == 1u8));
        assert(padded_bit(p, 5) == (5 < self.shift && (self.current_byte >> 2u8) & 1u8 == 1u8));
        assert(padded_bit(p, 6) == (6 < self.shift && (self.current_byte >> 1u8) & 1u8 == 1u8));
        assert(padded_bit(p, 7) == (7 < self.shift && (self.current_byte >> 0u8) & 1u8 == 1u8));
    }

    proof fn lemma_finished(&self)
        requires
            self.wf(),
            self.pending().len() > 0 || self.bytes().len() == 0,
        ensures
            finished(self.bytes(), self.pending()) == stream_of(self.written()),
    {
        self.lemma_pending_byte();
        let w = self.written();
        let out = self.bytes();
        let p = self.pending();
        if p.len() == 0 {
            assert(w.len() == 0);
            assert(finished(out, p) =~= stream_of(w));
        } else {
            let n = out.len();
            assert((w.len() + 7) / 8 == n + 1);
            let packed = pack_bits(w);
            assert forall|k: int| 0 <= k < n implies packed[k] == out[k] by {
                assert(chunk(w, k) =~= byte_bits(out[k])) by {
                    assert forall|j: int| 0 <= j < 8 implies chunk(w, k)[j] == byte_bits(out[k])[j] by {
                        assert((8 * k + j) / 8 == k);
                        assert((8 * k + j) % 8 == j);
                    }
                }
                lemma_byte_of_bits(out[k]);
            }
            assert(chunk(w, n as int) =~= p);
            assert(packed =~= out.push(byte_of(p)));
        }
    }

    /// A writer that appends to the bytes already in `writer`.
    pub fn new(writer: Vec<u8>) -> (r: Self)
        ensures
            r.wf(),
            r.bytes() == writer@,
            r.pending() == Seq::<bool>::empty(),
    {
        let r = Self { writer, mask: 0x80, shift: 0, current_byte: 0 };
        assert(0u8 & (0xffu8 >> 0u8) == 0) by (bit_vector);
        assert(r.pending() =~= Seq::<bool>::empty());
        r
    }

    /// Appends the bits of `bits`, in order.
    pub fn write(&mut self, bits: &Bits)
        requires
            old(self).wf(),
            bits.wf(),
        ensures
            final(self).wf(),
            final(self).written() == old(self).written() + bits@,
            bits@.len() > 0 ==> final(self).pending().len() > 0,
            bits@.len() == 0 ==> final(self).bytes() == old(self).bytes() && final(self).pending()
                == old(self).pending(),
    {
        let n = bits.amount_of_bits;
        let mut i: u8 = 0;
        while i < n
            invariant
                self.wf(),
                bits.wf(),
                n == bits.amount_of_bits,
                i <= n,
                self.written() == old(self).written() + bits@.take(i as int),
                i > 0 ==> self.pending().len() > 0,
                i == 0 ==> self.bytes() == old(self).bytes() && self.pending() == old(self).pending(),
            decreases n - i,
        {
            if self.mask == 0 {
                self.flush();
            }
            proof {
                lemma_mask_values();
                lemma_word_test(bits.data, i as u32);
            }
            let s = self.shift;
            let bit = bits.data & (0x8000_0000u32 >> i as u32) != 0;
            let ghost before = self.written();
            let ghost c = self.current_byte;
            assert(self.mask == 0x80u8 >> s);
            if bit {
                self.current_byte = self.current_byte | self.mask;
            }
            assert forall|j: int| 0 <= j < s + 1 implies #[trigger] byte_bits(self.current_byte)[j]
                == byte_bits(c).take(s as int).push(bit)[j] by {
                lemma_put_bit(c, s, j as u8);
            }
            proof {
                lemma_put_bit(c, s, 0);
                lemma_mask_shifts();
            }
            self.mask = self.mask >> 1;
            self.shift = self.shift + 1;
            assert(self.pending() =~= byte_bits(c).take(s as int).push(bit));
            assert(bits@.take(i + 1) =~= bits@.take(i as int).push(bit));
            assert(self.written() =~= before.push(bit));
            i = i + 1;
        }
        assert(bits@.take(n as int) =~= bits@);
    }

    /// Emits the pending bits as one byte, padded with zeros.
    pub fn flush(&mut self)
        requires
            old(self).wf(),
        ensures
            final(self).wf(),
            final(self).bytes() == old(self).bytes().push(byte_of(old(self).pending())),
            final(self).pending() == Seq::<bool>::empty(),
            old(self).pending().len() == 8 ==> final(self).written() == old(self).written(),
    {
        proof {
            self.lemma_pending_byte();
            lemma_bytes_to_bits_push(self.writer@, self.current_byte);
            assert(self.shift == 8 ==> self.pending() =~= byte_bits(self.current_byte));
        }
        self.writer.push(self.current_byte);
        self.current_byte = 0;
        self.mask = 0x80;
        self.shift = 0;
        assert(0u8 & (0xffu8 >> 0u8) == 0) by (bit_vector);
        assert(self.pending() =~= Seq::<bool>::empty());
    }

    /// Finishes the stream: emits the pending bits, if any, padded into one
    /// byte, then the sentinel byte, and hands back all the bytes.
    pub fn final_flush_with_offset(self) -> (r: Vec<u8>)
        requires
            self.wf(),
        ensures
            r@ == finished(self.bytes(), self.pending()),
            self.pending().len() > 0 || self.bytes().len() == 0 ==> r@ == stream_of(self.written()),
    {
        proof {
            self.lemma_pending_byte();
            if self.pending().len() > 0 || self.bytes().len() == 0 {
                self.lemma_finished();
            }
        }
        let sentinel = self.mask;
        let mut out = self.writer;
        if self.mask != 0x80 {
            out.push(self.current_byte);
        }
        out.push(sentinel);
        out
    }
}

/// How many bits a stream holds: all eight of each byte but the last two,
/// then as many of the second-to-last as the sentinel byte at the end
/// declares. A stream shorter than two bytes holds none.
pub open spec fn valid_len(d: Seq<u8>) -> nat {
    if d.len() < 2 {
        0
    } else {
        (8 * (d.len() - 2) + last_valid(d.last())) as nat
    }
}

/// The bits a stream holds, in the order they were written.
pub open spec fn stream_bits(d: Seq<u8>) -> Seq<bool> {
    if d.len() < 2 {
        Seq::empty()
    } else {
        bytes_to_bits(d.drop_last()).take(valid_len(d) as int)
    }
}

/// The number that bits `s` spell in binary, most significant first.
pub open spec fn bits_value(s: Seq<bool>) -> nat
    decreases s.len(),
{
    if s.len() == 0 {
        0
    } else {
        2 * bits_value(s.drop_last()) + if s.last() {
            1nat
        } else {
            0nat
        }
    }
}

proof fn lemma_pack8_sum(b0: bool, b1: bool, b2: bool, b3: bool, b4: bool, b5: bool, b6: bool, b7: bool)
    by (bit_vector)
    ensures
        pack8(b0, b1, b2, b3, b4, b5, b6, b7) == (if b0 { 0x80u8 } else { 0u8 }) + (if b1 { 0x40u8 } else { 0u8 })
            + (if b2 { 0x20u8 } else { 0u8 }) + (if b3 { 0x10u8 } else { 0u8 }) + (if b4 { 0x08u8 } else { 0u8 })
            + (if b5 { 0x04u8 } else { 0u8 }) + (if b6 { 0x02u8 } else { 0u8 }) + (if b7 { 0x01u8 } else { 0u8 }),
{
}

proof fn lemma_bits_value_byte(s: Seq<bool>)
    requires
        s.len() == 8,
    ensures
        bits_value(s) == byte_of(s) as nat,
{
    reveal_with_fuel(bits_value, 9);
    lemma_pack8_sum(s[0], s[1], s[2], s[3], s[4], s[5], s[6], s[7]);
    assert(s.drop_last().drop_last().drop_last().drop_last().drop_last().drop_last().drop_last().drop_last().len() == 0);
}

proof fn lemma_mask_index(m: u8, s: u8)
    requires
        m == mask_of(last_valid(m)),
        last_valid(m) <= last_valid(s),
    ensures
        (m == s || m == 0) <==> last_valid(m) == last_valid(s),
        last_valid(m) < 8 ==> m != 0,
{
}

/// Reads back the bits of a stream, through a window of three bytes: the
/// current one, the next, and the one after it, which is absent once the
/// next byte is the sentinel.
pub struct BitsReader {
    bytes: Vec<u8>,
    pos: usize,
    mask: u8,
    current_byte: u8,
    next_byte: u8,
    next_next_byte: Option<u8>,
}

impl BitsReader {
    pub closed spec fn wf(&self) -> bool {
        let n = self.bytes@.len();
        &&& n >= 2
        &&& self.pos + 2 <= n
        &&& self.current_byte == self.bytes@[self.pos as int]
        &&& self.next_byte == self.bytes@[self.pos + 1]
        &&& self.next_next_byte == if self.pos + 2 < n {
            Some(self.bytes@[self.pos + 2])
        } else {
            None
        }
        &&& self.mask == mask_of(last_valid(self.mask))
        &&& self.pos + 2 < n ==> last_valid(self.mask) < 8
        &&& self.pos + 2 == n ==> last_valid(self.mask) <= last_valid(self.next_byte)
    }

    /// The stream being read.
    pub closed spec fn source(&self) -> Seq<u8> {
        self.bytes@
    }

    /// How many of the stream's bits have been read.
    pub closed spec fn consumed(&self) -> nat {
        (8 * self.pos + last_valid(self.mask)) as nat
    }

    /// The bits still to be read.
    pub open spec fn remaining(&self) -> Seq<bool> {
        stream_bits(self.source()).skip(self.consumed() as int)
    }

    proof fn lemma_consumed_in_stream(&self)
        requires
            self.wf(),
        ensures
            self.consumed() <= valid_len(self.source()),
            self.remaining().len() == valid_len(self.source()) - self.consumed(),
            self.next_next_byte.is_some() ==> self.remaining().len() >= 8 - last_valid(self.mask),
            self.next_next_byte.is_none() ==> self.remaining().len() == last_valid(self.next_byte)
                - last_valid(self.mask),
    {
        let d = self.bytes@;
        assert(d.last() == d[d.len() - 1]);
    }

    /// A reader never gets past the end of its stream.
    pub proof fn lemma_within_stream(&self)
        requires
            self.wf(),
        ensures
            self.consumed() <= valid_len(self.source()),
            self.remaining().len() == valid_len(self.source()) - self.consumed(),
    {
        self.lemma_consumed_in_stream();
    }

    /// A reader positioned at the first bit of `input`, or `None` where
    /// `input` is too short to be a stream (a stream ends with a data byte and
    /// a sentinel byte).
    pub fn new(input: Vec<u8>) -> (r: Option<Self>)
        ensures
            r is None <==> input@.len() < 2,
            r matches Some(reader) ==> reader.wf() && reader.source() == input@ && reader.consumed()
                == 0,
    {
        if input.len() < 2 {
            return None;
        }
        let current_byte = input[0];
        let next_byte = input[1];
        let next_next_byte = if input.len() > 2 {
            Some(input[2])
        } else {
            None
        };
        Some(Self { bytes: input, pos: 0, mask: 0x80, current_byte, next_byte, next_next_byte })
    }

    /// Whether at least `n` bits are left to read.
    pub fn has_bits(&self, n: u8) -> (r: bool)
        requires
            self.wf(),
            n <= 8,
        ensures
            r == (self.remaining().len() >= n),
    {
        proof {
            self.lemma_consumed_in_stream();
        }
        let done = valid_bits_of(self.mask);
        if self.next_next_byte.is_none() {
            valid_bits_of(self.next_byte) - done >= n
        } else if self.bytes.len() - self.pos > 3 {
            proof {
                let d = self.bytes@;
                assert(d.last() == d[d.len() - 1]);
            }
            true
        } else {
            proof {
                let d = self.bytes@;
                assert(d.last() == d[d.len() - 1]);
                assert(d.last() == self.bytes@[self.pos + 2]);
            }
            8 - done + valid_bits_of(self.next_next_byte.unwrap()) >= n
        }
    }

    /// The next bit, or `None` once every bit of the stream has been read.
    pub fn read_safe(&mut self) -> (r: Option<bool>)
        requires
            old(self).wf(),
        ensures
            final(self).wf(),
            final(self).source() == old(self).source(),
            old(self).remaining().len() == 0 ==> r is None && final(self).consumed() == old(
                self,
            ).consumed(),
            old(self).remaining().len() > 0 ==> r == Some(old(self).remaining()[0])
                && final(self).consumed() == old(self).consumed() + 1
                && final(self).remaining() == old(self).remaining().drop_first(),
            final(self).remaining().len() == if old(self).remaining().len() == 0 {
                0
            } else {
                old(self).remaining().len() - 1
            },
    {
        proof {
            self.lemma_consumed_in_stream();
            if self.next_next_byte.is_none() {
                lemma_mask_index(self.mask, self.next_byte);
            }
        }
        let n = self.bytes.len();
        if self.next_next_byte.is_none() && (self.mask == self.next_byte || self.mask == 0) {
            return None;
        }
        let ghost j = last_valid(self.mask);
        let ghost c = self.consumed();
        assert(stream_bits(self.bytes@)[c as int] == byte_bit(self.current_byte, j as u8)) by {
            let d = self.bytes@;
            assert(c / 8 == self.pos);
            assert(c % 8 == j);
            assert(d.drop_last()[self.pos as int] == self.current_byte);
        }
        proof {
            lemma_mask_tests(self.current_byte);
            lemma_mask_shifts();
        }
        let result = self.current_byte & self.mask == self.mask;
        self.mask = self.mask >> 1;
        assert(self.mask == mask_of(j + 1));
        if self.mask == 0 && self.next_next_byte.is_some() {
            self.pos = self.pos + 1;
            self.current_byte = self.next_byte;
            self.next_byte = self.next_next_byte.unwrap();
            self.next_next_byte = if self.pos + 2 < self.bytes.len() {
                Some(self.bytes[self.pos + 2])
            } else {
                None
            };
            self.mask = 0x80;
        }
        proof {
            self.lemma_consumed_in_stream();
        }
        assert(self.remaining() =~= old(self).remaining().drop_first());
        Some(result)
    }

    /// The next bit; there must be one.
    pub fn read(&mut self) -> (r: bool)
        requires
            old(self).wf(),
            old(self).remaining().len() > 0,
        ensures
            final(self).wf(),
            final(self).source() == old(self).source(),
            r == old(self).remaining()[0],
            final(self).consumed() == old(self).consumed() + 1,
            final(self).remaining() == old(self).remaining().drop_first(),
    {
        let r = self.read_safe();
        assert(self.remaining() =~= old(self).remaining().drop_first());
        r.unwrap()
    }

    /// The next eight bits as a byte, most significant first; there must be
    /// eight left.
    pub fn read_byte(&mut self) -> (r: u8)
        requires
            old(self).wf(),
            old(self).remaining().len() >= 8,
        ensures
            final(self).wf(),
            final(self).source() == old(self).source(),
            r == byte_of(old(self).remaining().take(8)),
            final(self).consumed() == old(self).consumed() + 8,
            final(self).remaining() == old(self).remaining().skip(8),
    {
        let ghost start = self.remaining();
        let mut acc: u8 = 0;
        let mut k: u8 = 0;
        proof {
            lemma2_to64();
            assert(start.take(0) =~= Seq::<bool>::empty());
        }
        while k < 8
            invariant
                self.wf(),
                self.source() == old(self).source(),
                k <= 8,
                start == old(self).remaining(),
                start.len() >= 8,
                self.remaining() == start.skip(k as int),
                self.consumed() == old(self).consumed() + k,
                acc as nat == bits_value(start.take(k as int)),
                bits_value(start.take(k as int)) < pow2(k as nat),
            decreases 8 - k,
        {
            proof {
                lemma_pow2_unfold((k + 1) as nat);
                lemma2_to64();
            }
            let bit = self.read();
            assert(start.take(k + 1).drop_last() =~= start.take(k as int));
            assert(start.skip(k + 1) =~= start.skip(k as int).drop_first());
            acc = acc * 2 + if bit {
                1u8
            } else {
                0u8
            };
            k = k + 1;
        }
        proof {
            lemma_bits_value_byte(start.take(8));
        }
        acc
    }
}

/// `last_valid`, computed.
fn valid_bits_of(s: u8) -> (r: u8)
    ensures
        r == last_valid(s),
{
    if s == 0x80 {
        0
    } else if s == 0x40 {
        1
    } else if s == 0x20 {
        2
    } else if s == 0x10 {
        3
    } else if s == 0x08 {
        4
    } else if s == 0x04 {
        5
    } else if s == 0x02 {
        6
    } else if s == 0x01 {
        7
    } else {
        8
    }
}

} // verus!
