//! The fixed 128-byte frame: a 32 by 32 bit matrix whose diagonal carries a check value.
//!
//! Bit `i` of slot `i` belongs to the check value, the other 992 bits are data. Frames travel as
//! 32 words in network byte order. [`Frame32::to_bytes`] signs the diagonal with the CRC-32C of
//! the data and [`Frame32::from_bytes`] accepts nothing else. The older per-row parity diagonal
//! is still available through [`Frame32::update_parity`] and its companions.

use vstd::prelude::*;

use crate::bits;
use crate::crc;
use crate::text;
use crate::weight;

verus! {

/// A frame is 32 slots of 32 bits.
#[derive(Clone, Copy, Debug, PartialEq, Eq)]
pub struct Frame32(pub [u32; 32]);

impl View for Frame32 {
    type V = Seq<u32>;

    open spec fn view(&self) -> Seq<u32> {
        self.0@
    }
}

/// Why bytes are not a frame.
#[derive(Clone, Copy, Debug, PartialEq, Eq)]
pub enum FrameError {
    /// The input does not have 128 bytes.
    WrongLength(usize),
    /// The diagonal is not the CRC-32C of the data.
    CrcMismatch,
    /// Some row has odd parity.
    ParityMismatch,
    /// The input ended early.
    Truncated,
    /// The header names no known operation.
    UnknownOp(u32),
}

/// An error in words.
pub open spec fn message_of(e: FrameError) -> Seq<char> {
    match e {
        FrameError::WrongLength(n) => "frame length "@ + text::digits(n as nat, 10) + " != 128"@,
        FrameError::CrcMismatch => "frame crc mismatch"@,
        FrameError::ParityMismatch => "frame parity mismatch"@,
        FrameError::Truncated => "frame truncated"@,
        FrameError::UnknownOp(op) => "unknown op "@ + text::digits(op as nat, 10),
    }
}

impl FrameError {
    /// The error in words.
    pub fn message(&self) -> (s: String)
        ensures
            s@ == message_of(*self),
    {
        match self {
            FrameError::WrongLength(n) => {
                let mut s: String = "frame length ".to_owned();
                text::push_number(&mut s, *n as u64, 10);
                s.append(" != 128");
                s
            },
            FrameError::CrcMismatch => "frame crc mismatch".to_owned(),
            FrameError::ParityMismatch => "frame parity mismatch".to_owned(),
            FrameError::Truncated => "frame truncated".to_owned(),
            FrameError::UnknownOp(op) => {
                let mut s: String = "unknown op ".to_owned();
                text::push_number(&mut s, *op as u64, 10);
                s
            },
        }
    }
}

/// The slots with every diagonal bit cleared.
pub open spec fn clear_diagonal(s: Seq<u32>) -> Seq<u32> {
    Seq::new(32, |i: int| s[i] & !bits::unit(i))
}

/// The first `n` diagonal bits collected into a word: bit `i` of slot `i` becomes bit `i`.
pub open spec fn diagonal_part(s: Seq<u32>, n: nat) -> u32
    decreases n,
{
    if n == 0 {
        0
    } else {
        diagonal_part(s, (n - 1) as nat) ^ (s[n - 1] & bits::unit(n - 1))
    }
}

/// The diagonal as a word.
pub open spec fn diagonal(s: Seq<u32>) -> u32 {
    diagonal_part(s, 32)
}

/// The slots with bit `i` of `value` placed at bit `i` of slot `i`.
pub open spec fn with_diagonal(s: Seq<u32>, value: u32) -> Seq<u32> {
    Seq::new(32, |i: int| (s[i] & !bits::unit(i)) | (value & bits::unit(i)))
}

/// The slots in network byte order.
pub open spec fn wire_bytes(s: Seq<u32>) -> Seq<u8> {
    Seq::new(128, |k: int| bits::be_byte(s[k / 4], k % 4))
}

/// The word that the four bytes from `4 * i` on spell.
pub open spec fn word_at(b: Seq<u8>, i: int) -> u32 {
    bits::be_word(b[4 * i], b[4 * i + 1], b[4 * i + 2], b[4 * i + 3])
}

/// The slots that 128 bytes in network order spell.
pub open spec fn slots_of(b: Seq<u8>) -> Seq<u32> {
    Seq::new(32, |i: int| word_at(b, i))
}

/// The check value that belongs on the diagonal: the CRC-32C of the data in network order.
pub open spec fn data_checksum(s: Seq<u32>) -> u32 {
    crc::checksum(wire_bytes(clear_diagonal(s)))
}

/// Whether the diagonal carries the check value of the data.
pub open spec fn crc_ok(s: Seq<u32>) -> bool {
    data_checksum(s) == diagonal(s)
}

/// The slots signed with their check value.
pub open spec fn signed(s: Seq<u32>) -> Seq<u32> {
    with_diagonal(s, data_checksum(s))
}

/// Whether every row has an even number of one bits.
pub open spec fn parity_ok(s: Seq<u32>) -> bool {
    forall|i: int| 0 <= i < 32 ==> weight::weight(#[trigger] s[i] as nat) % 2 == 0
}

/// One row with its diagonal bit chosen so that the row has even parity.
pub open spec fn even_row(w: u32, i: int) -> u32 {
    let data = w & !bits::unit(i);
    data | (if weight::weight(data as nat) % 2 == 1 { bits::unit(i) } else { 0 })
}

/// The slots with every row made even.
pub open spec fn even_rows(s: Seq<u32>) -> Seq<u32> {
    Seq::new(32, |i: int| even_row(s[i], i))
}

/// The 31 data bits of a row whose diagonal bit stands at `slot`: the bits above close up.
pub open spec fn field(w: u32, slot: u32) -> u32 {
    (w & (((1u32 << slot) - 1) as u32)) | ((w >> 1) & !(((1u32 << slot) - 1) as u32))
}

/// The row with its data bits replaced by the low 31 bits of `v`, the diagonal bit kept.
pub open spec fn with_field(w: u32, slot: u32, v: u32) -> u32 {
    (w & (1u32 << slot)) | (v & (((1u32 << slot) - 1) as u32)) | ((v & 0x7FFF_FFFF & !(((1u32 << slot)
        - 1) as u32)) << 1)
}

/// Slot 0 of a message: operation and sequence number.
pub open spec fn header(op: u32, msg_seq: u32) -> u32 {
    ((op & 0xFF) << 23) | (msg_seq & 0x007F_FFFF)
}

/// How the data of a row and its diagonal bit go together.
pub proof fn field_bits(w: u32, slot: u32, v: u32)
    by (bit_vector)
    requires
        slot < 32,
    ensures
        field(with_field(w, slot, v), slot) == v & 0x7FFF_FFFF,
        with_field(w, slot, v) & (1u32 << slot) == w & (1u32 << slot),
        with_field(w, slot, field(w, slot)) == w,
        field(w, slot) <= 0x7FFF_FFFF,
        field(w & !(1u32 << slot), slot) == field(w, slot),
        field(0, slot) == 0,
        slot < 31 ==> with_field(w, slot, v) == (w & (1u32 << slot)) | ((v & 0x7FFF_FFFF) & (((1u32
            << slot) - 1) as u32)) | (((v & 0x7FFF_FFFF) >> slot) << ((slot + 1) as u32)),
        slot == 31 ==> with_field(w, slot, v) == (w & (1u32 << slot)) | ((v & 0x7FFF_FFFF) & (((1u32
            << slot) - 1) as u32)) | 0,
        slot < 31 ==> field(w, slot) == (((w & !(1u32 << slot)) & (((1u32 << slot) - 1) as u32)) | (((
        w & !(1u32 << slot)) >> ((slot + 1) as u32)) << slot)) & 0x7FFF_FFFF,
        slot == 31 ==> field(w, slot) == (((w & !(1u32 << slot)) & (((1u32 << slot) - 1) as u32)) | 0)
            & 0x7FFF_FFFF,
        slot == 0 ==> ((1u32 << slot) - 1) == 0,
        1u32 << slot >= 1,
        with_field(w, slot, v & 0x7FFF_FFFF) == with_field(w, slot, v),
        with_field(0, slot, 0) == 0,
        field((w & !(1u32 << slot)) | (v & (1u32 << slot)), slot) == field(w, slot),
{
}

/// Operation and sequence number are found again in the header.
pub proof fn header_bits(op: u32, seq: u32)
    by (bit_vector)
    ensures
        ((header(op, seq) & 0x7FFF_FFFF) >> 23) & 0xFF == op & 0xFF,
        (header(op, seq) & 0x7FFF_FFFF) & 0x007F_FFFF == seq & 0x007F_FFFF,
        header(op, seq) & 0x7FFF_FFFF == header(op, seq),
        op & 0x7FFF_FFFF == op % 0x8000_0000,
        op <= 0xFF ==> op & 0xFF == op,
{
}

impl Frame32 {
    /// The empty frame.
    pub fn new() -> (f: Self)
        ensures
            f@ == Seq::new(32, |i: int| 0u32),
    {
        let f = Frame32([0u32; 32]);
        assert(f@ =~= Seq::new(32, |i: int| 0u32));
        f
    }

    /// The data bits of slot `slot`.
    pub open spec fn field(&self, slot: int) -> u32 {
        field(self@[slot], slot as u32)
    }

    /// Stores the low 31 bits of `value` as the data of slot `slot`; the diagonal bit and the
    /// other slots stay as they are.
    pub fn set(&mut self, slot: usize, value: u32)
        requires
            slot < 32,
        ensures
            final(self)@ == old(self)@.update(
                slot as int,
                with_field(old(self)@[slot as int], slot as u32, value),
            ),
    {
        let k: u32 = slot as u32;
        let w: u32 = self.0[slot];
        proof {
            field_bits(w, k, value);
        }
        let v: u32 = value & 0x7FFF_FFFF;
        let lo_mask: u32 = (1u32 << k) - 1;
        let lo: u32 = v & lo_mask;
        let hi: u32 = if k >= 31 {
            0
        } else {
            (v >> k) << (k + 1)
        };
        let keep: u32 = w & (1u32 << k);
        self.0[slot] = keep | lo | hi;
    }

    /// The 31 data bits of slot `slot`.
    pub fn get(&self, slot: usize) -> (v: u32)
        requires
            slot < 32,
        ensures
            v == self.field(slot as int),
            v <= 0x7FFF_FFFF,
    {
        let k: u32 = slot as u32;
        let w: u32 = self.0[slot];
        proof {
            field_bits(w, k, 0);
        }
        let s: u32 = w & !(1u32 << k);
        let lo_mask: u32 = (1u32 << k) - 1;
        let lo: u32 = s & lo_mask;
        let hi: u32 = if k >= 31 {
            0
        } else {
            (s >> (k + 1)) << k
        };
        (lo | hi) & 0x7FFF_FFFF
    }

    /// Sets every diagonal bit so that its row has an even number of one bits; the data stays.
    pub fn update_parity(&mut self)
        ensures
            final(self)@ == even_rows(old(self)@),
    {
        let mut i: usize = 0;
        while i < 32
            invariant
                i <= 32,
                forall|j: int| 0 <= j < i ==> self@[j] == #[trigger] even_row(old(self)@[j], j),
                forall|j: int| i <= j < 32 ==> self@[j] == old(self)@[j],
            decreases 32 - i,
        {
            let k: u32 = i as u32;
            let w: u32 = self.0[i];
            proof {
                bits::unit_facts(w, 0, 0, k, 0);
            }
            let val: u32 = w & !(1u32 << k);
            let ones: u32 = val.count_ones();
            let p: u32 = ones & 1;
            proof {
                bits::word_rules(ones, 0, 0, 0);
            }
            self.0[i] = val | (p << k);
            i += 1;
        }
        assert(self@ =~= even_rows(old(self)@));
    }

    /// Whether every row has an even number of one bits.
    pub fn verify_parity(&self) -> (ok: bool)
        ensures
            ok == parity_ok(self@),
    {
        let mut i: usize = 0;
        while i < 32
            invariant
                i <= 32,
                forall|j: int|
                    0 <= j < i ==> weight::weight(#[trigger] self@[j] as nat) % 2 == 0,
            decreases 32 - i,
        {
            let w: u32 = self.0[i];
            let ones: u32 = w.count_ones();
            proof {
                bits::word_rules(ones, 0, 0, 0);
                assert(weight::weight(self@[i as int] as nat) == ones);
            }
            if ones & 1 != 0 {
                return false;
            }
            i += 1;
        }
        true
    }

    /// The data in network byte order, with zeroes on the diagonal.
    pub fn body_bytes(&self) -> (out: [u8; 128])
        ensures
            out@ == wire_bytes(clear_diagonal(self@)),
    {
        let mut cleared = *self;
        let mut i: usize = 0;
        while i < 32
            invariant
                i <= 32,
                forall|j: int| 0 <= j < i ==> cleared@[j] == self@[j] & !#[trigger] bits::unit(j),
                forall|j: int| i <= j < 32 ==> cleared@[j] == self@[j],
            decreases 32 - i,
        {
            proof {
                bits::unit_facts(0, 0, 0, i as u32, 0);
                assert(bits::unit(i as int) == 1u32 << (i as u32));
            }
            cleared.0[i] = cleared.0[i] & !(1u32 << (i as u32));
            i += 1;
        }
        assert(cleared@ =~= clear_diagonal(self@));
        cleared.raw_bytes()
    }

    /// The slots in network byte order, as they are.
    pub fn raw_bytes(&self) -> (out: [u8; 128])
        ensures
            out@ == wire_bytes(self@),
    {
        let mut out: [u8; 128] = [0u8; 128];
        let mut i: usize = 0;
        while i < 32
            invariant
                i <= 32,
                forall|k: int| 0 <= k < 4 * i ==> #[trigger] out@[k] == bits::be_byte(self@[k / 4], k % 4),
            decreases 32 - i,
        {
            let w: u32 = self.0[i];
            out[4 * i] = (w >> 24) as u8;
            out[4 * i + 1] = (w >> 16) as u8;
            out[4 * i + 2] = (w >> 8) as u8;
            out[4 * i + 3] = w as u8;
            i += 1;
        }
        assert(out@ =~= wire_bytes(self@));
        out
    }

    /// Reads 32 slots in network byte order, whatever is on their diagonal.
    fn from_raw_bytes(b: &[u8]) -> (f: Self)
        requires
            b@.len() == 128,
        ensures
            f@ == slots_of(b@),
    {
        let mut f = Frame32::new();
        let mut i: usize = 0;
        while i < 32
            invariant
                i <= 32,
                b@.len() == 128,
                forall|j: int| 0 <= j < i ==> f@[j] == #[trigger] word_at(b@, j),
            decreases 32 - i,
        {
            let p: u8 = b[4 * i];
            let q: u8 = b[4 * i + 1];
            let r: u8 = b[4 * i + 2];
            let t: u8 = b[4 * i + 3];
            let w: u32 = ((p as u32) << 24) | ((q as u32) << 16) | ((r as u32) << 8) | (t as u32);
            assert(w == word_at(b@, i as int));
            f.0[i] = w;
            i += 1;
        }
        assert(f@ =~= slots_of(b@));
        f
    }

    /// The word on the diagonal.
    pub fn diagonal(&self) -> (d: u32)
        ensures
            d == diagonal(self@),
    {
        let mut d: u32 = 0;
        let mut i: usize = 0;
        while i < 32
            invariant
                i <= 32,
                d == diagonal_part(self@, i as nat),
            decreases 32 - i,
        {
            let w: u32 = self.0[i];
            proof {
                bits::unit_facts(0, 0, 0, i as u32, 0);
                assert(bits::unit(i as int) == 1u32 << (i as u32));
            }
            d = d ^ (w & (1u32 << (i as u32)));
            i += 1;
        }
        d
    }

    /// Places `value` on the diagonal, bit `i` at slot `i`; the data stays.
    pub fn set_diagonal(&mut self, value: u32)
        ensures
            final(self)@ == with_diagonal(old(self)@, value),
    {
        let mut i: usize = 0;
        while i < 32
            invariant
                i <= 32,
                forall|j: int|
                    0 <= j < i ==> self@[j] == (old(self)@[j] & !#[trigger] bits::unit(j)) | (value
                        & bits::unit(j)),
                forall|j: int| i <= j < 32 ==> self@[j] == old(self)@[j],
            decreases 32 - i,
        {
            proof {
                bits::unit_facts(0, 0, 0, i as u32, 0);
                assert(bits::unit(i as int) == 1u32 << (i as u32));
            }
            let u: u32 = 1u32 << (i as u32);
            self.0[i] = (self.0[i] & !u) | (value & u);
            i += 1;
        }
        assert(self@ =~= with_diagonal(old(self)@, value));
    }

    /// Signs the frame: writes the CRC-32C of the data onto the diagonal; the data stays.
    pub fn update_crc(&mut self)
        ensures
            final(self)@ == signed(old(self)@),
            crc_ok(final(self)@),
    {
        let body = self.body_bytes();
        let value: u32 = crc32c::crc32c(body.as_slice());
        self.set_diagonal(value);
        proof {
            signing_verifies(old(self)@);
        }
    }

    /// Whether the diagonal carries the CRC-32C of the data.
    pub fn verify_crc(&self) -> (ok: bool)
        ensures
            ok == crc_ok(self@),
    {
        let body = self.body_bytes();
        let value: u32 = crc32c::crc32c(body.as_slice());
        value == self.diagonal()
    }

    /// The operation code in the header.
    pub fn op(&self) -> (op: u32)
        ensures
            op == (self.field(0) >> 23) & 0xFF,
    {
        (self.get(0) >> 23) & 0xFF
    }

    /// Writes operation (8 bits) and sequence number (23 bits) into slot 0.
    pub fn set_header(&mut self, op: u32, msg_seq: u32)
        ensures
            final(self)@ == old(self)@.update(0, with_field(old(self)@[0], 0, header(op, msg_seq))),
    {
        let h: u32 = ((op & 0xFF) << 23) | (msg_seq & 0x007F_FFFF);
        self.set(0, h);
    }

    /// The sequence number in the header.
    pub fn msg_seq(&self) -> (seq: u32)
        ensures
            seq == self.field(0) & 0x007F_FFFF,
    {
        self.get(0) & 0x007F_FFFF
    }

    /// The leaf bitmap kept as the data of slot `slot`.
    pub fn leaf_bitmap(&self, slot: usize) -> (mask: u32)
        requires
            slot < 32,
        ensures
            mask == self.field(slot as int),
    {
        self.get(slot)
    }

    /// Stores the low 31 bits of `mask` as the leaf bitmap of slot `slot`.
    pub fn set_leaf_bitmap(&mut self, slot: usize, mask: u32)
        requires
            slot < 32,
        ensures
            final(self)@ == old(self)@.update(
                slot as int,
                with_field(old(self)@[slot as int], slot as u32, mask),
            ),
    {
        proof {
            field_bits(old(self)@[slot as int], slot as u32, mask);
        }
        self.set(slot, mask & 0x7FFF_FFFF);
    }

    /// The signed frame as 128 bytes.
    pub fn to_bytes(&self) -> (out: [u8; 128])
        ensures
            out@ == wire_bytes(signed(self@)),
    {
        let mut frame = *self;
        frame.update_crc();
        frame.raw_bytes()
    }

    /// Reads a signed frame. Fails if there are not 128 bytes, and if the diagonal is not the
    /// CRC-32C of the data.
    pub fn from_bytes(b: &[u8]) -> (r: Result<Self, FrameError>)
        ensures
            match r {
                Ok(f) => b@.len() == 128 && crc_ok(slots_of(b@)) && f@ == slots_of(b@),
                Err(FrameError::WrongLength(n)) => n == b@.len() && b@.len() != 128,
                Err(FrameError::CrcMismatch) => b@.len() == 128 && !crc_ok(slots_of(b@)),
                Err(_) => false,
            },
    {
        if b.len() != 128 {
            return Err(FrameError::WrongLength(b.len()));
        }
        let f = Frame32::from_raw_bytes(b);
        if !f.verify_crc() {
            return Err(FrameError::CrcMismatch);
        }
        Ok(f)
    }

    /// The frame as 128 bytes with every row made even, the format of protocol 0.4.
    pub fn to_parity_bytes(&self) -> (out: [u8; 128])
        ensures
            out@ == wire_bytes(even_rows(self@)),
    {
        let mut frame = *self;
        frame.update_parity();
        frame.raw_bytes()
    }

    /// Reads a frame of protocol 0.4. Fails if there are not 128 bytes, and if a row is odd.
    pub fn from_parity_bytes(b: &[u8]) -> (r: Result<Self, FrameError>)
        ensures
            match r {
                Ok(f) => b@.len() == 128 && parity_ok(slots_of(b@)) && f@ == slots_of(b@),
                Err(FrameError::WrongLength(n)) => n == b@.len() && b@.len() != 128,
                Err(FrameError::ParityMismatch) => b@.len() == 128 && !parity_ok(slots_of(b@)),
                Err(_) => false,
            },
    {
        if b.len() != 128 {
            return Err(FrameError::WrongLength(b.len()));
        }
        let f = Frame32::from_raw_bytes(b);
        if !f.verify_parity() {
            return Err(FrameError::ParityMismatch);
        }
        Ok(f)
    }
}

impl Default for Frame32 {
    fn default() -> (f: Self)
        ensures
            f@ == Seq::new(32, |i: int| 0u32),
    {
        Frame32::new()
    }
}

/// What stands on the diagonal after a value was placed there is that value, and the data is the
/// data from before.
pub proof fn diagonal_round_trip(s: Seq<u32>, value: u32)
    ensures
        diagonal(with_diagonal(s, value)) == value,
        clear_diagonal(with_diagonal(s, value)) == clear_diagonal(s),
{
    let t = with_diagonal(s, value);
    assert forall|i: int| 0 <= i < 32 implies #[trigger] clear_diagonal(t)[i] == clear_diagonal(s)[i] by {
        bits::unit_facts(s[i], value, 0, i as u32, 0);
    }
    assert(clear_diagonal(t) =~= clear_diagonal(s));
    placed_bits(s, value, 32);
    assert(bits::low_bits(value, 32) == value);
}

proof fn placed_bits(s: Seq<u32>, value: u32, n: nat)
    requires
        n <= 32,
    ensures
        diagonal_part(with_diagonal(s, value), n) == bits::low_bits(value, n as int),
    decreases n,
{
    if n == 0 {
        bits::unit_facts(value, 0, 0, 0, 0);
    } else {
        let m = (n - 1) as nat;
        placed_bits(s, value, m);
        bits::unit_facts(s[m as int], value, 0, m as u32, 0);
        bits::unit_facts(value, 0, 0, m as u32, 0);
        assert((m as int) as u32 == m as u32);
        assert((m as u32 + 1) as u32 == n as u32);
    }
}

/// A signed frame verifies.
pub proof fn signing_verifies(s: Seq<u32>)
    ensures
        crc_ok(signed(s)),
        clear_diagonal(signed(s)) == clear_diagonal(s),
{
    diagonal_round_trip(s, data_checksum(s));
}

/// Data that was stored in a slot is read back, its low 31 bits; the diagonal bit and the other
/// slots are untouched.
pub proof fn law_set_then_get(s: Seq<u32>, slot: int, other: int, v: u32)
    requires
        s.len() == 32,
        0 <= slot < 32,
        0 <= other < 32,
    ensures
        ({
            let t = s.update(slot, with_field(s[slot], slot as u32, v));
            &&& field(t[slot], slot as u32) == v & 0x7FFF_FFFF
            &&& t[slot] & bits::unit(slot) == s[slot] & bits::unit(slot)
            &&& other != slot ==> t[other] == s[other]
        }),
{
    field_bits(s[slot], slot as u32, v);
}

/// Signing a frame changes no data.
pub proof fn law_signing_keeps_fields(s: Seq<u32>, slot: int)
    requires
        s.len() == 32,
        0 <= slot < 32,
    ensures
        field(signed(s)[slot], slot as u32) == field(s[slot], slot as u32),
{
    field_bits(s[slot], slot as u32, data_checksum(s));
}

proof fn word_in_bytes(w: u32)
    by (bit_vector)
    ensures
        w == ((w >> 24) as u8) * 0x100_0000 + ((w >> 16) as u8) * 0x1_0000 + ((w >> 8) as u8) * 0x100 + (w as u8),
{
}

/// On the wire a slot is four bytes, the highest first.
pub proof fn law_slots_go_highest_byte_first(s: Seq<u32>, i: int)
    requires
        0 <= i < 32,
    ensures
        wire_bytes(s).len() == 128,
        s[i] == wire_bytes(s)[4 * i] * 16777216 + wire_bytes(s)[4 * i + 1] * 65536 + wire_bytes(s)[4 * i + 2] * 256
            + wire_bytes(s)[4 * i + 3],
{
    word_in_bytes(s[i]);
}

proof fn bytes_in_word(a: u8, b: u8, c: u8, d: u8)
    by (bit_vector)
    ensures
        ((a as u32) << 24) | ((b as u32) << 16) | ((c as u32) << 8) | (d as u32) == a * 0x100_0000 + b * 0x1_0000 + c
            * 0x100 + d,
{
}

/// Bytes from the wire are put together highest first.
pub proof fn law_bytes_make_slots(b: Seq<u8>, i: int)
    requires
        0 <= i < 32,
    ensures
        slots_of(b).len() == 32,
        slots_of(b)[i] == b[4 * i] * 16777216 + b[4 * i + 1] * 65536 + b[4 * i + 2] * 256 + b[4 * i + 3],
{
    bytes_in_word(b[4 * i], b[4 * i + 1], b[4 * i + 2], b[4 * i + 3]);
}

proof fn field_bit_by_bit(w: u32, slot: u32, k: u32, v: u32)
    by (bit_vector)
    requires
        slot < 32,
        k < 31,
    ensures
        (field(w, slot) >> k) & 1 == (w >> (if k < slot {
            k
        } else {
            (k + 1) as u32
        })) & 1,
        (with_field(w, slot, v) >> (if k < slot {
            k
        } else {
            (k + 1) as u32
        })) & 1 == (v >> k) & 1,
        (with_field(w, slot, v) >> slot) & 1 == (w >> slot) & 1,
        field(w, slot) < 0x8000_0000,
{
}

/// The data of a slot are its bits without the one on the diagonal: those below it in their place,
/// those above it one place lower.
pub proof fn law_data_close_up_round_the_diagonal(w: u32, slot: u32, k: u32, v: u32)
    requires
        slot < 32,
        k < 31,
    ensures
        k < slot ==> (field(w, slot) >> k) & 1 == (w >> k) & 1,
        k >= slot ==> (field(w, slot) >> k) & 1 == (w >> ((k + 1) as u32)) & 1,
        k < slot ==> (with_field(w, slot, v) >> k) & 1 == (v >> k) & 1,
        k >= slot ==> (with_field(w, slot, v) >> ((k + 1) as u32)) & 1 == (v >> k) & 1,
        (with_field(w, slot, v) >> slot) & 1 == (w >> slot) & 1,
        field(w, slot) < 2147483648,
{
    field_bit_by_bit(w, slot, k, v);
}

/// A header is the number of the operation above 23 bits of sequence number.
pub proof fn law_header_is_a_sum(op: u32, msg_seq: u32)
    by (bit_vector)
    ensures
        header(op, msg_seq) == (op % 256) * 8388608 + msg_seq % 8388608,
        (header(op, msg_seq) >> 23) & 0xFF == op % 256,
        header(op, msg_seq) & 0x7FFFFF == msg_seq % 8388608,
{
}

proof fn placed_bit(w: u32, value: u32, i: u32, k: u32)
    by (bit_vector)
    requires
        i < 32,
        k < 32,
    ensures
        (((w & !(1u32 << i)) | (value & (1u32 << i))) >> k) & 1 == (if k == i {
            (value >> k) & 1
        } else {
            (w >> k) & 1
        }),
        ((w & !(1u32 << i)) >> k) & 1 == (if k == i {
            0
        } else {
            (w >> k) & 1
        }),
{
}

/// Writing the diagonal puts bit `i` of the value at bit `i` of slot `i` and leaves every other bit
/// as it is; clearing it puts zeroes there.
pub proof fn law_diagonal_is_one_bit_a_slot(s: Seq<u32>, value: u32, i: u32, k: u32)
    requires
        i < 32,
        k < 32,
    ensures
        (with_diagonal(s, value)[i as int] >> i) & 1 == (value >> i) & 1,
        (clear_diagonal(s)[i as int] >> i) & 1 == 0,
        k != i ==> (with_diagonal(s, value)[i as int] >> k) & 1 == (s[i as int] >> k) & 1,
        k != i ==> (clear_diagonal(s)[i as int] >> k) & 1 == (s[i as int] >> k) & 1,
{
    placed_bit(s[i as int], value, i, k);
    placed_bit(s[i as int], value, i, i);
}

/// Errors are told in these words.
pub proof fn law_errors_in_words(n: usize, op: u32)
    ensures
        message_of(FrameError::WrongLength(n)) == "frame length "@ + text::digits(n as nat, 10) + " != 128"@,
        message_of(FrameError::UnknownOp(op)) == "unknown op "@ + text::digits(op as nat, 10),
        message_of(FrameError::CrcMismatch) == "frame crc mismatch"@,
        message_of(FrameError::ParityMismatch) == "frame parity mismatch"@,
        message_of(FrameError::Truncated) == "frame truncated"@,
{
}

} // verus!
