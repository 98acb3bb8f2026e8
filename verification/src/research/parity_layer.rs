//! Other ways to spend the 32 diagonal bits of a frame.
//!
//! Every layout computes 32 bits from the data, the diagonal ignored, and stores them on the
//! diagonal. The data is read in little-endian byte order here.

use vstd::prelude::*;

use crate::bits;
use crate::crc;
use crate::frame;
use crate::frame::Frame32;
use crate::weight;

verus! {

/// How the diagonal bits are spent.
#[derive(Clone, Copy, Debug, PartialEq, Eq)]
pub enum ParityLayout {
    /// All 32 bits hold the CRC-32C.
    Crc32Only,
    /// The first `k` bits hold the parities of the first `k` rows, the others the low bits of the
    /// CRC-32C.
    RowXorPlusCrc { k: u8 },
    /// The first `k` bits hold the parities of the first `k` columns, the others the low bits of
    /// the CRC-32C.
    ColXorPlusCrc { k: u8 },
    /// The even bits hold a CRC-16/IBM of the data, the odd bits a CRC-16/CCITT-FALSE of the even
    /// bit positions of the data.
    SplitOddEven16,
}

/// Why a frame does not verify.
#[derive(Clone, Copy, Debug, PartialEq, Eq)]
pub enum VerifyError {
    /// The diagonal is not what the layout asks for.
    Mismatch,
}

/// The slots with the diagonal cleared, in little-endian byte order.
pub open spec fn le_body(s: Seq<u32>) -> Seq<u8> {
    Seq::new(128, |k: int| bits::be_byte(frame::clear_diagonal(s)[k / 4], 3 - k % 4))
}

/// The first `n` even-position bits of a word, closed up.
pub open spec fn even_part(w: u32, n: u32) -> u16
    decreases n,
{
    if n == 0 {
        0
    } else {
        even_part(w, (n - 1) as u32) | (if (w >> ((2 * (n - 1)) as u32)) & 1 == 1 {
            1u16 << ((n - 1) as u16)
        } else {
            0
        })
    }
}

/// The sixteen even-position bits of every slot with the diagonal cleared, low byte first.
pub open spec fn even_projection(s: Seq<u32>) -> Seq<u8> {
    Seq::new(
        64,
        |k: int|
            {
                let p = even_part(frame::clear_diagonal(s)[k / 2], 16);
                if k % 2 == 0 {
                    p as u8
                } else {
                    (p >> 8) as u8
                }
            },
    )
}

/// One step of the CRC-16/IBM register.
pub open spec fn ibm_shift(s: u16) -> u16 {
    (s >> 1) ^ (if s & 1 == 1 { 0xA001 } else { 0 })
}

/// `n` steps of the CRC-16/IBM register.
pub open spec fn ibm_shifts(s: u16, n: nat) -> u16
    decreases n,
{
    if n == 0 {
        s
    } else {
        ibm_shift(ibm_shifts(s, (n - 1) as nat))
    }
}

/// The CRC-16/IBM register after a message.
pub open spec fn ibm_register(s: u16, data: Seq<u8>) -> u16
    decreases data.len(),
{
    if data.len() == 0 {
        s
    } else {
        ibm_shifts(ibm_register(s, data.drop_last()) ^ (data.last() as u16), 8)
    }
}

/// One step of the CRC-16/CCITT register.
pub open spec fn ccitt_shift(s: u16) -> u16 {
    (s << 1) ^ (if s & 0x8000 == 0x8000 { 0x1021 } else { 0 })
}

/// `n` steps of the CRC-16/CCITT register.
pub open spec fn ccitt_shifts(s: u16, n: nat) -> u16
    decreases n,
{
    if n == 0 {
        s
    } else {
        ccitt_shift(ccitt_shifts(s, (n - 1) as nat))
    }
}

/// The CRC-16/CCITT register after a message.
pub open spec fn ccitt_register(s: u16, data: Seq<u8>) -> u16
    decreases data.len(),
{
    if data.len() == 0 {
        s
    } else {
        ccitt_shifts(ccitt_register(s, data.drop_last()) ^ ((data.last() as u16) << 8), 8)
    }
}

/// The parity of the first `n` bits of column `c`.
pub open spec fn column_parity(s: Seq<u32>, c: int, n: nat) -> u32
    decreases n,
{
    if n == 0 {
        0
    } else {
        column_parity(s, c, (n - 1) as nat) ^ ((s[n - 1] >> (c as u32)) & 1)
    }
}

/// How many diagonal bits hold row or column parities.
pub open spec fn budget(k: u8) -> int {
    if k < 32 {
        k as int
    } else {
        32
    }
}

/// Whether a layout puts a one at diagonal position `i`.
pub open spec fn layout_bit(layout: ParityLayout, s: Seq<u32>, i: int) -> bool {
    let data = frame::clear_diagonal(s);
    match layout {
        ParityLayout::Crc32Only => bits::word_bit(crc::checksum(le_body(s)), i) == 1,
        ParityLayout::RowXorPlusCrc { k } => if i < budget(k) {
            weight::weight(data[i] as nat) % 2 == 1
        } else {
            bits::word_bit(crc::checksum(le_body(s)), i - budget(k)) == 1
        },
        ParityLayout::ColXorPlusCrc { k } => if i < budget(k) {
            column_parity(data, i, 32) == 1
        } else {
            bits::word_bit(crc::checksum(le_body(s)), i - budget(k)) == 1
        },
        ParityLayout::SplitOddEven16 => if i % 2 == 0 {
            bits::word_bit(ibm_register(0, le_body(s)) as u32, i / 2) == 1
        } else {
            bits::word_bit(ccitt_register(0xFFFF, even_projection(s)) as u32, i / 2) == 1
        },
    }
}

/// The first `n` diagonal bits that a layout asks for.
pub open spec fn layout_part(layout: ParityLayout, s: Seq<u32>, n: nat) -> u32
    decreases n,
{
    if n == 0 {
        0
    } else {
        layout_part(layout, s, (n - 1) as nat) | (if layout_bit(layout, s, n - 1) {
            bits::unit(n - 1)
        } else {
            0
        })
    }
}

/// The diagonal that a layout asks for.
pub open spec fn layout_diagonal(layout: ParityLayout, s: Seq<u32>) -> u32 {
    layout_part(layout, s, 32)
}

/// Whether the diagonal is what the layout asks for.
pub open spec fn layout_ok(layout: ParityLayout, s: Seq<u32>) -> bool {
    frame::diagonal(s) == layout_diagonal(layout, s)
}

/// All bits but the diagonal one of row `i`.
pub fn body_mask(i: usize) -> (mask: u32)
    requires
        i < 32,
    ensures
        mask == !bits::unit(i as int),
{
    proof {
        assert(bits::unit(i as int) == 1u32 << (i as u32));
    }
    !(1u32 << (i as u32))
}

/// The data in little-endian byte order, the diagonal cleared.
pub fn body_bytes(frame: &Frame32) -> (out: [u8; 128])
    ensures
        out@ == le_body(frame@),
{
    let mut out: [u8; 128] = [0u8; 128];
    let mut i: usize = 0;
    while i < 32
        invariant
            i <= 32,
            forall|k: int|
                0 <= k < 4 * i ==> #[trigger] out@[k] == bits::be_byte(
                    frame::clear_diagonal(frame@)[k / 4],
                    3 - k % 4,
                ),
        decreases 32 - i,
    {
        let w: u32 = frame.0[i] & body_mask(i);
        assert(w == frame::clear_diagonal(frame@)[i as int]);
        out[4 * i] = w as u8;
        out[4 * i + 1] = (w >> 8) as u8;
        out[4 * i + 2] = (w >> 16) as u8;
        out[4 * i + 3] = (w >> 24) as u8;
        i += 1;
    }
    assert(out@ =~= le_body(frame@));
    out
}

/// The sixteen even-position bits of a word.
pub fn even_bit_positions(slot: u32) -> (out: u16)
    ensures
        out == even_part(slot, 16),
{
    let mut out: u16 = 0;
    let mut b: u32 = 0;
    while b < 16
        invariant
            b <= 16,
            out == even_part(slot, b),
        decreases 16 - b,
    {
        if (slot >> (2 * b)) & 1 == 1 {
            out = out | (1u16 << (b as u16));
        } else {
            proof {
                half_rules(out, 0, 0, 0, 0);
            }
        }
        b += 1;
    }
    out
}

/// Half words under exclusive or.
pub proof fn half_rules(a: u16, b: u16, c: u16, x: u8, y: u8)
    by (bit_vector)
    ensures
        a | 0 == a,
        a ^ 0 == a,
        a ^ a == 0,
        a ^ b == b ^ a,
        a ^ b == 0 <==> a == b,
        (a ^ b) ^ c == a ^ (b ^ c),
        (a ^ b) ^ ((x as u16) ^ (y as u16)) == (a ^ (x as u16)) ^ (b ^ (y as u16)),
        (x ^ y) as u16 == (x as u16) ^ (y as u16),
        ((x ^ y) as u16) << 8 == ((x as u16) << 8) ^ ((y as u16) << 8),
        (a ^ b) ^ (((x as u16) << 8) ^ ((y as u16) << 8)) == (a ^ ((x as u16) << 8)) ^ (b ^ ((y as u16)
            << 8)),
        (a ^ b) as u32 == (a as u32) ^ (b as u32),
        (a ^ b) as u8 == (a as u8) ^ (b as u8),
        ((a ^ b) >> 8) as u8 == ((a >> 8) as u8) ^ ((b >> 8) as u8),
        ibm_shift(a ^ b) == ibm_shift(a) ^ ibm_shift(b),
        ccitt_shift(a ^ b) == ccitt_shift(a) ^ ccitt_shift(b),
        a >> 1 == a / 2,
        a & 1 == a % 2,
        a << 1 == 2 * (a & 0x7FFF),
        a & 0x8000 == 0 || a & 0x8000 == 0x8000,
        a as u32 == ((a & 0x7FFF) as u32) ^ ((a & 0x8000) as u32),
        ((x as u16) << 8) as u32 == 256 * (x as u32),
{
}

/// The even-position bits of all slots, the diagonal cleared.
pub fn even_bit_projection_bytes(frame: &Frame32) -> (out: [u8; 64])
    ensures
        out@ == even_projection(frame@),
{
    let mut out: [u8; 64] = [0u8; 64];
    let mut i: usize = 0;
    while i < 32
        invariant
            i <= 32,
            forall|k: int| 0 <= k < 2 * i ==> #[trigger] out@[k] == even_projection(frame@)[k],
        decreases 32 - i,
    {
        let w: u32 = frame.0[i] & body_mask(i);
        assert(w == frame::clear_diagonal(frame@)[i as int]);
        let p: u16 = even_bit_positions(w);
        out[2 * i] = p as u8;
        out[2 * i + 1] = (p >> 8) as u8;
        i += 1;
    }
    assert(out@ =~= even_projection(frame@));
    out
}

/// CRC-16/IBM.
pub fn crc16_ibm(data: &[u8]) -> (value: u16)
    ensures
        value == ibm_register(0, data@),
{
    let mut state: u16 = 0;
    let mut i: usize = 0;
    assert(data@.take(0) =~= Seq::<u8>::empty());
    while i < data.len()
        invariant
            i <= data@.len(),
            state == ibm_register(0, data@.take(i as int)),
        decreases data@.len() - i,
    {
        let start: u16 = state ^ (data[i] as u16);
        state = start;
        let mut j: usize = 0;
        while j < 8
            invariant
                j <= 8,
                state == ibm_shifts(start, j as nat),
            decreases 8 - j,
        {
            proof {
                half_rules(state >> 1, 0, 0, 0, 0);
            }
            if state & 1 == 1 {
                state = (state >> 1) ^ 0xA001;
            } else {
                state = state >> 1;
            }
            j += 1;
        }
        assert(data@.take(i + 1).drop_last() =~= data@.take(i as int));
        i += 1;
    }
    assert(data@.take(i as int) =~= data@);
    state
}

/// CRC-16/CCITT-FALSE.
pub fn crc16_ccitt(data: &[u8]) -> (value: u16)
    ensures
        value == ccitt_register(0xFFFF, data@),
{
    let mut state: u16 = 0xFFFF;
    let mut i: usize = 0;
    assert(data@.take(0) =~= Seq::<u8>::empty());
    while i < data.len()
        invariant
            i <= data@.len(),
            state == ccitt_register(0xFFFF, data@.take(i as int)),
        decreases data@.len() - i,
    {
        let start: u16 = state ^ ((data[i] as u16) << 8);
        state = start;
        let mut j: usize = 0;
        while j < 8
            invariant
                j <= 8,
                state == ccitt_shifts(start, j as nat),
            decreases 8 - j,
        {
            proof {
                half_rules(state << 1, 0, 0, 0, 0);
            }
            if state & 0x8000 == 0x8000 {
                state = (state << 1) ^ 0x1021;
            } else {
                state = state << 1;
            }
            j += 1;
        }
        assert(data@.take(i + 1).drop_last() =~= data@.take(i as int));
        i += 1;
    }
    assert(data@.take(i as int) =~= data@);
    state
}

/// A word is made up of its own bits.
proof fn own_bits(layout: ParityLayout, s: Seq<u32>, w: u32, n: nat)
    requires
        n <= 32,
        forall|i: int| 0 <= i < 32 ==> #[trigger] layout_bit(layout, s, i) == (bits::word_bit(w, i) == 1),
    ensures
        layout_part(layout, s, n) == bits::low_bits(w, n as int),
    decreases n,
{
    bits::unit_facts(w, 0, 0, 0, 0);
    if n > 0 {
        let m = n - 1;
        own_bits(layout, s, w, m as nat);
        bits::unit_facts(w, 0, 0, m as u32, 0);
        assert(layout_bit(layout, s, m) == (bits::word_bit(w, m) == 1));
        let lo = bits::low_bits(w, m);
        let top = if bits::word_bit(w, m) == 1 {
            bits::unit(m)
        } else {
            0
        };
        bits::word_rules(lo, top, 0, 0);
        bits::word_rules(1, 0, 0, 0);
        assert((m as u32 + 1) as u32 == n as u32);
    }
}

/// The diagonal that a layout asks for, bit `i` for slot `i`. What is on the diagonal does not
/// matter.
pub fn compute_diagonal(layout: ParityLayout, frame: &Frame32) -> (diag: u32)
    ensures
        diag == layout_diagonal(layout, frame@),
{
    match layout {
        ParityLayout::Crc32Only => {
            let body = body_bytes(frame);
            let value: u32 = crc32c::crc32c(body.as_slice());
            proof {
                own_bits(layout, frame@, value, 32);
            }
            value
        },
        ParityLayout::RowXorPlusCrc { k } => {
            let n: usize = if k < 32 {
                k as usize
            } else {
                32
            };
            let body = body_bytes(frame);
            let value: u32 = crc32c::crc32c(body.as_slice());
            let mut diag: u32 = 0;
            let mut i: usize = 0;
            while i < n
                invariant
                    i <= n,
                    n == budget(k),
                    layout == (ParityLayout::RowXorPlusCrc { k }),
                    diag == layout_part(layout, frame@, i as nat),
                decreases n - i,
            {
                let cleared: u32 = frame.0[i] & body_mask(i);
                assert(cleared == frame::clear_diagonal(frame@)[i as int]);
                let ones: u32 = cleared.count_ones();
                let parity: u32 = ones & 1;
                proof {
                    bits::word_rules(ones, 0, 0, 0);
                    bits::unit_facts(0, 0, 0, i as u32, 0);
                }
                diag = diag | (parity << (i as u32));
                i += 1;
            }
            while i < 32
                invariant
                    n <= i <= 32,
                    n == budget(k),
                    layout == (ParityLayout::RowXorPlusCrc { k }),
                    value == crc::checksum(le_body(frame@)),
                    diag == layout_part(layout, frame@, i as nat),
                decreases 32 - i,
            {
                let bit: u32 = (value >> ((i - n) as u32)) & 1;
                proof {
                    bits::unit_facts(value, 0, 0, (i - n) as u32, 0);
                    bits::unit_facts(0, 0, 0, i as u32, 0);
                    assert(bits::word_bit(value, i - n) == bit);
                }
                diag = diag | (bit << (i as u32));
                i += 1;
            }
            diag
        },
        ParityLayout::ColXorPlusCrc { k } => {
            let n: usize = if k < 32 {
                k as usize
            } else {
                32
            };
            let body = body_bytes(frame);
            let value: u32 = crc32c::crc32c(body.as_slice());
            let mut diag: u32 = 0;
            let mut c: usize = 0;
            while c < n
                invariant
                    c <= n,
                    n == budget(k),
                    layout == (ParityLayout::ColXorPlusCrc { k }),
                    diag == layout_part(layout, frame@, c as nat),
                decreases n - c,
            {
                let mut p: u32 = 0;
                let mut i: usize = 0;
                while i < 32
                    invariant
                        i <= 32,
                        c < 32,
                        p <= 1,
                        p == column_parity(frame::clear_diagonal(frame@), c as int, i as nat),
                    decreases 32 - i,
                {
                    let cleared: u32 = frame.0[i] & body_mask(i);
                    assert(cleared == frame::clear_diagonal(frame@)[i as int]);
                    proof {
                        bits::unit_facts(cleared, 0, 0, c as u32, 0);
                        bits::word_rules(p, (cleared >> (c as u32)) & 1, 0, 0);
                        bits::word_rules(1, 0, 0, 0);
                    }
                    p = p ^ ((cleared >> (c as u32)) & 1);
                    i += 1;
                }
                proof {
                    bits::unit_facts(0, 0, 0, c as u32, 0);
                }
                diag = diag | (p << (c as u32));
                c += 1;
            }
            let mut i: usize = c;
            while i < 32
                invariant
                    n <= i <= 32,
                    n == budget(k),
                    layout == (ParityLayout::ColXorPlusCrc { k }),
                    value == crc::checksum(le_body(frame@)),
                    diag == layout_part(layout, frame@, i as nat),
                decreases 32 - i,
            {
                let bit: u32 = (value >> ((i - n) as u32)) & 1;
                proof {
                    bits::unit_facts(value, 0, 0, (i - n) as u32, 0);
                    bits::unit_facts(0, 0, 0, i as u32, 0);
                    assert(bits::word_bit(value, i - n) == bit);
                }
                diag = diag | (bit << (i as u32));
                i += 1;
            }
            diag
        },
        ParityLayout::SplitOddEven16 => {
            let body = body_bytes(frame);
            let projection = even_bit_projection_bytes(frame);
            let ibm: u32 = crc16_ibm(body.as_slice()) as u32;
            let ccitt: u32 = crc16_ccitt(projection.as_slice()) as u32;
            let mut diag: u32 = 0;
            let mut b: usize = 0;
            while b < 16
                invariant
                    b <= 16,
                    layout == ParityLayout::SplitOddEven16,
                    ibm == ibm_register(0, le_body(frame@)),
                    ccitt == ccitt_register(0xFFFF, even_projection(frame@)),
                    diag == layout_part(layout, frame@, (2 * b) as nat),
                decreases 16 - b,
            {
                let even: u32 = (ibm >> (b as u32)) & 1;
                let odd: u32 = (ccitt >> (b as u32)) & 1;
                proof {
                    bits::unit_facts(ibm, 0, 0, b as u32, 0);
                    bits::unit_facts(ccitt, 0, 0, b as u32, 0);
                    bits::unit_facts(0, 0, 0, (2 * b) as u32, 0);
                    bits::unit_facts(0, 0, 0, (2 * b + 1) as u32, 0);
                    assert((2 * b) / 2 == b && (2 * b + 1) / 2 == b);
                    assert(bits::word_bit(ibm, b as int) == even);
                    assert(bits::word_bit(ccitt, b as int) == odd);
                    assert(layout_part(layout, frame@, (2 * b + 2) as nat) == layout_part(
                        layout,
                        frame@,
                        (2 * b + 1) as nat,
                    ) | (if layout_bit(layout, frame@, 2 * b + 1) {
                        bits::unit(2 * b + 1)
                    } else {
                        0
                    }));
                }
                diag = diag | (even << ((2 * b) as u32));
                diag = diag | (odd << ((2 * b + 1) as u32));
                b += 1;
            }
            diag
        },
    }
}

/// Places 32 bits on the diagonal; the data stays.
pub fn write_diagonal(frame: &mut Frame32, diag: u32)
    ensures
        final(frame)@ == frame::with_diagonal(old(frame)@, diag),
{
    frame.set_diagonal(diag);
}

/// The 32 bits on the diagonal.
pub fn read_diagonal(frame: &Frame32) -> (diag: u32)
    ensures
        diag == frame::diagonal(frame@),
{
    frame.diagonal()
}

/// Writes the bits that the layout asks for onto the diagonal; the data stays.
pub fn update_with_layout(layout: ParityLayout, frame: &mut Frame32)
    ensures
        final(frame)@ == frame::with_diagonal(old(frame)@, layout_diagonal(layout, old(frame)@)),
{
    let diag: u32 = compute_diagonal(layout, frame);
    write_diagonal(frame, diag);
}

/// Whether the diagonal is what the layout asks for.
pub fn verify_with_layout(layout: ParityLayout, frame: &Frame32) -> (r: Result<(), VerifyError>)
    ensures
        layout_ok(layout, frame@) ==> r == Ok::<(), VerifyError>(()),
        !layout_ok(layout, frame@) ==> r == Err::<(), VerifyError>(VerifyError::Mismatch),
{
    let stored: u32 = read_diagonal(frame);
    let expected: u32 = compute_diagonal(layout, frame);
    if stored == expected {
        Ok(())
    } else {
        Err(VerifyError::Mismatch)
    }
}

} // verus!
