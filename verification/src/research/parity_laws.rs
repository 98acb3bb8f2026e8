//! Laws of the diagonal layouts.

use vstd::prelude::*;

use crate::bits;
use crate::crc;
use crate::detect;
use crate::frame;
use crate::research::parity_layer;
use crate::research::parity_layer::ParityLayout;
use crate::weight;

verus! {

proof fn same_part(layout: ParityLayout, s: Seq<u32>, t: Seq<u32>, n: nat)
    requires
        n <= 32,
        forall|i: int|
            0 <= i < 32 ==> #[trigger] parity_layer::layout_bit(layout, s, i) == parity_layer::layout_bit(
                layout,
                t,
                i,
            ),
    ensures
        parity_layer::layout_part(layout, s, n) == parity_layer::layout_part(layout, t, n),
    decreases n,
{
    if n > 0 {
        same_part(layout, s, t, (n - 1) as nat);
        assert(parity_layer::layout_bit(layout, s, n - 1) == parity_layer::layout_bit(layout, t, n - 1));
    }
}

/// What a layout asks for depends on the data alone, not on what is on the diagonal.
pub proof fn law_diagonal_is_ignored(layout: ParityLayout, s: Seq<u32>, t: Seq<u32>)
    requires
        frame::clear_diagonal(s) == frame::clear_diagonal(t),
    ensures
        parity_layer::layout_diagonal(layout, s) == parity_layer::layout_diagonal(layout, t),
{
    assert(parity_layer::le_body(s) =~= parity_layer::le_body(t));
    assert(parity_layer::even_projection(s) =~= parity_layer::even_projection(t));
    assert forall|i: int| 0 <= i < 32 implies #[trigger] parity_layer::layout_bit(layout, s, i)
        == parity_layer::layout_bit(layout, t, i) by {}
    same_part(layout, s, t, 32);
}

/// A frame verifies right after it was updated, its data is unchanged, and updating it again
/// would change nothing.
pub proof fn law_update_then_verify(layout: ParityLayout, s: Seq<u32>)
    requires
        s.len() == 32,
    ensures
        ({
            let t = frame::with_diagonal(s, parity_layer::layout_diagonal(layout, s));
            &&& parity_layer::layout_ok(layout, t)
            &&& frame::clear_diagonal(t) == frame::clear_diagonal(s)
            &&& parity_layer::layout_diagonal(layout, t) == parity_layer::layout_diagonal(layout, s)
        }),
{
    let value = parity_layer::layout_diagonal(layout, s);
    frame::diagonal_round_trip(s, value);
    law_diagonal_is_ignored(layout, s, frame::with_diagonal(s, value));
}

// ---------------------------------------------------------------------------------------------
// Bits of the diagonal word
// ---------------------------------------------------------------------------------------------

spec fn as_bit(b: bool) -> u32 {
    if b {
        1
    } else {
        0
    }
}

proof fn part_bits(layout: ParityLayout, s: Seq<u32>, n: nat, j: int)
    requires
        n <= 32,
        0 <= j < 32,
    ensures
        bits::word_bit(parity_layer::layout_part(layout, s, n), j) == (if j < n {
            as_bit(parity_layer::layout_bit(layout, s, j))
        } else {
            0
        }),
    decreases n,
{
    if n == 0 {
        bits::unit_facts(0, 0, 0, j as u32, 0);
    } else {
        let m = n - 1;
        part_bits(layout, s, m as nat, j);
        part_bits(layout, s, m as nat, m);
        let b = as_bit(parity_layer::layout_bit(layout, s, m));
        bits::unit_facts(parity_layer::layout_part(layout, s, m as nat), b, 0, m as u32, j as u32);
        bits::unit_facts(0, 0, 0, m as u32, 0);
        bits::word_rules(1, 0, 0, 0);
    }
}

// ---------------------------------------------------------------------------------------------
// Linearity
// ---------------------------------------------------------------------------------------------

proof fn body_linear(a: Seq<u32>, b: Seq<u32>)
    requires
        a.len() == 32,
        b.len() == 32,
    ensures
        parity_layer::le_body(detect::xor_slots(a, b)) == crc::xor_bytes(
            parity_layer::le_body(a),
            parity_layer::le_body(b),
        ),
{
    detect::clear_linear(a, b);
    let x = detect::xor_slots(a, b);
    let ca = frame::clear_diagonal(a);
    let cb = frame::clear_diagonal(b);
    assert forall|k: int| 0 <= k < 128 implies #[trigger] parity_layer::le_body(x)[k]
        == parity_layer::le_body(a)[k] ^ parity_layer::le_body(b)[k] by {
        bits::be_linear(ca[k / 4], cb[k / 4], 0, 0, 0, 0, 0, 0, 0, 0, 3 - k % 4);
    }
    assert(parity_layer::le_body(x) =~= crc::xor_bytes(
        parity_layer::le_body(a),
        parity_layer::le_body(b),
    ));
}

proof fn even_part_linear(a: u32, b: u32)
    by (bit_vector)
    ensures
        parity_layer::even_part(a ^ b, 16) == parity_layer::even_part(a, 16)
            ^ parity_layer::even_part(b, 16),
{
}

proof fn projection_linear(a: Seq<u32>, b: Seq<u32>)
    requires
        a.len() == 32,
        b.len() == 32,
    ensures
        parity_layer::even_projection(detect::xor_slots(a, b)) == crc::xor_bytes(
            parity_layer::even_projection(a),
            parity_layer::even_projection(b),
        ),
{
    detect::clear_linear(a, b);
    let x = detect::xor_slots(a, b);
    let ca = frame::clear_diagonal(a);
    let cb = frame::clear_diagonal(b);
    assert forall|k: int| 0 <= k < 64 implies #[trigger] parity_layer::even_projection(x)[k]
        == parity_layer::even_projection(a)[k] ^ parity_layer::even_projection(b)[k] by {
        even_part_linear(ca[k / 2], cb[k / 2]);
        parity_layer::half_rules(
            parity_layer::even_part(ca[k / 2], 16),
            parity_layer::even_part(cb[k / 2], 16),
            0,
            0,
            0,
        );
    }
    assert(parity_layer::even_projection(x) =~= crc::xor_bytes(
        parity_layer::even_projection(a),
        parity_layer::even_projection(b),
    ));
}

proof fn ibm_shifts_linear(a: u16, b: u16, n: nat)
    ensures
        parity_layer::ibm_shifts(a ^ b, n) == parity_layer::ibm_shifts(a, n) ^ parity_layer::ibm_shifts(
            b,
            n,
        ),
    decreases n,
{
    if n > 0 {
        let m = (n - 1) as nat;
        ibm_shifts_linear(a, b, m);
        parity_layer::half_rules(
            parity_layer::ibm_shifts(a, m),
            parity_layer::ibm_shifts(b, m),
            0,
            0,
            0,
        );
    }
}

proof fn ibm_linear(a: u16, b: u16, x: Seq<u8>, y: Seq<u8>)
    requires
        x.len() == y.len(),
    ensures
        parity_layer::ibm_register(a ^ b, crc::xor_bytes(x, y)) == parity_layer::ibm_register(a, x)
            ^ parity_layer::ibm_register(b, y),
    decreases x.len(),
{
    if x.len() > 0 {
        let z = crc::xor_bytes(x, y);
        assert(z.drop_last() =~= crc::xor_bytes(x.drop_last(), y.drop_last()));
        ibm_linear(a, b, x.drop_last(), y.drop_last());
        let p = parity_layer::ibm_register(a, x.drop_last());
        let q = parity_layer::ibm_register(b, y.drop_last());
        parity_layer::half_rules(p, q, 0, x.last(), y.last());
        ibm_shifts_linear(p ^ (x.last() as u16), q ^ (y.last() as u16), 8);
    }
}

proof fn ccitt_shifts_linear(a: u16, b: u16, n: nat)
    ensures
        parity_layer::ccitt_shifts(a ^ b, n) == parity_layer::ccitt_shifts(a, n)
            ^ parity_layer::ccitt_shifts(b, n),
    decreases n,
{
    if n > 0 {
        let m = (n - 1) as nat;
        ccitt_shifts_linear(a, b, m);
        parity_layer::half_rules(
            parity_layer::ccitt_shifts(a, m),
            parity_layer::ccitt_shifts(b, m),
            0,
            0,
            0,
        );
    }
}

proof fn ccitt_linear(a: u16, b: u16, x: Seq<u8>, y: Seq<u8>)
    requires
        x.len() == y.len(),
    ensures
        parity_layer::ccitt_register(a ^ b, crc::xor_bytes(x, y)) == parity_layer::ccitt_register(a, x)
            ^ parity_layer::ccitt_register(b, y),
    decreases x.len(),
{
    if x.len() > 0 {
        let z = crc::xor_bytes(x, y);
        assert(z.drop_last() =~= crc::xor_bytes(x.drop_last(), y.drop_last()));
        ccitt_linear(a, b, x.drop_last(), y.drop_last());
        let p = parity_layer::ccitt_register(a, x.drop_last());
        let q = parity_layer::ccitt_register(b, y.drop_last());
        parity_layer::half_rules(p, q, 0, x.last(), y.last());
        ccitt_shifts_linear(p ^ ((x.last() as u16) << 8), q ^ ((y.last() as u16) << 8), 8);
    }
}

proof fn column_linear(a: Seq<u32>, b: Seq<u32>, c: int, n: nat)
    requires
        a.len() == 32,
        b.len() == 32,
        0 <= c < 32,
        n <= 32,
    ensures
        parity_layer::column_parity(detect::xor_slots(a, b), c, n) == parity_layer::column_parity(a, c, n)
            ^ parity_layer::column_parity(b, c, n),
        parity_layer::column_parity(a, c, n) <= 1,
    decreases n,
{
    bits::word_rules(0, 0, 0, 0);
    if n > 0 {
        let m = n - 1;
        column_linear(a, b, c, m as nat);
        bits::unit_facts(a[m], b[m], 0, c as u32, 0);
        let p = parity_layer::column_parity(a, c, m as nat);
        let q = parity_layer::column_parity(b, c, m as nat);
        bits::word_rules(p, q, (a[m] >> (c as u32)) & 1, (b[m] >> (c as u32)) & 1);
        bits::word_rules(p, (a[m] >> (c as u32)) & 1, 0, 0);
        bits::word_rules(1, 0, 0, 0);
    }
}

/// CRC-32C of three messages combined.
proof fn checksum_of_three(x: Seq<u8>, y: Seq<u8>, z: Seq<u8>)
    requires
        x.len() == y.len(),
        x.len() == z.len(),
    ensures
        crc::checksum(crc::xor_bytes(x, crc::xor_bytes(y, z))) == crc::checksum(x) ^ (crc::checksum(y)
            ^ crc::checksum(z)),
{
    crc::checksum_of_xor(x, crc::xor_bytes(y, z));
    crc::register_linear(0xFFFF_FFFF, 0xFFFF_FFFF, y, z);
    bits::word_rules(0xFFFF_FFFF, 0xFFFF_FFFF, 0, 0);
    bits::word_rules(
        crc::register(0xFFFF_FFFF, y),
        0xFFFF_FFFF,
        crc::register(0xFFFF_FFFF, z),
        0xFFFF_FFFF,
    );
    bits::word_rules(crc::register(0xFFFF_FFFF, y) ^ crc::register(0xFFFF_FFFF, z), 0, 0, 0);
}

/// Exclusive or of three truth values.
pub open spec fn xor3(a: bool, b: bool, c: bool) -> bool {
    (a != b) != c
}

proof fn bit_of_three(a: u32, b: u32, c: u32, i: int)
    requires
        0 <= i < 32,
    ensures
        (bits::word_bit(a ^ (b ^ c), i) == 1) == xor3(
            bits::word_bit(a, i) == 1,
            bits::word_bit(b, i) == 1,
            bits::word_bit(c, i) == 1,
        ),
{
    bits::unit_facts(a, b ^ c, 0, i as u32, 0);
    bits::unit_facts(b, c, 0, i as u32, 0);
    bits::unit_facts(c, 0, 0, i as u32, 0);
    bits::word_rules(0, 0, 0, 0);
    bits::word_rules(1, 0, 0, 0);
}

proof fn layout_bit_of_three(layout: ParityLayout, a: Seq<u32>, b: Seq<u32>, c: Seq<u32>, i: int)
    requires
        a.len() == 32,
        b.len() == 32,
        c.len() == 32,
        0 <= i < 32,
    ensures
        parity_layer::layout_bit(layout, detect::xor_slots(a, detect::xor_slots(b, c)), i) == xor3(
            parity_layer::layout_bit(layout, a, i),
            parity_layer::layout_bit(layout, b, i),
            parity_layer::layout_bit(layout, c, i),
        ),
{
    let bc = detect::xor_slots(b, c);
    let x = detect::xor_slots(a, bc);
    body_linear(a, bc);
    body_linear(b, c);
    checksum_of_three(
        parity_layer::le_body(a),
        parity_layer::le_body(b),
        parity_layer::le_body(c),
    );
    let va = crc::checksum(parity_layer::le_body(a));
    let vb = crc::checksum(parity_layer::le_body(b));
    let vc = crc::checksum(parity_layer::le_body(c));
    detect::clear_linear(a, bc);
    detect::clear_linear(b, c);
    let da = frame::clear_diagonal(a);
    let db = frame::clear_diagonal(b);
    let dc = frame::clear_diagonal(c);
    match layout {
        ParityLayout::Crc32Only => {
            bit_of_three(va, vb, vc, i);
        },
        ParityLayout::RowXorPlusCrc { k } => {
            if i < parity_layer::budget(k) {
                crc::parity_of_xor(da[i], db[i] ^ dc[i]);
                crc::parity_of_xor(db[i], dc[i]);
            } else {
                bit_of_three(va, vb, vc, i - parity_layer::budget(k));
            }
        },
        ParityLayout::ColXorPlusCrc { k } => {
            if i < parity_layer::budget(k) {
                column_linear(da, detect::xor_slots(db, dc), i, 32);
                column_linear(db, dc, i, 32);
                column_linear(dc, dc, i, 32);
                bits::word_rules(0, 0, 0, 0);
                bits::word_rules(1, 0, 0, 0);
            } else {
                bit_of_three(va, vb, vc, i - parity_layer::budget(k));
            }
        },
        ParityLayout::SplitOddEven16 => {
            if i % 2 == 0 {
                let ra = parity_layer::ibm_register(0, parity_layer::le_body(a));
                let rb = parity_layer::ibm_register(0, parity_layer::le_body(b));
                let rc = parity_layer::ibm_register(0, parity_layer::le_body(c));
                ibm_linear(0, 0, parity_layer::le_body(a), parity_layer::le_body(bc));
                ibm_linear(0, 0, parity_layer::le_body(b), parity_layer::le_body(c));
                parity_layer::half_rules(0, 0, 0, 0, 0);
                parity_layer::half_rules(ra, rb ^ rc, 0, 0, 0);
                parity_layer::half_rules(rb, rc, 0, 0, 0);
                bit_of_three(ra as u32, rb as u32, rc as u32, i / 2);
            } else {
                let pa = parity_layer::even_projection(a);
                let pb = parity_layer::even_projection(b);
                let pc = parity_layer::even_projection(c);
                projection_linear(a, bc);
                projection_linear(b, c);
                let ra = parity_layer::ccitt_register(0xFFFF, pa);
                let rb = parity_layer::ccitt_register(0xFFFF, pb);
                let rc = parity_layer::ccitt_register(0xFFFF, pc);
                ccitt_linear(0xFFFF, 0, pa, crc::xor_bytes(pb, pc));
                ccitt_linear(0xFFFF, 0xFFFF, pb, pc);
                parity_layer::half_rules(0xFFFF, 0xFFFF, 0, 0, 0);
                parity_layer::half_rules(ra, rb ^ rc, 0, 0, 0);
                parity_layer::half_rules(rb, rc, 0, 0, 0);
                bit_of_three(ra as u32, rb as u32, rc as u32, i / 2);
            }
        },
    }
}

/// Every layout is affine over GF(2): the diagonal of three frames combined is the three
/// diagonals combined.
pub proof fn law_layouts_are_affine(layout: ParityLayout, a: Seq<u32>, b: Seq<u32>, c: Seq<u32>)
    requires
        a.len() == 32,
        b.len() == 32,
        c.len() == 32,
    ensures
        parity_layer::layout_diagonal(layout, detect::xor_slots(a, detect::xor_slots(b, c)))
            == parity_layer::layout_diagonal(layout, a) ^ (parity_layer::layout_diagonal(layout, b)
            ^ parity_layer::layout_diagonal(layout, c)),
{
    let x = detect::xor_slots(a, detect::xor_slots(b, c));
    let va = parity_layer::layout_diagonal(layout, a);
    let vb = parity_layer::layout_diagonal(layout, b);
    let vc = parity_layer::layout_diagonal(layout, c);
    let vx = parity_layer::layout_diagonal(layout, x);
    let v = va ^ (vb ^ vc);
    assert forall|j: int| 0 <= j < 32 implies #[trigger] bits::word_bit(vx, j) == bits::word_bit(v, j) by {
        part_bits(layout, a, 32, j);
        part_bits(layout, b, 32, j);
        part_bits(layout, c, 32, j);
        part_bits(layout, x, 32, j);
        layout_bit_of_three(layout, a, b, c, j);
        bit_of_three(va, vb, vc, j);
        bits::unit_facts(v, 0, 0, j as u32, 0);
    }
    bits::words_equal(vx, v);
}

// ---------------------------------------------------------------------------------------------
// What the split layout detects
// ---------------------------------------------------------------------------------------------

proof fn body_parity(s: Seq<u32>, n: nat)
    requires
        s.len() == 32,
        n <= 32,
    ensures
        crc::message_weight(parity_layer::le_body(s).take(4 * n as int)) % 2 == detect::slots_weight(
            frame::clear_diagonal(s),
            n,
        ) % 2,
    decreases n,
{
    let b = parity_layer::le_body(s);
    let t = frame::clear_diagonal(s);
    if n == 0 {
        assert(b.take(0) =~= Seq::<u8>::empty());
    } else {
        let m = n - 1;
        body_parity(s, m as nat);
        detect::word_parity(t[m]);
        assert(b.take(4 * m + 4).drop_last() =~= b.take(4 * m + 3));
        assert(b.take(4 * m + 3).drop_last() =~= b.take(4 * m + 2));
        assert(b.take(4 * m + 2).drop_last() =~= b.take(4 * m + 1));
        assert(b.take(4 * m + 1).drop_last() =~= b.take(4 * m));
        assert((4 * m) / 4 == m && (4 * m + 1) / 4 == m && (4 * m + 2) / 4 == m && (4 * m + 3) / 4 == m);
        assert((4 * m) % 4 == 0 && (4 * m + 1) % 4 == 1 && (4 * m + 2) % 4 == 2 && (4 * m + 3) % 4 == 3);
        assert(crc::message_weight(b.take(4 * m + 1)) == crc::message_weight(b.take(4 * m))
            + weight::weight(bits::be_byte(t[m], 3) as nat));
        assert(crc::message_weight(b.take(4 * m + 2)) == crc::message_weight(b.take(4 * m + 1))
            + weight::weight(bits::be_byte(t[m], 2) as nat));
        assert(crc::message_weight(b.take(4 * m + 3)) == crc::message_weight(b.take(4 * m + 2))
            + weight::weight(bits::be_byte(t[m], 1) as nat));
        assert(crc::message_weight(b.take(4 * m + 4)) == crc::message_weight(b.take(4 * m + 3))
            + weight::weight(bits::be_byte(t[m], 0) as nat));
    }
}

proof fn half_parity(a: u16, b: u16)
    ensures
        weight::weight((a ^ b) as nat) % 2 == (weight::weight(a as nat) + weight::weight(b as nat)) % 2,
{
    parity_layer::half_rules(a, b, 0, 0, 0);
    crc::parity_of_xor(a as u32, b as u32);
}

proof fn generator_weights()
    ensures
        weight::weight(0xA001) == 3,
        weight::weight(0x1021) == 3,
        weight::weight(0x8000) == 1,
        weight::weight(0) == 0,
{
    reveal_with_fuel(weight::weight, 9);
    assert(weight::weight(0xA0) == 2);
    assert(weight::weight(0xA001) == 3);
    assert(weight::weight(0x10) == 1);
    assert(weight::weight(0x1021) == 3);
    assert(weight::weight(0x80) == 1);
    assert(weight::weight(0x8000) == 1);
}

proof fn ibm_shifts_parity(s: u16, n: nat)
    ensures
        weight::weight(parity_layer::ibm_shifts(s, n) as nat) % 2 == weight::weight(s as nat) % 2,
    decreases n,
{
    if n > 0 {
        ibm_shifts_parity(s, (n - 1) as nat);
        let t = parity_layer::ibm_shifts(s, (n - 1) as nat);
        parity_layer::half_rules(t, 0, 0, 0, 0);
        parity_layer::half_rules(t >> 1, 0, 0, 0, 0);
        generator_weights();
        half_parity(t >> 1, 0xA001);
        assert(weight::weight(t as nat) == (t as nat) % 2 + weight::weight((t as nat) / 2)) by {
            if t == 0 {
                assert(weight::weight(0) == 0);
            }
        }
    }
}

proof fn ibm_parity(data: Seq<u8>)
    ensures
        weight::weight(parity_layer::ibm_register(0, data) as nat) % 2 == crc::message_weight(data) % 2,
    decreases data.len(),
{
    generator_weights();
    if data.len() > 0 {
        ibm_parity(data.drop_last());
        let p = parity_layer::ibm_register(0, data.drop_last());
        half_parity(p, data.last() as u16);
        ibm_shifts_parity(p ^ (data.last() as u16), 8);
    }
}

proof fn ccitt_shifts_parity(s: u16, n: nat)
    ensures
        weight::weight(parity_layer::ccitt_shifts(s, n) as nat) % 2 == weight::weight(s as nat) % 2,
    decreases n,
{
    if n > 0 {
        ccitt_shifts_parity(s, (n - 1) as nat);
        let t = parity_layer::ccitt_shifts(s, (n - 1) as nat);
        parity_layer::half_rules(t, 0, 0, 0, 0);
        parity_layer::half_rules(t << 1, 0, 0, 0, 0);
        generator_weights();
        half_parity(t << 1, 0x1021);
        weight::weight_of_double((t & 0x7FFF) as nat);
        crc::parity_of_xor((t & 0x7FFF) as u32, (t & 0x8000) as u32);
    }
}

proof fn ccitt_parity(data: Seq<u8>)
    ensures
        weight::weight(parity_layer::ccitt_register(0, data) as nat) % 2 == crc::message_weight(data) % 2,
    decreases data.len(),
{
    generator_weights();
    if data.len() > 0 {
        ccitt_parity(data.drop_last());
        let p = parity_layer::ccitt_register(0, data.drop_last());
        let b = data.last();
        parity_layer::half_rules(0, 0, 0, b, 0);
        half_parity(p, (b as u16) << 8);
        detect::weight_of_byte_shift(b as nat);
        ccitt_shifts_parity(p ^ ((b as u16) << 8), 8);
    }
}

/// Half words with the same sixteen bits are equal.
proof fn halves_equal(a: u16, b: u16)
    requires
        forall|j: int| 0 <= j < 16 ==> #[trigger] bits::word_bit(a as u32, j) == bits::word_bit(b as u32, j),
    ensures
        a == b,
{
    bits::low_bits_equal(a as u32, b as u32, 16);
    low_half(a as u32);
    low_half(b as u32);
}

proof fn low_half(w: u32)
    by (bit_vector)
    requires
        w <= 0xFFFF,
    ensures
        w & (((1u32 << 16u32) - 1) as u32) == w,
{
}

/// Two frames whose split diagonals agree have the same two 16-bit check values.
proof fn split_parts_agree(s: Seq<u32>, t: Seq<u32>)
    requires
        parity_layer::layout_diagonal(ParityLayout::SplitOddEven16, s) == parity_layer::layout_diagonal(
            ParityLayout::SplitOddEven16,
            t,
        ),
    ensures
        parity_layer::ibm_register(0, parity_layer::le_body(s)) == parity_layer::ibm_register(
            0,
            parity_layer::le_body(t),
        ),
        parity_layer::ccitt_register(0xFFFF, parity_layer::even_projection(s))
            == parity_layer::ccitt_register(0xFFFF, parity_layer::even_projection(t)),
{
    let split = ParityLayout::SplitOddEven16;
    let a = parity_layer::ibm_register(0, parity_layer::le_body(s));
    let b = parity_layer::ibm_register(0, parity_layer::le_body(t));
    assert forall|j: int| 0 <= j < 16 implies #[trigger] bits::word_bit(a as u32, j) == bits::word_bit(
        b as u32,
        j,
    ) by {
        part_bits(split, s, 32, 2 * j);
        part_bits(split, t, 32, 2 * j);
        assert((2 * j) / 2 == j);
        bits::unit_facts(a as u32, 0, 0, j as u32, 0);
        bits::unit_facts(b as u32, 0, 0, j as u32, 0);
    }
    halves_equal(a, b);
    let c = parity_layer::ccitt_register(0xFFFF, parity_layer::even_projection(s));
    let d = parity_layer::ccitt_register(0xFFFF, parity_layer::even_projection(t));
    assert forall|j: int| 0 <= j < 16 implies #[trigger] bits::word_bit(c as u32, j) == bits::word_bit(
        d as u32,
        j,
    ) by {
        part_bits(split, s, 32, 2 * j + 1);
        part_bits(split, t, 32, 2 * j + 1);
        assert((2 * j + 1) / 2 == j);
        bits::unit_facts(c as u32, 0, 0, j as u32, 0);
        bits::unit_facts(d as u32, 0, 0, j as u32, 0);
    }
    halves_equal(c, d);
}

proof fn damaged_diagonal(s: Seq<u32>, e: Seq<u32>)
    requires
        s.len() == 32,
        e.len() == 32,
        frame::diagonal(e) == 0,
    ensures
        frame::diagonal(detect::xor_slots(s, e)) == frame::diagonal(s),
{
    detect::diagonal_linear(s, e, 32);
    bits::word_rules(frame::diagonal(s), 0, 0, 0);
}

/// The split layout detects every error in the data with an odd number of flipped bits.
pub proof fn law_split_detects_odd_data_error(s: Seq<u32>, e: Seq<u32>)
    requires
        s.len() == 32,
        e.len() == 32,
        parity_layer::layout_ok(ParityLayout::SplitOddEven16, s),
        frame::diagonal(e) == 0,
        detect::slots_weight(e, 32) % 2 == 1,
    ensures
        !parity_layer::layout_ok(ParityLayout::SplitOddEven16, detect::xor_slots(s, e)),
{
    let x = detect::xor_slots(s, e);
    damaged_diagonal(s, e);
    if parity_layer::layout_ok(ParityLayout::SplitOddEven16, x) {
        split_parts_agree(s, x);
        body_linear(s, e);
        let bs = parity_layer::le_body(s);
        let be = parity_layer::le_body(e);
        ibm_linear(0, 0, bs, be);
        parity_layer::half_rules(0, 0, 0, 0, 0);
        let p = parity_layer::ibm_register(0, bs);
        let q = parity_layer::ibm_register(0, be);
        parity_layer::half_rules(p, p, q, 0, 0);
        parity_layer::half_rules(q, 0, 0, 0, 0);
        assert(q == 0);
        ibm_parity(be);
        body_parity(e, 32);
        assert(be.take(128) =~= be);
        detect::split_parity(e, 32);
        generator_weights();
    }
}

/// The split layout detects every error in the data that flips an odd number of the even bit
/// positions, among them many with an even number of flipped bits in all.
pub proof fn law_split_detects_odd_projected_error(s: Seq<u32>, e: Seq<u32>)
    requires
        s.len() == 32,
        e.len() == 32,
        parity_layer::layout_ok(ParityLayout::SplitOddEven16, s),
        frame::diagonal(e) == 0,
        crc::message_weight(parity_layer::even_projection(e)) % 2 == 1,
    ensures
        !parity_layer::layout_ok(ParityLayout::SplitOddEven16, detect::xor_slots(s, e)),
{
    let x = detect::xor_slots(s, e);
    damaged_diagonal(s, e);
    if parity_layer::layout_ok(ParityLayout::SplitOddEven16, x) {
        split_parts_agree(s, x);
        projection_linear(s, e);
        let ps = parity_layer::even_projection(s);
        let pe = parity_layer::even_projection(e);
        ccitt_linear(0xFFFF, 0, ps, pe);
        parity_layer::half_rules(0xFFFF, 0, 0, 0, 0);
        let p = parity_layer::ccitt_register(0xFFFF, ps);
        let q = parity_layer::ccitt_register(0, pe);
        parity_layer::half_rules(p, p, q, 0, 0);
        parity_layer::half_rules(q, 0, 0, 0, 0);
        assert(q == 0);
        ccitt_parity(pe);
        generator_weights();
    }
}

// ---------------------------------------------------------------------------------------------
// What the bits of the diagonal mean
// ---------------------------------------------------------------------------------------------

/// How many of the first `n` slots have a bit set.
pub open spec fn column_weight(s: Seq<u32>, c: int, n: nat) -> nat
    decreases n,
{
    if n == 0 {
        0
    } else {
        column_weight(s, c, (n - 1) as nat) + (if (s[n - 1] >> (c as u32)) & 1 == 1 {
            1nat
        } else {
            0
        })
    }
}

proof fn column_parity_counts(s: Seq<u32>, c: int, n: nat)
    requires
        0 <= c < 32,
        n <= s.len(),
    ensures
        parity_layer::column_parity(s, c, n) == column_weight(s, c, n) % 2,
    decreases n,
{
    if n > 0 {
        column_parity_counts(s, c, (n - 1) as nat);
        bits::bit_is_binary(s[n - 1], c);
        let p = parity_layer::column_parity(s, c, (n - 1) as nat);
        assert(0u32 ^ 0 == 0 && 0u32 ^ 1 == 1 && 1u32 ^ 0 == 1 && 1u32 ^ 1 == 0) by (bit_vector);
    }
}

/// The first `k` bits of the diagonal hold the parities of the rows, or of the columns, of the data,
/// as the layout says; the bits of the checksum follow them from the lowest on.
pub proof fn law_parities_come_first(s: Seq<u32>, k: u8, i: int)
    requires
        s.len() == 32,
        k <= 32,
        0 <= i < 32,
    ensures
        ({
            let data = frame::clear_diagonal(s);
            let rows = parity_layer::layout_diagonal(ParityLayout::RowXorPlusCrc { k }, s);
            let columns = parity_layer::layout_diagonal(ParityLayout::ColXorPlusCrc { k }, s);
            let check = crc::checksum(parity_layer::le_body(s));
            &&& i < k ==> bits::word_bit(rows, i) == weight::weight(data[i] as nat) % 2
            &&& i < k ==> bits::word_bit(columns, i) == column_weight(data, i, 32) % 2
            &&& i >= k ==> bits::word_bit(rows, i) == bits::word_bit(check, i - k)
            &&& i >= k ==> bits::word_bit(columns, i) == bits::word_bit(check, i - k)
            &&& bits::word_bit(parity_layer::layout_diagonal(ParityLayout::Crc32Only, s), i) == bits::word_bit(check, i)
        }),
{
    let data = frame::clear_diagonal(s);
    let check = crc::checksum(parity_layer::le_body(s));
    part_bits(ParityLayout::RowXorPlusCrc { k }, s, 32, i);
    part_bits(ParityLayout::ColXorPlusCrc { k }, s, 32, i);
    part_bits(ParityLayout::Crc32Only, s, 32, i);
    bits::bit_is_binary(check, i);
    if i >= k {
        bits::bit_is_binary(check, i - k);
    } else {
        column_parity_counts(data, i, 32);
    }
}

/// With no parities, and with as many as there are, nothing is lost: the whole checksum, or none of
/// it, stands on the diagonal.
pub proof fn law_layouts_meet_at_the_ends(s: Seq<u32>, k: u8)
    requires
        s.len() == 32,
    ensures
        parity_layer::layout_diagonal(ParityLayout::Crc32Only, s) == crc::checksum(parity_layer::le_body(s)),
        parity_layer::layout_diagonal(ParityLayout::RowXorPlusCrc { k: 0 }, s) == crc::checksum(
            parity_layer::le_body(s),
        ),
        parity_layer::layout_diagonal(ParityLayout::ColXorPlusCrc { k: 0 }, s) == crc::checksum(
            parity_layer::le_body(s),
        ),
        k >= 32 ==> parity_layer::layout_diagonal(ParityLayout::RowXorPlusCrc { k }, s)
            == parity_layer::layout_diagonal(ParityLayout::RowXorPlusCrc { k: 32 }, s),
        k >= 32 ==> parity_layer::layout_diagonal(ParityLayout::ColXorPlusCrc { k }, s)
            == parity_layer::layout_diagonal(ParityLayout::ColXorPlusCrc { k: 32 }, s),
{
    let check = crc::checksum(parity_layer::le_body(s));
    assert forall|j: int| 0 <= j < 32 implies #[trigger] bits::word_bit(
        parity_layer::layout_diagonal(ParityLayout::Crc32Only, s),
        j,
    ) == bits::word_bit(check, j) by {
        law_parities_come_first(s, 0, j);
    }
    bits::words_equal(parity_layer::layout_diagonal(ParityLayout::Crc32Only, s), check);
    assert forall|j: int| 0 <= j < 32 implies #[trigger] bits::word_bit(
        parity_layer::layout_diagonal(ParityLayout::RowXorPlusCrc { k: 0 }, s),
        j,
    ) == bits::word_bit(check, j) by {
        law_parities_come_first(s, 0, j);
    }
    bits::words_equal(parity_layer::layout_diagonal(ParityLayout::RowXorPlusCrc { k: 0 }, s), check);
    assert forall|j: int| 0 <= j < 32 implies #[trigger] bits::word_bit(
        parity_layer::layout_diagonal(ParityLayout::ColXorPlusCrc { k: 0 }, s),
        j,
    ) == bits::word_bit(check, j) by {
        law_parities_come_first(s, 0, j);
    }
    bits::words_equal(parity_layer::layout_diagonal(ParityLayout::ColXorPlusCrc { k: 0 }, s), check);
    if k >= 32 {
        let (r, r32) = (ParityLayout::RowXorPlusCrc { k }, ParityLayout::RowXorPlusCrc { k: 32 });
        let (c, c32) = (ParityLayout::ColXorPlusCrc { k }, ParityLayout::ColXorPlusCrc { k: 32 });
        assert forall|j: int| 0 <= j < 32 implies #[trigger] bits::word_bit(parity_layer::layout_diagonal(r, s), j)
            == bits::word_bit(parity_layer::layout_diagonal(r32, s), j) by {
            part_bits(r, s, 32, j);
            part_bits(r32, s, 32, j);
        }
        bits::words_equal(parity_layer::layout_diagonal(r, s), parity_layer::layout_diagonal(r32, s));
        assert forall|j: int| 0 <= j < 32 implies #[trigger] bits::word_bit(parity_layer::layout_diagonal(c, s), j)
            == bits::word_bit(parity_layer::layout_diagonal(c32, s), j) by {
            part_bits(c, s, 32, j);
            part_bits(c32, s, 32, j);
        }
        bits::words_equal(parity_layer::layout_diagonal(c, s), parity_layer::layout_diagonal(c32, s));
    }
}

/// The split layout has the one sixteen-bit check on the even places of the diagonal and the other
/// on the odd ones, each from its lowest bit on.
pub proof fn law_split_layout_interleaves(s: Seq<u32>, j: int)
    requires
        s.len() == 32,
        0 <= j < 16,
    ensures
        ({
            let d = parity_layer::layout_diagonal(ParityLayout::SplitOddEven16, s);
            let even = parity_layer::ibm_register(0, parity_layer::le_body(s)) as u32;
            let odd = parity_layer::ccitt_register(0xFFFF, parity_layer::even_projection(s)) as u32;
            &&& bits::word_bit(d, 2 * j) == bits::word_bit(even, j)
            &&& bits::word_bit(d, 2 * j + 1) == bits::word_bit(odd, j)
        }),
{
    let even = parity_layer::ibm_register(0, parity_layer::le_body(s)) as u32;
    let odd = parity_layer::ccitt_register(0xFFFF, parity_layer::even_projection(s)) as u32;
    part_bits(ParityLayout::SplitOddEven16, s, 32, 2 * j);
    part_bits(ParityLayout::SplitOddEven16, s, 32, 2 * j + 1);
    bits::bit_is_binary(even, j);
    bits::bit_is_binary(odd, j);
}

proof fn word_in_low_bytes(w: u32)
    by (bit_vector)
    ensures
        w == (w as u8) + ((w >> 8) as u8) * 0x100 + ((w >> 16) as u8) * 0x1_0000 + ((w >> 24) as u8) * 0x100_0000,
{
}

/// The data that is checked is taken lowest byte first, without the diagonal.
pub proof fn law_body_goes_lowest_byte_first(s: Seq<u32>, i: int)
    requires
        0 <= i < 32,
    ensures
        ({
            let b = parity_layer::le_body(s);
            &&& b.len() == 128
            &&& frame::clear_diagonal(s)[i] == b[4 * i] + b[4 * i + 1] * 256 + b[4 * i + 2] * 65536 + b[4 * i + 3]
                * 16777216
        }),
{
    word_in_low_bytes(frame::clear_diagonal(s)[i]);
}

proof fn even_bits_closed_up(w: u32, j: u32)
    by (bit_vector)
    requires
        j < 16,
    ensures
        (parity_layer::even_part(w, 16) >> (j as u16)) & 1 == ((w >> (2 * j) as u32) & 1) as u16,
{
}

proof fn half_in_bytes(p: u16)
    by (bit_vector)
    ensures
        p == (p as u8) + ((p >> 8) as u8) * 0x100,
{
}

/// The projection has two bytes for every slot, the lower first, and its bit `j` is bit `2 * j` of the
/// data.
pub proof fn law_projection_takes_every_other_bit(s: Seq<u32>, i: int, j: u32)
    requires
        0 <= i < 32,
        j < 16,
    ensures
        ({
            let b = parity_layer::even_projection(s);
            let half = (b[2 * i] + b[2 * i + 1] * 256) as u16;
            &&& b.len() == 64
            &&& (half >> (j as u16)) & 1 == ((frame::clear_diagonal(s)[i] >> ((2 * j) as u32)) & 1) as u16
        }),
{
    let w = frame::clear_diagonal(s)[i];
    even_bits_closed_up(w, j);
    half_in_bytes(parity_layer::even_part(w, 16));
}

/// A check register goes on from where it stood: the check of a message continues that of its
/// beginning.
pub proof fn law_registers_go_on(s: u16, a: Seq<u8>, b: Seq<u8>)
    ensures
        parity_layer::ibm_register(s, a + b) == parity_layer::ibm_register(parity_layer::ibm_register(s, a), b),
        parity_layer::ccitt_register(s, a + b) == parity_layer::ccitt_register(parity_layer::ccitt_register(s, a), b),
    decreases b.len(),
{
    if b.len() == 0 {
        assert(a + b =~= a);
    } else {
        law_registers_go_on(s, a, b.drop_last());
        assert((a + b).drop_last() =~= a + b.drop_last());
        assert((a + b).last() == b.last());
    }
}

} // verus!
