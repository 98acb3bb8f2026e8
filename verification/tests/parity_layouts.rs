//! Other layouts of the check bits, and the boolean helpers.

use tren::research::bool_ops::{lsb_mask, nand, xnor, xor3};
use tren::research::parity_layer::{
    compute_diagonal, crc16_ccitt, crc16_ibm, even_bit_positions, read_diagonal, update_with_layout,
    verify_with_layout, write_diagonal, ParityLayout, VerifyError,
};
use tren::Frame32;

fn sample_frame() -> Frame32 {
    let mut f = Frame32::new();
    for i in 0..32 {
        f.0[i] = (i as u32).wrapping_mul(0x9E37_79B1);
    }
    f
}

#[test]
fn xnor_table() {
    assert_eq!(xnor(0, 0), !0u32);
    assert_eq!(xnor(0xFFFF_FFFF, 0xFFFF_FFFF), !0u32);
    assert_eq!(xnor(0xAAAA_AAAA, 0x5555_5555), 0);
    assert_eq!(xnor(0xF0F0_F0F0, 0x0F0F_0F0F), 0);
}

#[test]
fn nand_table() {
    assert_eq!(nand(0, 0), !0u32);
    assert_eq!(nand(0xFFFF_FFFF, 0xFFFF_FFFF), 0);
    assert_eq!(nand(0xAAAA_AAAA, 0x5555_5555), !0u32);
    assert_eq!(nand(0xFFFF_0000, 0x00FF_0000), 0xFF00_FFFF);
}

#[test]
fn xor3_associates() {
    let triples = [(0u32, 0, 0), (1, 0, 0), (0xDEAD_BEEF, 0xCAFE_F00D, 0xFACE_B00C)];
    for &(a, b, c) in &triples {
        assert_eq!(xor3(a, b, c), (a ^ b) ^ c);
        assert_eq!(xor3(a, b, c), a ^ (b ^ c));
    }
}

#[test]
fn lsb_mask_is_branchless_select() {
    assert_eq!(lsb_mask(0), 0);
    assert_eq!(lsb_mask(1), 0xFFFF_FFFF);
    assert_eq!(lsb_mask(2), 0); // only bit 0 considered
    assert_eq!(lsb_mask(3), 0xFFFF_FFFF);
    assert_eq!(lsb_mask(0xFFFF_FFFE), 0);
    assert_eq!(lsb_mask(0xFFFF_FFFF), 0xFFFF_FFFF);
}

#[test]
fn round_trip_crc32_only() {
    let mut f = sample_frame();
    update_with_layout(ParityLayout::Crc32Only, &mut f);
    assert_eq!(verify_with_layout(ParityLayout::Crc32Only, &f), Ok(()));
}

#[test]
fn round_trip_row_xor_plus_crc_k4() {
    let mut f = sample_frame();
    let layout = ParityLayout::RowXorPlusCrc { k: 4 };
    update_with_layout(layout, &mut f);
    assert_eq!(verify_with_layout(layout, &f), Ok(()));
}

#[test]
fn round_trip_col_xor_plus_crc_k8() {
    let mut f = sample_frame();
    let layout = ParityLayout::ColXorPlusCrc { k: 8 };
    update_with_layout(layout, &mut f);
    assert_eq!(verify_with_layout(layout, &f), Ok(()));
}

#[test]
fn round_trip_split_odd_even_16() {
    let mut f = sample_frame();
    update_with_layout(ParityLayout::SplitOddEven16, &mut f);
    assert_eq!(
        verify_with_layout(ParityLayout::SplitOddEven16, &f),
        Ok(())
    );
}

#[test]
fn flip_one_body_bit_breaks_split_verify() {
    let mut f = sample_frame();
    update_with_layout(ParityLayout::SplitOddEven16, &mut f);
    // Flip a non-diagonal body bit (slot 7, bit 5; diagonal of slot 7
    // is bit 7).
    f.0[7] ^= 1u32 << 5;
    assert_eq!(
        verify_with_layout(ParityLayout::SplitOddEven16, &f),
        Err(VerifyError::Mismatch)
    );
}

#[test]
fn diagonal_extraction_round_trip() {
    let mut f = sample_frame();
    let target: u32 = 0xDEAD_BEEF;
    write_diagonal(&mut f, target);
    assert_eq!(read_diagonal(&f), target);
}

#[test]
fn even_bit_positions_extracts_correctly() {
    // 0x55555555 = bits 0,2,4,...,30 set → result = 0xFFFF.
    assert_eq!(even_bit_positions(0x5555_5555), 0xFFFF);
    // 0xAAAAAAAA = bits 1,3,5,...,31 set → result = 0.
    assert_eq!(even_bit_positions(0xAAAA_AAAA), 0);
    // 0x00000001 = bit 0 set → result = 0x0001.
    assert_eq!(even_bit_positions(0x0000_0001), 0x0001);
}

#[test]
fn crc16_ibm_known_vector() {
    // CRC-16/ARC of "123456789" = 0xBB3D.
    assert_eq!(crc16_ibm(b"123456789"), 0xBB3D);
}

#[test]
fn crc16_ccitt_false_known_vector() {
    // CRC-16/CCITT-FALSE of "123456789" = 0x29B1.
    assert_eq!(crc16_ccitt(b"123456789"), 0x29B1);
}

#[test]
fn layouts_differ_and_ignore_the_diagonal() {
    let f = sample_frame();
    let mut g = f;
    write_diagonal(&mut g, !read_diagonal(&f));
    for layout in [
        ParityLayout::Crc32Only,
        ParityLayout::RowXorPlusCrc { k: 4 },
        ParityLayout::ColXorPlusCrc { k: 8 },
        ParityLayout::SplitOddEven16,
    ] {
        assert_eq!(compute_diagonal(layout, &f), compute_diagonal(layout, &g));
        let mut h = f;
        update_with_layout(layout, &mut h);
        assert_eq!(read_diagonal(&h), compute_diagonal(layout, &f));
        h.0[9] ^= 1 << 9;
        assert_eq!(verify_with_layout(layout, &h), Err(VerifyError::Mismatch));
    }
    assert_ne!(
        compute_diagonal(ParityLayout::Crc32Only, &f),
        compute_diagonal(ParityLayout::SplitOddEven16, &f)
    );
}
