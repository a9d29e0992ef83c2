use qrust_code::bits::BitBuffer;
use qrust_code::gf::{reed_solomon_compute_divisor, reed_solomon_compute_remainder, reed_solomon_multiply};
use qrust_code::symbol::ManualQrCode;

#[test]
fn field_multiplication() {
    assert_eq!(reed_solomon_multiply(2, 2), 4);
    assert_eq!(reed_solomon_multiply(0x80, 2), 0x1d);
    assert_eq!(reed_solomon_multiply(3, 7), 9);
    assert_eq!(reed_solomon_multiply(0, 200), 0);
    assert_eq!(reed_solomon_multiply(1, 200), 200);
}

#[test]
fn field_multiplication_commutes_on_samples() {
    for x in [0u8, 1, 2, 3, 77, 128, 255] {
        for y in [0u8, 1, 5, 19, 200, 255] {
            assert_eq!(reed_solomon_multiply(x, y), reed_solomon_multiply(y, x));
        }
    }
}

#[test]
fn generator_polynomials() {
    assert_eq!(reed_solomon_compute_divisor(1), vec![1]);
    assert_eq!(reed_solomon_compute_divisor(2), vec![3, 2]);
    assert_eq!(
        reed_solomon_compute_divisor(10),
        vec![216, 194, 159, 111, 199, 94, 95, 113, 157, 193]
    );
}

#[test]
fn error_correction_of_a_known_block() {
    let data = [32u8, 91, 11, 120, 209, 114, 220, 77, 67, 64, 236, 17, 236, 17, 236, 17];
    let divisor = reed_solomon_compute_divisor(10);
    assert_eq!(
        reed_solomon_compute_remainder(&data, &divisor),
        vec![196, 35, 39, 119, 235, 215, 231, 226, 93, 23]
    );
}

#[test]
fn bits_are_packed_most_significant_first() {
    let mut b = BitBuffer::new();
    b.push_bits(0b0100, 4);
    b.push_bits(0b1011, 4);
    b.push_bit(true);
    assert_eq!(b.len(), 9);
    assert_eq!(b.to_bytes(), vec![0b0100_1011, 0b1000_0000]);
}

#[test]
fn interleaving_a_single_block_appends_its_error_correction() {
    let code = ManualQrCode::new(1);
    let data = [32u8, 91, 11, 120, 209, 114, 220, 77, 67, 64, 236, 17, 236, 17, 236, 17];
    let all = code.add_ecc_and_interleave(&data);
    let mut expected = data.to_vec();
    expected.extend_from_slice(&[196, 35, 39, 119, 235, 215, 231, 226, 93, 23]);
    assert_eq!(all, expected);
}

#[test]
fn a_short_text_fits_version_1() {
    let code = ManualQrCode::encode(b"HELLO").unwrap();
    assert_eq!(code.size(), 21);
}

#[test]
fn a_longer_text_needs_a_larger_version() {
    let code = ManualQrCode::encode(b"https://example.com").unwrap();
    assert_eq!(code.size(), 25);
    let long = vec![b'a'; 300];
    let code = ManualQrCode::encode(&long).unwrap();
    // 300 bytes need version 13 at the medium level.
    assert_eq!(code.size(), 4 * 13 + 17);
}

#[test]
fn too_much_data_is_refused() {
    let data = vec![0u8; 2332];
    let r = ManualQrCode::encode(&data);
    assert!(r.is_err());
}

#[test]
fn finder_patterns_and_timing() {
    let code = ManualQrCode::encode(b"HELLO").unwrap();
    let n = code.size();
    for (cx, cy) in [(3usize, 3usize), (n - 4, 3), (3, n - 4)] {
        assert!(code.get_module(cx, cy));
        assert!(!code.get_module(cx + 2, cy));
        assert!(code.get_module(cx + 3, cy));
        assert!(code.get_module(cx, cy - 3));
    }
    // The separators around the finders are light.
    assert!(!code.get_module(7, 0));
    assert!(!code.get_module(0, 7));
    // Timing patterns alternate, dark on even coordinates.
    for i in 8..n - 8 {
        assert_eq!(code.get_module(i, 6), i % 2 == 0);
        assert_eq!(code.get_module(6, i), i % 2 == 0);
    }
    // The dark module.
    assert!(code.get_module(8, n - 8));
    // Outside the symbol everything is light.
    assert!(!code.get_module(n, 0));
}

#[test]
fn format_bits_are_drawn_beside_the_top_left_finder() {
    let code = ManualQrCode::encode(b"HELLO").unwrap();
    let bits = 0x5412u32;
    for i in 0..6 {
        assert_eq!(code.get_module(8, i), (bits >> i) & 1 == 1);
    }
    assert_eq!(code.get_module(8, 7), (bits >> 6) & 1 == 1);
    assert_eq!(code.get_module(8, 8), (bits >> 7) & 1 == 1);
    assert_eq!(code.get_module(7, 8), (bits >> 8) & 1 == 1);
}

#[test]
fn masking_twice_restores_the_symbol() {
    let mut code = ManualQrCode::encode(b"mask me").unwrap();
    let n = code.size();
    let before: Vec<bool> = (0..n * n).map(|i| code.get_module(i % n, i / n)).collect();
    code.apply_mask();
    let once: Vec<bool> = (0..n * n).map(|i| code.get_module(i % n, i / n)).collect();
    assert_ne!(before, once);
    code.apply_mask();
    let twice: Vec<bool> = (0..n * n).map(|i| code.get_module(i % n, i / n)).collect();
    assert_eq!(before, twice);
}

#[test]
fn a_fresh_symbol_is_light() {
    let mut code = ManualQrCode::new(2);
    assert_eq!(code.size(), 25);
    assert!(!code.get_module(3, 3));
    code.draw_finder_pattern(3, 3);
    assert!(code.get_module(3, 3));
    code.set_function_module(10, 10, true);
    assert!(code.get_module(10, 10));
}

#[test]
fn data_followed_by_its_error_correction_leaves_no_remainder() {
    let divisor = reed_solomon_compute_divisor(10);
    let data = [32u8, 91, 11, 120, 209, 114, 220, 77, 67, 64, 236, 17, 236, 17, 236, 17];
    let mut codeword = data.to_vec();
    codeword.extend(reed_solomon_compute_remainder(&data, &divisor));
    assert_eq!(reed_solomon_compute_remainder(&codeword, &divisor), vec![0u8; 10]);
}

#[test]
fn field_multiplication_associates_on_samples() {
    for x in [1u8, 2, 29, 128, 255] {
        for y in [3u8, 17, 200] {
            for z in [0u8, 5, 99, 254] {
                assert_eq!(
                    reed_solomon_multiply(reed_solomon_multiply(x, y), z),
                    reed_solomon_multiply(x, reed_solomon_multiply(y, z))
                );
            }
        }
    }
}

#[test]
fn generator_vanishes_at_its_roots() {
    for degree in [1usize, 2, 7, 10, 30] {
        let divisor = reed_solomon_compute_divisor(degree);
        let mut root = 1u8;
        for _ in 0..degree {
            let mut acc = 1u8;
            for &c in &divisor {
                acc = reed_solomon_multiply(acc, root) ^ c;
            }
            assert_eq!(acc, 0);
            root = reed_solomon_multiply(root, 2);
        }
    }
}
