use qrust_code::layout::{alignment_pattern_positions, compute_format_bits, compute_version_bits, get_bit};
use qrust_code::tables::{
    ecc_codewords_per_block, num_data_codewords, num_error_correction_blocks, num_raw_data_modules,
    pick_version,
};

#[test]
fn raw_data_modules_of_some_versions() {
    assert_eq!(num_raw_data_modules(1), 208);
    assert_eq!(num_raw_data_modules(2), 359);
    assert_eq!(num_raw_data_modules(7), 1568);
    assert_eq!(num_raw_data_modules(40), 29648);
}

#[test]
fn data_codewords_at_medium_level() {
    assert_eq!(num_data_codewords(1), 16);
    assert_eq!(num_data_codewords(2), 28);
    assert_eq!(num_data_codewords(10), 216);
    assert_eq!(num_data_codewords(40), 2334);
}

#[test]
fn block_tables() {
    assert_eq!(ecc_codewords_per_block(1), 10);
    assert_eq!(num_error_correction_blocks(1), 1);
    assert_eq!(ecc_codewords_per_block(40), 28);
    assert_eq!(num_error_correction_blocks(40), 49);
}

#[test]
fn smallest_version_that_holds_the_data() {
    assert_eq!(pick_version(0), Ok(1));
    assert_eq!(pick_version(14), Ok(1));
    assert_eq!(pick_version(15), Ok(2));
    assert_eq!(pick_version(2331), Ok(40));
}

#[test]
fn data_longer_than_version_40_is_refused() {
    assert_eq!(
        pick_version(2332),
        Err("Données trop longues pour un QR code (limite de la norme atteinte)".to_string())
    );
}

#[test]
fn alignment_positions() {
    assert_eq!(alignment_pattern_positions(1, 21), Vec::<usize>::new());
    assert_eq!(alignment_pattern_positions(2, 25), vec![6, 18]);
    assert_eq!(alignment_pattern_positions(7, 45), vec![6, 22, 38]);
    assert_eq!(alignment_pattern_positions(40, 177), vec![6, 30, 58, 86, 114, 142, 170]);
}

#[test]
fn format_and_version_words() {
    assert_eq!(compute_format_bits(), 0x5412);
    assert_eq!(compute_version_bits(7), 0x07C94);
    assert_eq!(compute_version_bits(40), 0x28C69);
}

#[test]
fn bits_of_a_word() {
    assert!(get_bit(0b1010, 1));
    assert!(!get_bit(0b1010, 0));
    assert!(get_bit(0x8000_0000, 31));
}
