use qrust_code::args::Args;
use qrust_code::canvas::RgbaCanvas;
use qrust_code::qrcode_render::{colorize, matrix_from_symbol, qr_matrix, QrMatrix};

#[test]
fn the_qrcode_crate_draws_a_short_link() {
    let m = qr_matrix("hello", &Args::default()).unwrap().unwrap();
    // Version 1 is 21 modules wide; with the border, 29 modules of 9 pixels.
    assert_eq!(m.width, 261);
    assert_eq!(m.pixels.len(), 261 * 261);
    let at = |x: usize, y: usize| m.pixels[y * 261 + x];
    assert_eq!(at(0, 0), 255);
    assert_eq!(at(35, 35), 255);
    // The top-left finder starts right after the border.
    assert_eq!(at(36, 36), 0);
    assert_eq!(at(36 + 9 * 6 + 8, 36), 0);
    assert_eq!(at(36 + 9, 36 + 9), 255);
    assert_eq!((m.fg, m.bg), ((0, 0, 0), (255, 255, 255)));
}

#[test]
fn errors_before_drawing() {
    let mut a = Args::default();
    assert_eq!(
        qr_matrix(" ", &a).unwrap().err().unwrap(),
        "Le lien ne peut pas être vide."
    );
    let long = "é".repeat(2000);
    assert_eq!(
        qr_matrix(&long, &a).unwrap().err().unwrap(),
        "QR code invalide à partir du lien: data too long"
    );
    a.fg = "bleu".to_string();
    assert_eq!(
        qr_matrix("hello", &a).unwrap().err().unwrap(),
        "Couleur de premier plan invalide: attendu format hex sur 6 caractères, ex: #aabbcc"
    );
    a.fg = "#000000".to_string();
    a.bg = "#00zz00".to_string();
    assert_eq!(
        qr_matrix("hello", &a).unwrap().err().unwrap(),
        "Couleur de fond invalide: valeur verte invalide"
    );
}

#[test]
fn requests_that_cannot_be_drawn() {
    let mut a = Args::default();
    a.size = u32::MAX - 10;
    assert!(qr_matrix("hello", &a).is_none());
    a.size = 256;
    a.bg = "#aéabc".to_string();
    assert!(qr_matrix("hello", &a).is_none());
}

#[test]
fn drawing_a_given_symbol() {
    let mut modules = vec![false; 21 * 21];
    modules[0] = true;
    let mut a = Args::default();
    a.size = 0;
    let m = matrix_from_symbol("x", Ok((21, modules)), &a).unwrap();
    // One pixel a module: the only dark module sits right after the border.
    assert_eq!(m.width, 29);
    assert_eq!(m.pixels[4 * 29 + 4], 0);
    assert_eq!(m.pixels.iter().filter(|&&p| p == 0).count(), 1);
    assert_eq!(
        matrix_from_symbol("x", Err("data too long".to_string()), &a).err().unwrap(),
        "QR code invalide à partir du lien: data too long"
    );
}

#[test]
fn colouring_without_background() {
    let m = QrMatrix { width: 2, pixels: vec![0, 255, 255, 0], fg: (1, 2, 3), bg: (4, 5, 6) };
    let img = colorize(&m, None);
    assert_eq!(img.pixels, vec![[1, 2, 3, 255], [4, 5, 6, 255], [4, 5, 6, 255], [1, 2, 3, 255]]);
}

#[test]
fn colouring_over_a_resized_background() {
    let m = QrMatrix { width: 4, pixels: vec![0; 8].into_iter().chain(vec![255; 8]).collect(), fg: (1, 2, 3), bg: (4, 5, 6) };
    let picture = RgbaCanvas::filled(1, 1, [90, 80, 70, 255]);
    let img = colorize(&m, Some(&picture));
    assert_eq!((img.width, img.height), (4, 4));
    assert_eq!(img.pixels[0], [1, 2, 3, 255]);
    assert_eq!(img.pixels[15], [90, 80, 70, 255]);
}

#[test]
fn the_drawn_picture_is_at_least_the_asked_size() {
    let mut a = Args::default();
    for size in [0u32, 1, 29, 30, 100, 257, 1000] {
        a.size = size;
        let m = qr_matrix("hello", &a).unwrap().unwrap();
        assert!(m.width >= size);
        assert_eq!(m.width % 29, 0);
    }
}
