use qrust_code::args::Args;
use qrust_code::canvas::{apply_tables, fill_quiet_zone, ChannelTables, RgbaCanvas};
use qrust_code::render::{compose_qr, plan_is_defined, plan_qr};
use qrust_code::svg::{background_from_png, build_svg_with, encode_background};

fn identity() -> ChannelTables {
    let t: Vec<u8> = (0..=255u8).collect();
    ChannelTables { red: t.clone(), green: t.clone(), blue: t }
}

fn inverted() -> ChannelTables {
    let t: Vec<u8> = (0..=255u8).map(|v| 255 - v).collect();
    ChannelTables { red: t.clone(), green: t.clone(), blue: t }
}

fn args() -> Args {
    Args::default()
}

#[test]
fn default_options() {
    let a = Args::default();
    assert_eq!(a.link, None);
    assert_eq!(a.output, "qrcode.svg");
    assert_eq!(a.size, 256);
    assert_eq!(a.fg, "#000000");
    assert_eq!(a.bg, "#ffffff");
    assert_eq!(a.bg_image, None);
    assert!(!a.gui);
}

#[test]
fn background_path_of_a_request() {
    let mut a = args();
    assert_eq!(a.background_path(), None);
    a.bg_image = Some("   ".to_string());
    assert_eq!(a.background_path(), None);
    a.bg_image = Some("fond.png".to_string());
    assert_eq!(a.background_path(), Some("fond.png"));
}

#[test]
fn plan_of_a_link() {
    let p = plan_qr("https://example.com", &args()).unwrap();
    assert_eq!(p.code.size(), 25);
    assert_eq!(p.quiet_zone, 4);
    assert_eq!(p.scale, 11);
    assert_eq!(p.dim, 363);
    assert_eq!(p.fg, (0, 0, 0));
    assert_eq!(p.bg, (255, 255, 255));
}

#[test]
fn modules_are_at_least_one_pixel() {
    let mut a = args();
    a.size = 0;
    let p = plan_qr("x", &a).unwrap();
    assert_eq!(p.scale, 1);
    assert_eq!(p.dim, 29);
}

#[test]
fn errors_of_a_request_in_order() {
    let mut a = args();
    assert_eq!(plan_qr("  \t", &a).err().unwrap(), "Le lien ne peut pas être vide.");
    a.fg = "#12".to_string();
    a.bg = "#zz0000".to_string();
    assert_eq!(
        plan_qr("lien", &a).err().unwrap(),
        "Couleur de premier plan invalide: attendu format hex sur 6 caractères, ex: #aabbcc"
    );
    a.fg = "#123456".to_string();
    assert_eq!(
        plan_qr("lien", &a).err().unwrap(),
        "Couleur de fond invalide: valeur rouge invalide"
    );
    a.bg = "#ffffff".to_string();
    let long = "a".repeat(3000);
    assert_eq!(
        plan_qr(&long, &a).err().unwrap(),
        "Impossible de générer le QR code: Données trop longues pour un QR code (limite de la norme atteinte)"
    );
}

#[test]
fn requests_that_cannot_be_planned() {
    let mut a = args();
    assert!(plan_is_defined("lien", &a));
    assert!(plan_is_defined("", &a));
    a.fg = "#aéabc".to_string();
    assert!(!plan_is_defined("lien", &a));
    // A blank link is refused before the colours are read.
    assert!(plan_is_defined(" ", &a));
    a.fg = "#000000".to_string();
    a.size = u32::MAX;
    assert!(!plan_is_defined("lien", &a));
}

#[test]
fn preview_without_background() {
    let p = plan_qr("https://example.com", &args()).unwrap();
    let out = compose_qr(&p, None, &identity(), &identity(), false).unwrap();
    assert!(out.svg.is_none());
    let img = out.preview;
    assert_eq!((img.width, img.height), (363, 363));
    let at = |x: usize, y: usize| img.pixels[y * 363 + x];
    // The border is the background colour.
    assert_eq!(at(0, 0), [255, 255, 255, 255]);
    assert_eq!(at(43, 43), [255, 255, 255, 255]);
    // The top-left finder's corner module is dark over its whole square.
    assert_eq!(at(44, 44), [0, 0, 0, 255]);
    assert_eq!(at(54, 54), [0, 0, 0, 255]);
    // The ring two modules in is light.
    assert_eq!(at(44 + 11, 44 + 11), [255, 255, 255, 255]);
}

#[test]
fn preview_over_a_background_picture() {
    let mut a = args();
    a.fg = "#102030".to_string();
    a.bg = "#405060".to_string();
    let p = plan_qr("https://example.com", &a).unwrap();
    let picture = RgbaCanvas::filled(363, 363, [200, 100, 50, 128]);
    let out = compose_qr(&p, Some(picture), &identity(), &inverted(), true).unwrap();
    let img = out.preview;
    let at = |x: usize, y: usize| img.pixels[y * 363 + x];
    // The border of the picture is painted in the background colour.
    assert_eq!(at(0, 0), [64, 80, 96, 255]);
    // Dark modules take the foreground colour.
    assert_eq!(at(44, 44), [16, 32, 48, 255]);
    // Light modules are blended through the tables; alpha is kept.
    assert_eq!(at(55, 55), [55, 155, 205, 128]);
    // The SVG draws the picture as a data URI.
    let svg = out.svg.unwrap();
    assert!(svg.contains("<image href=\"data:image/png;base64,iVBORw0KGgo"));
    assert!(svg.contains("<g fill=\"#102030\">"));
}

#[test]
fn svg_document_of_a_plan() {
    let p = plan_qr("https://example.com", &args()).unwrap();
    let out = compose_qr(&p, None, &identity(), &identity(), true).unwrap();
    let svg = out.svg.unwrap();
    assert!(svg.starts_with(
        "<svg xmlns=\"http://www.w3.org/2000/svg\" width=\"363\" height=\"363\" viewBox=\"0 0 363 363\" shape-rendering=\"crispEdges\">\n<rect width=\"100%\" height=\"100%\" fill=\"#ffffff\" />\n<g fill=\"#000000\">"
    ));
    assert!(svg.contains("<rect x=\"44\" y=\"44\" width=\"11\" height=\"11\" />\n"));
    assert!(!svg.contains("<rect x=\"55\" y=\"55\" "));
    assert!(svg.ends_with("</g></svg>"));
    let n = p.code.size();
    let dark = (0..n * n).filter(|&i| p.code.get_module(i % n, i / n)).count();
    assert_eq!(svg.matches("<rect x=").count(), dark);
}

#[test]
fn svg_with_a_given_background_uri() {
    let p = plan_qr("a", &args()).unwrap();
    let svg = build_svg_with(&p.code, p.dim, p.scale, 4, (0, 0, 0), (1, 2, 3), Some("data:x"));
    assert!(svg.contains("<image href=\"data:x\" x=\"0\" y=\"0\" width=\"377\" height=\"377\" preserveAspectRatio=\"none\" />\n"));
}

#[test]
fn background_as_data_uri() {
    let img = RgbaCanvas::filled(2, 2, [1, 2, 3, 255]);
    let uri = encode_background(&img).unwrap();
    assert!(uri.starts_with("data:image/png;base64,iVBORw0KGgo"));
    assert!(uri.len() > "data:image/png;base64,".len() + 40);
    assert_eq!(background_from_png(Ok(vec![77, 97, 110])), Ok("data:image/png;base64,TWFu".to_string()));
    assert_eq!(
        background_from_png(Err("disque plein".to_string())),
        Err("Impossible d'encoder l'image de fond: disque plein".to_string())
    );
}

#[test]
fn quiet_zone_of_a_picture() {
    let mut img = RgbaCanvas::filled(5, 4, [9, 9, 9, 9]);
    fill_quiet_zone(&mut img, 1, [1, 1, 1, 255]);
    let at = |img: &RgbaCanvas, x: usize, y: usize| img.pixels[y * 5 + x];
    assert_eq!(at(&img, 0, 0), [1, 1, 1, 255]);
    assert_eq!(at(&img, 4, 2), [1, 1, 1, 255]);
    assert_eq!(at(&img, 2, 3), [1, 1, 1, 255]);
    assert_eq!(at(&img, 1, 1), [9, 9, 9, 9]);
    assert_eq!(at(&img, 3, 2), [9, 9, 9, 9]);
    // A border wider than the picture covers all of it.
    fill_quiet_zone(&mut img, 10, [2, 2, 2, 2]);
    assert!(img.pixels.iter().all(|p| *p == [2, 2, 2, 2]));
}

#[test]
fn channel_tables_keep_alpha() {
    let mut img = RgbaCanvas::filled(2, 1, [10, 20, 30, 40]);
    apply_tables(&mut img, &inverted());
    assert_eq!(img.pixels, vec![[245, 235, 225, 40], [245, 235, 225, 40]]);
}
