//! A QR code made and drawn by the `qrcode` crate, coloured over a background
//! picture.
use vstd::prelude::*;
use vstd::string::*;
use vstd::utf8::encode_utf8;
use crate::args::Args;
use crate::canvas::{lemma_pixel_index, pixels_of, resize_triangle, triangle_resize, RgbaCanvas};
use crate::render::{bg_error_prefix, empty_link_message, fg_error_prefix, rgba};
use crate::text::{
    color_slices_char,
    parse_hex_color,
    slices_inside_char,
    spec_parse_hex_color,
    trim,
    trim_str,
};

verus! {

/// What `qrcode::QrCode::new` makes of `data`: the side in modules and the modules
/// row after row (dark is `true`), or the text of its error.
pub uninterp spec fn qrcode_symbol(data: Seq<u8>) -> Result<(int, Seq<bool>), Seq<char>>;

/// Encodes `data` with the `qrcode` crate (`QrCode::new`: medium error correction,
/// the smallest version that holds the data, the crate's own choice of mask).
/// The symbol is named by `qrcode_symbol`, not described; what the contract states
/// besides is that a symbol is a square of a normal version (21 to 177 modules a
/// side).
#[verifier::external_body]
fn qrcode_new(data: &[u8]) -> (r: Result<(usize, Vec<bool>), String>)
    ensures
        match r {
            Ok((w, m)) => {
                &&& qrcode_symbol(data@) == Ok::<(int, Seq<bool>), Seq<char>>((w as int, m@))
                &&& 21 <= w <= 177
                &&& m@.len() == w * w
            },
            Err(e) => qrcode_symbol(data@) == Err::<(int, Seq<bool>), Seq<char>>(e@),
        },
{
    match qrcode::QrCode::new(data) {
        Ok(code) => Ok(
            (
                code.width(),
                code.to_colors().into_iter().map(|c| c != qrcode::Color::Light).collect(),
            ),
        ),
        Err(e) => Err(e.to_string()),
    }
}

/// The side of a module, in pixels, that the `qrcode` renderer picks for a
/// picture at least `size` pixels wide: the symbol and its border of 4 modules on
/// each side cover `width + 8` modules, and a module is at least one pixel.
pub open spec fn render_unit(size: int, width: int) -> int {
    let u = (size + (width + 8) - 1) / (width + 8);
    if u < 1 {
        1
    } else {
        u
    }
}

/// Whether pixel (px, py) of the rendered picture falls on a dark module.
pub open spec fn rendered_dark(width: int, modules: Seq<bool>, unit: int, px: int, py: int) -> bool {
    let x = px / unit - 4;
    let y = py / unit - 4;
    0 <= x < width && 0 <= y < width && modules[y * width + x]
}

/// Draws a `width`-wide symbol (dark is `true`) in 8-bit grey with the `qrcode`
/// crate's renderer (`Renderer::<Luma<u8>>` with a border of 4 modules,
/// `min_dimensions(size, size)`, `quiet_zone(true)`, `build`): dark modules are 0
/// and everything else 255, as squares of `render_unit` pixels.
#[verifier::external_body]
fn render_luma(width: usize, modules: &[bool], size: u32) -> (r: (u32, Vec<u8>))
    requires
        21 <= width <= 177,
        modules@.len() == width * width,
        size + width + 8 <= u32::MAX,
        (width + 8) * render_unit(size as int, width as int) <= u32::MAX,
        (width + 8) * render_unit(size as int, width as int) * ((width + 8) * render_unit(
            size as int,
            width as int,
        )) <= usize::MAX,
    ensures
        r.0 == (width + 8) * render_unit(size as int, width as int),
        r.1@.len() == r.0 * r.0,
        forall|i: int|
            0 <= i < r.1@.len() ==> #[trigger] r.1@[i] == if rendered_dark(
                width as int,
                modules@,
                render_unit(size as int, width as int),
                i % (r.0 as int),
                i / (r.0 as int),
            ) {
                0u8
            } else {
                255u8
            },
{
    let colors: Vec<qrcode::Color> = modules.iter().map(
        |&dark|
            if dark {
                qrcode::Color::Dark
            } else {
                qrcode::Color::Light
            },
    ).collect();
    let image = qrcode::render::Renderer::<image::Luma<u8>>::new(&colors, width, 4).min_dimensions(
        size,
        size,
    ).quiet_zone(true).build();
    (image.width(), image.into_raw())
}

/// A symbol drawn in grey (0 dark, 255 light) on a square picture, with the colours
/// it is to be painted in.
pub struct QrMatrix {
    pub width: u32,
    pub pixels: Vec<u8>,
    pub fg: (u8, u8, u8),
    pub bg: (u8, u8, u8),
}

impl QrMatrix {
    /// As many pixels as the side says.
    pub open spec fn wf(&self) -> bool {
        self.pixels@.len() == self.width * self.width
    }
}

/// The prefix of the message for a link the `qrcode` crate refused.
pub open spec fn invalid_link_prefix() -> Seq<char> {
    "QR code invalide à partir du lien: "@
}

/// The first thing wrong with a request, once the `qrcode` crate answered
/// `symbol` for its link: a blank link, a link it refused, the foreground colour,
/// the background colour.
pub open spec fn matrix_error(
    link: Seq<char>,
    symbol: Result<(int, Seq<bool>), Seq<char>>,
    fg: Seq<char>,
    bg: Seq<char>,
) -> Option<Seq<char>> {
    if trim(link).len() == 0 {
        Some(empty_link_message())
    } else {
        match symbol {
            Err(m) => Some(invalid_link_prefix() + m),
            Ok(_) => match spec_parse_hex_color(fg) {
                Err(m) => Some(fg_error_prefix() + m),
                Ok(_) => match spec_parse_hex_color(bg) {
                    Err(m) => Some(bg_error_prefix() + m),
                    Ok(_) => None,
                },
            },
        }
    }
}

/// Whether drawing a request whose link gave `symbol` slices a colour inside a
/// character, or overflows the sizes of the picture.
pub open spec fn matrix_undefined(
    link: Seq<char>,
    symbol: Result<(int, Seq<bool>), Seq<char>>,
    size: u32,
    fg: Seq<char>,
    bg: Seq<char>,
) -> bool {
    trim(link).len() > 0 && symbol is Ok && {
        ||| color_slices_char(fg)
        ||| spec_parse_hex_color(fg) is Ok && color_slices_char(bg)
        ||| matrix_error(link, symbol, fg, bg) is None && {
            let w = symbol->Ok_0.0;
            let side = (w + 8) * render_unit(size as int, w);
            size + w + 8 > u32::MAX || side > u32::MAX || side * side > usize::MAX
        }
    }
}

/// Checks a request whose link the `qrcode` crate encoded as `symbol`, and draws
/// the symbol in grey.
pub fn matrix_from_symbol(link: &str, symbol: Result<(usize, Vec<bool>), String>, args: &Args) -> (r:
    Result<QrMatrix, String>)
    requires
        symbol matches Ok((w, m)) ==> 21 <= w <= 177 && m@.len() == w * w,
        !matrix_undefined(
            link@,
            match symbol {
                Ok((w, m)) => Ok((w as int, m@)),
                Err(e) => Err(e@),
            },
            args.size,
            args.fg@,
            args.bg@,
        ),
    ensures
        ({
            let sym = match symbol {
                Ok((w, m)) => Ok((w as int, m@)),
                Err(e) => Err(e@),
            };
            match r {
                Ok(q) => {
                    &&& matrix_error(link@, sym, args.fg@, args.bg@) is None
                    &&& q.wf()
                    &&& spec_parse_hex_color(args.fg@) == Ok::<(u8, u8, u8), Seq<char>>(q.fg)
                    &&& spec_parse_hex_color(args.bg@) == Ok::<(u8, u8, u8), Seq<char>>(q.bg)
                    &&& q.width >= args.size
                    &&& symbol matches Ok((w, m)) && q.width == (w + 8) * render_unit(
                        args.size as int,
                        w as int,
                    ) && forall|i: int|
                        0 <= i < q.pixels@.len() ==> #[trigger] q.pixels@[i] == if rendered_dark(
                            w as int,
                            m@,
                            render_unit(args.size as int, w as int),
                            i % (q.width as int),
                            i / (q.width as int),
                        ) {
                            0u8
                        } else {
                            255u8
                        }
                },
                Err(e) => matrix_error(link@, sym, args.fg@, args.bg@) == Some(e@),
            }
        }),
{
    if trim_str(link).is_empty() {
        return Err(String::from_str("Le lien ne peut pas être vide."));
    }
    let (width, modules) = match symbol {
        Ok(s) => s,
        Err(e) => {
            let mut s = String::from_str("QR code invalide à partir du lien: ");
            s.append(e.as_str());
            return Err(s);
        },
    };
    let fg = match parse_hex_color(args.fg.as_str()) {
        Ok(c) => c,
        Err(e) => {
            let mut s = String::from_str("Couleur de premier plan invalide: ");
            s.append(e);
            return Err(s);
        },
    };
    let bg = match parse_hex_color(args.bg.as_str()) {
        Ok(c) => c,
        Err(e) => {
            let mut s = String::from_str("Couleur de fond invalide: ");
            s.append(e);
            return Err(s);
        },
    };
    let (side, pixels) = render_luma(width, modules.as_slice(), args.size);
    proof {
        lemma_render_unit(args.size as int, width as int);
    }
    Ok(QrMatrix { width: side, pixels, fg, bg })
}

/// Encodes the link of a request with the `qrcode` crate and draws it in grey;
/// `None` where drawing it would slice a colour inside a character or overflow the
/// sizes of the picture.
pub fn qr_matrix(link: &str, args: &Args) -> (r: Option<Result<QrMatrix, String>>)
    ensures
        ({
            let sym = qrcode_symbol(link.spec_bytes());
            &&& r is None <==> matrix_undefined(link@, sym, args.size, args.fg@, args.bg@)
            &&& r matches Some(Err(e)) ==> matrix_error(link@, sym, args.fg@, args.bg@) == Some(
                e@,
            )
            &&& r matches Some(Ok(q)) ==> {
                &&& matrix_error(link@, sym, args.fg@, args.bg@) is None
                &&& q.wf()
                &&& spec_parse_hex_color(args.fg@) == Ok::<(u8, u8, u8), Seq<char>>(q.fg)
                &&& spec_parse_hex_color(args.bg@) == Ok::<(u8, u8, u8), Seq<char>>(q.bg)
                &&& q.width >= args.size
                &&& sym matches Ok((w, m)) && 21 <= w <= 177 && q.width == (w + 8) * render_unit(args.size as int, w)
                    && forall|i: int|
                    0 <= i < q.pixels@.len() ==> #[trigger] q.pixels@[i] == if rendered_dark(
                        w,
                        m,
                        render_unit(args.size as int, w),
                        i % (q.width as int),
                        i / (q.width as int),
                    ) {
                        0u8
                    } else {
                        255u8
                    }
            }
        }),
{
    if trim_str(link).is_empty() {
        return Some(Err(String::from_str("Le lien ne peut pas être vide.")));
    }
    let symbol = qrcode_new(link.as_bytes());
    {
        if let Ok((w, _)) = &symbol {
            let width = *w as u64;
            if slices_inside_char(args.fg.as_str()) {
                return None;
            }
            match parse_hex_color(args.fg.as_str()) {
                Err(_) => {},
                Ok(_) => {
                    if slices_inside_char(args.bg.as_str()) {
                        return None;
                    }
                    if parse_hex_color(args.bg.as_str()).is_ok() {
                        let size = args.size as u64;
                        if size + width + 8 > 0xffff_ffff {
                            return None;
                        }
                        let q = (size + (width + 8) - 1) / (width + 8);
                        let unit = if q < 1 {
                            1
                        } else {
                            q
                        };
                        proof {
                            assert((width + 8) * unit <= 185 * 0xffff_ffffu64) by (nonlinear_arith)
                                requires
                                    width <= 177,
                                    unit <= 0xffff_ffffu64,
                            ;
                        }
                        let side = (width + 8) * unit;
                        if side > 0xffff_ffff {
                            return None;
                        }
                        proof {
                            assert(side * side <= 0xffff_ffffu64 * 0xffff_ffffu64) by (nonlinear_arith)
                                requires
                                    side <= 0xffff_ffffu64,
                            ;
                        }
                        if (side as u128) * (side as u128) > usize::MAX as u128 {
                            return None;
                        }
                    }
                },
            }
        }
    }
    Some(matrix_from_symbol(link, symbol, args))
}

/// The picture of a request: dark pixels in the foreground colour, the others
/// taken from the background picture resized to the picture's side, or in the
/// background colour without one.
pub open spec fn colored_pixel(m: QrMatrix, resized: Option<Seq<[u8; 4]>>, i: int) -> [u8; 4] {
    if m.pixels@[i] == 0 {
        rgba(m.fg)
    } else {
        match resized {
            Some(b) => b[i],
            None => rgba(m.bg),
        }
    }
}

/// Colours a grey symbol: dark pixels in the foreground colour, the others from
/// the background picture (resized with the triangle filter to the symbol's side)
/// or in the background colour.
pub fn colorize(m: &QrMatrix, background: Option<&RgbaCanvas>) -> (r: RgbaCanvas)
    requires
        m.wf(),
        m.width * m.width * 4 <= usize::MAX,
        background matches Some(b) ==> b.wf(),
    ensures
        r.width == m.width,
        r.height == m.width,
        r.wf(),
        forall|i: int|
            0 <= i < r.pixels@.len() ==> #[trigger] r.pixels@[i] == colored_pixel(
                *m,
                match background {
                    Some(b) => Some(triangle_resize(b.width, b.height, b.pixels@, m.width, m.width)),
                    None => None,
                },
                i,
            ),
{
    let resized = match background {
        Some(b) => Some(resize_triangle(b, m.width, m.width)),
        None => None,
    };
    let fg = [m.fg.0, m.fg.1, m.fg.2, 255];
    let bg = [m.bg.0, m.bg.1, m.bg.2, 255];
    let n = m.pixels.len();
    let mut pixels: Vec<[u8; 4]> = Vec::new();
    let mut k: usize = 0;
    while k < n
        invariant
            k <= n,
            n == m.pixels@.len(),
            n == m.width * m.width,
            fg == rgba(m.fg),
            bg == rgba(m.bg),
            resized matches Some(c) ==> c.pixels@.len() == n,
            pixels@.len() == k,
            forall|i: int|
                0 <= i < k ==> #[trigger] pixels@[i] == colored_pixel(*m, pixels_of(resized), i),
        decreases n - k,
    {
        let color = if m.pixels[k] == 0 {
            fg
        } else {
            match &resized {
                Some(c) => c.pixels[k],
                None => bg,
            }
        };
        pixels.push(color);
        k += 1;
    }
    RgbaCanvas { width: m.width, height: m.width, pixels }
}

} // verus!

verus! {

/// The rendered picture is at least `size` pixels wide, border included, and one
/// pixel less a module would make it narrower.
pub proof fn lemma_render_unit(size: int, width: int)
    requires
        size >= 0,
        width >= 0,
    ensures
        (width + 8) * render_unit(size, width) >= size,
        render_unit(size, width) == 1 || (width + 8) * (render_unit(size, width) - 1) < size,
{
    crate::render::lemma_module_scale(size, width + 8);
}

} // verus!
