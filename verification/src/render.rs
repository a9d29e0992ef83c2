//! From a request to a symbol, its preview picture and its SVG document.
use vstd::prelude::*;
use vstd::string::*;
use vstd::utf8::encode_utf8;
use vstd::arithmetic::div_mod::{lemma_fundamental_div_mod, lemma_fundamental_div_mod_converse};
use crate::args::Args;
use crate::canvas::{
    apply_tables,
    fill_quiet_zone,
    in_quiet_zone,
    lemma_pixel_index,
    pixels_of,
    ChannelTables,
    RgbaCanvas,
};
use crate::svg::{background_result, build_svg, png_encoding, svg_document};
use crate::symbol::{symbol_function_modules, symbol_modules, ManualQrCode};
use crate::tables::{lemma_min_version, min_version, pick_version, too_long_message};
use crate::text::{
    color_slices_char,
    parse_hex_color,
    slices_inside_char,
    spec_parse_hex_color,
    trim,
    trim_str,
};

verus! {

/// The messages of a request: a blank link, and the prefixes of the others.
pub open spec fn empty_link_message() -> Seq<char> {
    "Le lien ne peut pas être vide."@
}

pub open spec fn fg_error_prefix() -> Seq<char> {
    "Couleur de premier plan invalide: "@
}

pub open spec fn bg_error_prefix() -> Seq<char> {
    "Couleur de fond invalide: "@
}

pub open spec fn encode_error_prefix() -> Seq<char> {
    "Impossible de générer le QR code: "@
}

/// The side, in modules, of the smallest symbol that holds `len` bytes.
pub open spec fn symbol_width(len: int) -> int {
    4 * min_version(len) + 17
}

/// The side, in pixels, of one module: the smallest that makes `modules` modules
/// at least `size` pixels wide, and at least one.
pub open spec fn module_scale(size: int, modules: int) -> int {
    let s = (size + modules - 1) / modules;
    if s < 1 {
        1
    } else {
        s
    }
}

/// The first thing wrong with a request, in the order the request is checked:
/// a blank link, the foreground colour, the background colour, a link too long.
pub open spec fn plan_error(link: Seq<char>, fg: Seq<char>, bg: Seq<char>) -> Option<Seq<char>> {
    if trim(link).len() == 0 {
        Some(empty_link_message())
    } else {
        match spec_parse_hex_color(fg) {
            Err(m) => Some(fg_error_prefix() + m),
            Ok(_) => match spec_parse_hex_color(bg) {
                Err(m) => Some(bg_error_prefix() + m),
                Ok(_) => if min_version(encode_utf8(link).len() as int) > 40 {
                    Some(encode_error_prefix() + too_long_message())
                } else {
                    None
                },
            },
        }
    }
}

/// Whether reading a colour of the request slices it inside a character.
pub open spec fn plan_panics(link: Seq<char>, fg: Seq<char>, bg: Seq<char>) -> bool {
    trim(link).len() > 0 && (color_slices_char(fg) || (spec_parse_hex_color(fg) is Ok
        && color_slices_char(bg)))
}

/// Whether the sizes of a valid request overflow 32 bits.
pub open spec fn plan_overflows(link: Seq<char>, size: u32, fg: Seq<char>, bg: Seq<char>) -> bool {
    plan_error(link, fg, bg) is None && {
        let m = symbol_width(encode_utf8(link).len() as int);
        size + m > u32::MAX || (m + 8) * module_scale(size as int, m) > u32::MAX
    }
}

/// A symbol with its colours and its placement on a square picture.
pub struct QrPlan {
    pub code: ManualQrCode,
    pub fg: (u8, u8, u8),
    pub bg: (u8, u8, u8),
    /// The border, in modules.
    pub quiet_zone: u32,
    /// The side of a module, in pixels.
    pub scale: u32,
    /// The side of the picture, in pixels.
    pub dim: u32,
}

impl QrPlan {
    /// A well-formed symbol with a border of 4 modules and modules of `scale` pixels.
    pub open spec fn wf(&self) -> bool {
        &&& self.code.wf()
        &&& self.quiet_zone == 4
        &&& self.scale >= 1
        &&& self.dim == (self.code.spec_size() + 2 * self.quiet_zone) * self.scale
    }
}

/// What `plan_qr` answers to a request for `link` at `size` pixels in colours `fg`
/// on `bg`: the symbol of the smallest version, its colours and module size, or the
/// first thing wrong with the request.
pub open spec fn planned(
    link: Seq<char>,
    size: u32,
    fg: Seq<char>,
    bg: Seq<char>,
    r: Result<QrPlan, String>,
) -> bool {
    match r {
        Ok(p) => {
            &&& plan_error(link, fg, bg) is None
            &&& p.wf()
            &&& p.code.spec_version() == min_version(encode_utf8(link).len() as int)
            &&& p.code.spec_modules() == symbol_modules(encode_utf8(link), p.code.spec_version())
            &&& p.code.spec_is_function() == symbol_function_modules(p.code.spec_version())
            &&& spec_parse_hex_color(fg) == Ok::<(u8, u8, u8), Seq<char>>(p.fg)
            &&& spec_parse_hex_color(bg) == Ok::<(u8, u8, u8), Seq<char>>(p.bg)
            &&& p.scale == module_scale(size as int, p.code.spec_size())
        },
        Err(e) => plan_error(link, fg, bg) == Some(e@),
    }
}

/// Checks a request and lays out its symbol: the link is encoded in the smallest
/// version, and modules are made large enough for the picture to reach `args.size`.
pub fn plan_qr(link: &str, args: &Args) -> (r: Result<QrPlan, String>)
    requires
        !plan_panics(link@, args.fg@, args.bg@),
        !plan_overflows(link@, args.size, args.fg@, args.bg@),
        link.spec_bytes().len() * 8 + 20 <= usize::MAX,
    ensures
        planned(link@, args.size, args.fg@, args.bg@, r),
{
    if trim_str(link).is_empty() {
        return Err(String::from_str("Le lien ne peut pas être vide."));
    }
    let fg = match parse_hex_color(args.fg.as_str()) {
        Ok(c) => c,
        Err(e) => {
            let mut s = String::from_str("Couleur de premier plan invalide: ");
            s.append(e);
            return Err(s);
        },
    };
    let bg = match parse_hex_color(args.bg.as_str()) {
        Ok(c) => c,
        Err(e) => {
            let mut s = String::from_str("Couleur de fond invalide: ");
            s.append(e);
            return Err(s);
        },
    };
    let bytes = link.as_bytes();
    let ghost len = bytes@.len() as int;
    let code = match ManualQrCode::encode(bytes) {
        Ok(c) => c,
        Err(e) => {
            proof {
                lemma_min_version(len, 41);
            }
            let mut s = String::from_str("Impossible de générer le QR code: ");
            s.append(e.as_str());
            return Err(s);
        },
    };
    proof {
        lemma_min_version(len, code.spec_version());
        assert(link.spec_bytes() == encode_utf8(link@));
        assert(plan_error(link@, args.fg@, args.bg@) is None);
        assert(symbol_width(len) == code.spec_size());
    }
    let modules = code.size() as u32;
    assert(modules == code.spec_size());
    let quiet_zone: u32 = 4;
    let q = (args.size + modules - 1) / modules;
    let scale = if q < 1 {
        1
    } else {
        q
    };
    proof {
        let m = modules as int;
        assert(m + 8 <= (m + 8) * scale) by (nonlinear_arith)
            requires
                scale >= 1,
                m >= 0,
        ;
    }
    let dim = (modules + quiet_zone * 2) * scale;
    Ok(QrPlan { code, fg, bg, quiet_zone, scale, dim })
}

/// Whether `plan_qr` may be called on a request: reading its colours slices no
/// character, its sizes fit in 32 bits and its length in bits fits in a `usize`.
pub fn plan_is_defined(link: &str, args: &Args) -> (r: bool)
    ensures
        r == (!plan_panics(link@, args.fg@, args.bg@) && !plan_overflows(
            link@,
            args.size,
            args.fg@,
            args.bg@,
        ) && link.spec_bytes().len() * 8 + 20 <= usize::MAX),
{
    let n = link.as_bytes().len();
    if n > (usize::MAX - 20) / 8 {
        return false;
    }
    proof {
        assert(n * 8 + 20 <= usize::MAX) by (nonlinear_arith)
            requires
                n <= (usize::MAX - 20) / 8,
        ;
        assert(link.spec_bytes() == encode_utf8(link@));
    }
    if trim_str(link).is_empty() {
        return true;
    }
    if slices_inside_char(args.fg.as_str()) {
        return false;
    }
    if parse_hex_color(args.fg.as_str()).is_err() {
        return true;
    }
    if slices_inside_char(args.bg.as_str()) {
        return false;
    }
    if parse_hex_color(args.bg.as_str()).is_err() {
        return true;
    }
    match pick_version(n) {
        Err(_) => {
            proof {
                lemma_min_version(n as int, 41);
            }
            true
        },
        Ok(v) => {
            proof {
                lemma_min_version(n as int, v as int);
            }
            let m = 4 * (v as u64) + 17;
            let size = args.size as u64;
            if size + m > 0xffff_ffff {
                return false;
            }
            let q = (size + m - 1) / m;
            let scale = if q < 1 {
                1
            } else {
                q
            };
            proof {
                assert((m + 8) * scale <= (m + 8) * 0xffff_ffffu64) by (nonlinear_arith)
                    requires
                        scale <= 0xffff_ffffu64,
                ;
            }
            (m + 8) * scale <= 0xffff_ffff
        },
    }
}

/// `(r, g, b)` as an opaque pixel.
pub open spec fn rgba(c: (u8, u8, u8)) -> [u8; 4] {
    [c.0, c.1, c.2, 255]
}

/// The module drawn at pixel (px, py) of the picture, `Some(dark)`, or `None` on
/// the border.
pub open spec fn module_at(p: QrPlan, px: int, py: int) -> Option<bool> {
    let n = p.code.spec_size();
    let mx = px / (p.scale as int) - p.quiet_zone;
    let my = py / (p.scale as int) - p.quiet_zone;
    if 0 <= mx < n && 0 <= my < n {
        Some(p.code.spec_modules()[my * n + mx])
    } else {
        None
    }
}

/// The background picture once softened and framed: each pixel through the
/// overlay tables, then the border painted in the background colour.
pub open spec fn prepared_background(p: QrPlan, img: Seq<[u8; 4]>, overlay: ChannelTables) -> Seq<
    [u8; 4],
> {
    Seq::new(
        img.len(),
        |i: int|
            if in_quiet_zone(
                p.dim as int,
                p.dim as int,
                p.quiet_zone * p.scale,
                i % (p.dim as int),
                i / (p.dim as int),
            ) {
                rgba(p.bg)
            } else {
                overlay.mapped(img[i])
            },
    )
}

/// Pixel `i` of the preview: dark modules in the foreground colour; light modules
/// blended into the background picture, or the background colour without one.
pub open spec fn preview_pixel(
    p: QrPlan,
    background: Option<Seq<[u8; 4]>>,
    blend: ChannelTables,
    i: int,
) -> [u8; 4] {
    match (module_at(p, i % (p.dim as int), i / (p.dim as int)), background) {
        (Some(true), _) => rgba(p.fg),
        (Some(false), Some(b)) => blend.mapped(b[i]),
        (None, Some(b)) => b[i],
        (_, None) => rgba(p.bg),
    }
}

/// Softens the background picture through the overlay tables, then paints the
/// border in the background colour.
pub fn prepare_background(p: &QrPlan, img: RgbaCanvas, overlay: &ChannelTables) -> (r: RgbaCanvas)
    requires
        p.wf(),
        img.wf(),
        img.width == p.dim,
        img.height == p.dim,
        overlay.wf(),
    ensures
        r.width == p.dim,
        r.height == p.dim,
        r.wf(),
        r.pixels@ == prepared_background(*p, img.pixels@, *overlay),
{
    let mut img = img;
    let ghost before = img.pixels@;
    apply_tables(&mut img, overlay);
    proof {
        assert(4 * p.scale <= p.dim) by (nonlinear_arith)
            requires
                p.dim == (p.code.spec_size() + 8) * p.scale,
                p.code.spec_size() >= 0,
                p.scale >= 1,
        ;
    }
    fill_quiet_zone(&mut img, p.quiet_zone * p.scale, [p.bg.0, p.bg.1, p.bg.2, 255]);
    assert(img.pixels@ =~= prepared_background(*p, before, *overlay));
    img
}

/// The preview picture: dark modules in the foreground colour over the background
/// picture, whose light modules are blended through `blend`, or over the
/// background colour.
pub fn paint_preview(p: &QrPlan, background: Option<RgbaCanvas>, blend: &ChannelTables) -> (r:
    RgbaCanvas)
    requires
        p.wf(),
        p.dim * p.dim <= usize::MAX,
        blend.wf(),
        background matches Some(b) ==> b.width == p.dim && b.height == p.dim && b.wf(),
    ensures
        r.width == p.dim,
        r.height == p.dim,
        r.wf(),
        forall|i: int|
            0 <= i < p.dim * p.dim ==> #[trigger] r.pixels@[i] == preview_pixel(
                *p,
                pixels_of(background),
                *blend,
                i,
            ),
{
    let ghost bgs = pixels_of(background);
    let has_background = background.is_some();
    let mut colored = match background {
        Some(b) => b,
        None => RgbaCanvas::filled(p.dim, p.dim, [p.bg.0, p.bg.1, p.bg.2, 255]),
    };
    let ghost start = colored.pixels@;
    let fg = [p.fg.0, p.fg.1, p.fg.2, 255];
    let dim = p.dim;
    let n = colored.pixels.len();
    let size = p.code.size();
    let ghost d = dim as int;
    let mut k: usize = 0;
    while k < n
        invariant
            p.wf(),
            blend.wf(),
            dim == p.dim,
            d == dim,
            size == p.code.spec_size(),
            n == d * d,
            colored.width == dim,
            colored.height == dim,
            colored.pixels@.len() == n,
            start.len() == n,
            has_background == bgs is Some,
            bgs matches Some(b) ==> b == start,
            bgs is None ==> forall|i: int| 0 <= i < n ==> #[trigger] start[i] == rgba(p.bg),
            fg == rgba(p.fg),
            k <= n,
            forall|i: int| 0 <= i < k ==> #[trigger] colored.pixels@[i] == preview_pixel(*p, bgs, *blend, i),
            forall|i: int| k <= i < n ==> #[trigger] colored.pixels@[i] == start[i],
        decreases n - k,
    {
        proof {
            assert(0 < d) by (nonlinear_arith)
                requires
                    0 <= k < n,
                    n == d * d,
                    d >= 0,
            ;
            assert((k as int) / d < d) by (nonlinear_arith)
                requires
                    0 <= k < d * d,
                    0 < d,
            ;
        }
        let px = (k % (dim as usize)) as u32;
        let py = (k / (dim as usize)) as u32;
        let mx = px / p.scale;
        let my = py / p.scale;
        if mx >= p.quiet_zone && my >= p.quiet_zone && ((mx - p.quiet_zone) as usize) < size && ((
        my - p.quiet_zone) as usize) < size {
            let x = (mx - p.quiet_zone) as usize;
            let y = (my - p.quiet_zone) as usize;
            if p.code.get_module(x, y) {
                colored.pixels.set(k, fg);
            } else if has_background {
                let cur = colored.pixels[k];
                colored.pixels.set(k, blend.map_pixel(cur));
            }
        }
        k += 1;
    }
    colored
}

/// A preview picture and, when asked for, the SVG document of a symbol.
pub struct QrImages {
    pub preview: RgbaCanvas,
    pub svg: Option<String>,
}

/// The SVG document of a plan over a background given as a data URI, or over the
/// background colour.
pub open spec fn plan_svg(p: QrPlan, uri: Option<Seq<char>>) -> Seq<char> {
    svg_document(
        p.code.spec_modules(),
        p.code.spec_size(),
        p.dim,
        p.scale,
        p.quiet_zone,
        p.fg,
        p.bg,
        uri,
    )
}

/// The background of the SVG document: no picture, the data URI of the prepared
/// picture, or the message of its failed encoding.
pub open spec fn plan_background_uri(p: QrPlan, prepared: Option<Seq<[u8; 4]>>) -> Result<
    Option<Seq<char>>,
    Seq<char>,
> {
    match prepared {
        None => Ok(None),
        Some(b) => match background_result(png_encoding(p.dim, p.dim, b)) {
            Ok(u) => Ok(Some(u)),
            Err(m) => Err(m),
        },
    }
}

/// What `compose_qr` gives for a plan, a background picture, the overlay and blend
/// tables, and whether the SVG document is asked for: the preview pixel by pixel,
/// the document where asked for, and the message of a failed PNG encoding.
pub open spec fn composed(
    p: QrPlan,
    background: Option<RgbaCanvas>,
    overlay: ChannelTables,
    blend: ChannelTables,
    with_svg: bool,
    r: Result<QrImages, String>,
) -> bool {
    let prepared = match background {
        Some(b) => Some(prepared_background(p, b.pixels@, overlay)),
        None => None,
    };
    let uri = plan_background_uri(p, prepared);
    &&& r matches Ok(out) ==> {
        &&& out.preview.width == p.dim
        &&& out.preview.height == p.dim
        &&& out.preview.wf()
        &&& forall|i: int|
            0 <= i < p.dim * p.dim ==> #[trigger] out.preview.pixels@[i] == preview_pixel(
                p,
                prepared,
                blend,
                i,
            )
        &&& (out.svg is Some <==> with_svg)
        &&& out.svg matches Some(s) ==> uri matches Ok(u) && s@ == plan_svg(p, u)
    }
    &&& r matches Err(e) ==> with_svg && (uri matches Err(m) && e@ == m)
    &&& (!with_svg || uri is Ok) ==> r is Ok
}

/// Draws a planned symbol: the background picture (already resized to the
/// picture's side) is softened and framed, the preview painted over it, and,
/// when `with_svg`, the SVG document built.
pub fn compose_qr(
    p: &QrPlan,
    background: Option<RgbaCanvas>,
    overlay: &ChannelTables,
    blend: &ChannelTables,
    with_svg: bool,
) -> (r: Result<QrImages, String>)
    requires
        p.wf(),
        p.dim * p.dim <= usize::MAX,
        overlay.wf(),
        blend.wf(),
        background matches Some(b) ==> b.width == p.dim && b.height == p.dim && b.wf(),
    ensures
        composed(*p, background, *overlay, *blend, with_svg, r),
{
    let prepared = match background {
        Some(img) => Some(prepare_background(p, img, overlay)),
        None => None,
    };
    let svg = if with_svg {
        proof {
            let m = p.code.spec_size();
            assert((m + 4) * p.scale <= p.dim && m + 4 <= p.dim) by (nonlinear_arith)
                requires
                    p.dim == (m + 8) * p.scale,
                    m >= 0,
                    p.scale >= 1,
            ;
        }
        match build_svg(&p.code, p.dim, p.scale, p.quiet_zone, p.fg, p.bg, prepared.as_ref()) {
            Ok(s) => Some(s),
            Err(e) => {
                return Err(e);
            },
        }
    } else {
        None
    };
    let preview = paint_preview(p, prepared, blend);
    Ok(QrImages { preview, svg })
}

/// What a request produced: where the SVG document goes, and the preview picture.
pub struct GeneratedQr {
    pub path: String,
    pub preview: RgbaCanvas,
}

} // verus!

verus! {

/// The modules drawn `module_scale` pixels wide cover at least `size` pixels, and
/// one pixel less a module would cover fewer.
pub proof fn lemma_module_scale(size: int, modules: int)
    requires
        size >= 0,
        modules >= 1,
    ensures
        modules * module_scale(size, modules) >= size,
        module_scale(size, modules) == 1 || modules * (module_scale(size, modules) - 1) < size,
{
    let q = (size + modules - 1) / modules;
    lemma_fundamental_div_mod(size + modules - 1, modules);
    let r = (size + modules - 1) % modules;
    assert(0 <= r < modules);
    assert(modules * q == size + modules - 1 - r);
    if q >= 1 {
        assert(modules * (q - 1) == modules * q - modules) by (nonlinear_arith);
    } else {
        assert(q == 0);
        assert(modules * q == 0) by (nonlinear_arith)
            requires
                q == 0,
        ;
        assert(size == 0);
    }
}

/// A planned symbol is at least `size` pixels wide without its border, and so is
/// the picture.
pub proof fn lemma_plan_reaches_size(p: QrPlan, size: u32)
    requires
        p.wf(),
        p.scale == module_scale(size as int, p.code.spec_size()),
    ensures
        p.code.spec_size() * p.scale >= size,
        p.dim >= size,
{
    let m = p.code.spec_size();
    lemma_module_scale(size as int, m);
    assert(m * p.scale <= (m + 8) * p.scale) by (nonlinear_arith)
        requires
            p.scale >= 1,
            m >= 0,
    ;
}

/// Every pixel of the square of module (x, y) shows that module: the foreground
/// colour where it is dark; where it is light, the blended background picture, or
/// the background colour without one.
pub proof fn lemma_module_square(
    p: QrPlan,
    background: Option<Seq<[u8; 4]>>,
    blend: ChannelTables,
    x: int,
    y: int,
    dx: int,
    dy: int,
)
    requires
        p.wf(),
        0 <= x < p.code.spec_size(),
        0 <= y < p.code.spec_size(),
        0 <= dx < p.scale,
        0 <= dy < p.scale,
    ensures
        ({
            let px = (x + p.quiet_zone) * p.scale + dx;
            let py = (y + p.quiet_zone) * p.scale + dy;
            let i = py * p.dim + px;
            &&& 0 <= i < p.dim * p.dim
            &&& preview_pixel(p, background, blend, i) == if p.code.spec_modules()[y
                * p.code.spec_size() + x] {
                rgba(p.fg)
            } else {
                match background {
                    Some(b) => blend.mapped(b[i]),
                    None => rgba(p.bg),
                }
            }
        }),
{
    let n = p.code.spec_size();
    let s = p.scale as int;
    let px = (x + 4) * s + dx;
    let py = (y + 4) * s + dy;
    assert((x + 4) * s + s == (x + 5) * s) by (nonlinear_arith);
    assert((y + 4) * s + s == (y + 5) * s) by (nonlinear_arith);
    assert((x + 5) * s <= (n + 8) * s) by (nonlinear_arith)
        requires
            x < n,
            s >= 1,
    ;
    assert((y + 5) * s <= (n + 8) * s) by (nonlinear_arith)
        requires
            y < n,
            s >= 1,
    ;
    assert(0 <= px && 0 <= py) by (nonlinear_arith)
        requires
            px == (x + 4) * s + dx,
            py == (y + 4) * s + dy,
            x >= 0,
            y >= 0,
            dx >= 0,
            dy >= 0,
            s >= 1,
    ;
    lemma_pixel_index(p.dim as int, p.dim as int, px, py);
    lemma_fundamental_div_mod_converse(px, s, x + 4, dx);
    lemma_fundamental_div_mod_converse(py, s, y + 4, dy);
}

/// Every pixel of the border, `quiet_zone` modules wide, shows no module: the
/// background picture, or the background colour without one.
pub proof fn lemma_border_pixel(
    p: QrPlan,
    background: Option<Seq<[u8; 4]>>,
    blend: ChannelTables,
    px: int,
    py: int,
)
    requires
        p.wf(),
        0 <= px < p.dim,
        0 <= py < p.dim,
        px < p.quiet_zone * p.scale || py < p.quiet_zone * p.scale || px >= (p.code.spec_size()
            + p.quiet_zone) * p.scale || py >= (p.code.spec_size() + p.quiet_zone) * p.scale,
    ensures
        ({
            let i = py * p.dim + px;
            &&& 0 <= i < p.dim * p.dim
            &&& preview_pixel(p, background, blend, i) == match background {
                Some(b) => b[i],
                None => rgba(p.bg),
            }
        }),
{
    let n = p.code.spec_size();
    let s = p.scale as int;
    lemma_pixel_index(p.dim as int, p.dim as int, px, py);
    lemma_fundamental_div_mod(px, s);
    lemma_fundamental_div_mod(py, s);
    let qx = px / s;
    let qy = py / s;
    assert(qx < 4 || qy < 4 || qx >= n + 4 || qy >= n + 4) by (nonlinear_arith)
        requires
            px == s * qx + px % s,
            py == s * qy + py % s,
            0 <= px % s < s,
            0 <= py % s < s,
            px < 4 * s || py < 4 * s || px >= (n + 4) * s || py >= (n + 4) * s,
            s >= 1,
    ;
}

} // verus!

verus! {

/// The preview alone is always drawn, and it is the preview drawn together with the
/// SVG document.
pub proof fn lemma_preview_without_svg(
    p: QrPlan,
    background: Option<RgbaCanvas>,
    overlay: ChannelTables,
    blend: ChannelTables,
    full: Result<QrImages, String>,
    preview_only: Result<QrImages, String>,
)
    requires
        composed(p, background, overlay, blend, true, full),
        composed(p, background, overlay, blend, false, preview_only),
    ensures
        preview_only matches Ok(b) && b.svg is None,
        full matches Ok(a) ==> preview_only matches Ok(b) && a.preview.width == b.preview.width
            && a.preview.height == b.preview.height && a.preview.pixels@ == b.preview.pixels@,
{
    if full is Ok {
        let a = full->Ok_0;
        let b = preview_only->Ok_0;
        assert(a.preview.pixels@ =~= b.preview.pixels@);
    }
}

} // verus!

verus! {

/// Two requests alike, drawn over the same background picture, the first with its
/// SVG document and the second without: the second succeeds when the first did,
/// builds no document, and shows the same preview.
pub proof fn lemma_same_request_same_preview(
    link: Seq<char>,
    size: u32,
    fg: Seq<char>,
    bg: Seq<char>,
    plan1: Result<QrPlan, String>,
    plan2: Result<QrPlan, String>,
    background: Option<RgbaCanvas>,
    overlay: ChannelTables,
    blend: ChannelTables,
    full: Result<QrImages, String>,
    preview_only: Result<QrImages, String>,
)
    requires
        planned(link, size, fg, bg, plan1),
        planned(link, size, fg, bg, plan2),
        plan1 matches Ok(p1) ==> composed(p1, background, overlay, blend, true, full),
        plan2 matches Ok(p2) ==> composed(p2, background, overlay, blend, false, preview_only),
        plan1 is Ok,
        full is Ok,
    ensures
        plan2 is Ok,
        preview_only matches Ok(b) && full matches Ok(a) && b.svg is None && a.preview.width
            == b.preview.width && a.preview.height == b.preview.height && a.preview.pixels@
            == b.preview.pixels@,
{
    let p1 = plan1->Ok_0;
    let p2 = plan2->Ok_0;
    assert(p1.code.spec_size() == p2.code.spec_size());
    assert(p1.dim == p2.dim);
    let prepared1 = match background {
        Some(b) => Some(prepared_background(p1, b.pixels@, overlay)),
        None => None,
    };
    let prepared2 = match background {
        Some(b) => Some(prepared_background(p2, b.pixels@, overlay)),
        None => None,
    };
    if let Some(b) = background {
        assert(prepared_background(p1, b.pixels@, overlay) =~= prepared_background(
            p2,
            b.pixels@,
            overlay,
        ));
    }
    assert(prepared1 == prepared2);
    let a = full->Ok_0;
    let o = preview_only->Ok_0;
    assert forall|i: int| 0 <= i < p1.dim * p1.dim implies #[trigger] a.preview.pixels@[i]
        == o.preview.pixels@[i] by {
        assert(module_at(p1, i % (p1.dim as int), i / (p1.dim as int)) == module_at(
            p2,
            i % (p2.dim as int),
            i / (p2.dim as int),
        ));
        assert(preview_pixel(p1, prepared1, blend, i) == preview_pixel(p2, prepared2, blend, i));
    }
    assert(a.preview.pixels@ =~= o.preview.pixels@);
}

} // verus!
