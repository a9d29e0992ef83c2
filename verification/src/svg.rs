//! The SVG document of a symbol, and the PNG data URI of a background picture.
use vstd::prelude::*;
use vstd::string::*;
use crate::canvas::RgbaCanvas;
use crate::symbol::ManualQrCode;
use crate::text::{base64, color_hex, color_to_hex, decimal, encode_base64, push_decimal};

verus! {

/// The bytes of the PNG file that the `image` crate writes for an RGBA picture, or
/// the text of its error.
pub uninterp spec fn png_encoding(width: u32, height: u32, pixels: Seq<[u8; 4]>) -> Result<
    Seq<u8>,
    Seq<char>,
>;

/// Encodes an RGBA picture as PNG with the `image` crate (`DynamicImage::write_to`
/// with `ImageOutputFormat::Png`). The file, or the text of the crate's error, is
/// named by `png_encoding`, not described.
#[verifier::external_body]
fn encode_png(img: &RgbaCanvas) -> (r: Result<Vec<u8>, String>)
    requires
        img.wf(),
    ensures
        match r {
            Ok(b) => png_encoding(img.width, img.height, img.pixels@) == Ok::<Seq<u8>, Seq<char>>(
                b@,
            ),
            Err(e) => png_encoding(img.width, img.height, img.pixels@) == Err::<Seq<u8>, Seq<char>>(
                e@,
            ),
        },
{
    let raw: Vec<u8> = img.pixels.iter().flatten().copied().collect();
    let buffer = image::RgbaImage::from_raw(img.width, img.height, raw).unwrap();
    let mut bytes = Vec::new();
    image::DynamicImage::ImageRgba8(buffer)
        .write_to(&mut std::io::Cursor::new(&mut bytes), image::ImageOutputFormat::Png)
        .map(|_| bytes)
        .map_err(|e| e.to_string())
}

/// The data URI of a PNG file.
pub open spec fn png_data_uri(png: Seq<u8>) -> Seq<char> {
    "data:image/png;base64,"@ + base64(png)
}

/// What `encode_background` gives when the PNG encoding of the picture is `png`
/// (`Ok`) or failed with `message` (`Err`).
pub open spec fn background_result(png: Result<Seq<u8>, Seq<char>>) -> Result<Seq<char>, Seq<char>> {
    match png {
        Ok(b) => Ok(png_data_uri(b)),
        Err(m) => Err("Impossible d'encoder l'image de fond: "@ + m),
    }
}

/// The bytes, or the message, of an encoding outcome.
pub open spec fn bytes_result(r: Result<Vec<u8>, String>) -> Result<Seq<u8>, Seq<char>> {
    match r {
        Ok(b) => Ok(b@),
        Err(m) => Err(m@),
    }
}

/// The text of an outcome.
pub open spec fn text_result(r: Result<String, String>) -> Result<Seq<char>, Seq<char>> {
    match r {
        Ok(s) => Ok(s@),
        Err(m) => Err(m@),
    }
}

/// The outcome of the PNG encoding turned into the data URI or the message.
pub fn background_from_png(png: Result<Vec<u8>, String>) -> (r: Result<String, String>)
    ensures
        text_result(r) == background_result(bytes_result(png)),
{
    match png {
        Ok(bytes) => {
            let mut s = String::from_str("data:image/png;base64,");
            let encoded = encode_base64(&bytes);
            s.append(encoded.as_str());
            Ok(s)
        },
        Err(m) => {
            let mut s = String::from_str("Impossible d'encoder l'image de fond: ");
            s.append(m.as_str());
            Err(s)
        },
    }
}

/// The background picture as a PNG data URI.
pub fn encode_background(img: &RgbaCanvas) -> (r: Result<String, String>)
    requires
        img.wf(),
    ensures
        text_result(r) == background_result(png_encoding(img.width, img.height, img.pixels@)),
{
    let png = encode_png(img);
    background_from_png(png)
}

/// The opening tag of the document.
pub open spec fn svg_header(dim: u32) -> Seq<char> {
    "<svg xmlns=\"http://www.w3.org/2000/svg\" width=\""@ + decimal(dim as nat) + "\" height=\""@
        + decimal(dim as nat) + "\" viewBox=\"0 0 "@ + decimal(dim as nat) + " "@ + decimal(
        dim as nat,
    ) + "\" shape-rendering=\"crispEdges\">\n"@
}

/// The background: the picture as a data URI, or a rectangle of colour `bg`.
pub open spec fn svg_background(dim: u32, bg: (u8, u8, u8), uri: Option<Seq<char>>) -> Seq<char> {
    match uri {
        Some(u) => "<image href=\""@ + u + "\" x=\"0\" y=\"0\" width=\""@ + decimal(dim as nat)
            + "\" height=\""@ + decimal(dim as nat) + "\" preserveAspectRatio=\"none\" />\n"@,
        None => "<rect width=\"100%\" height=\"100%\" fill=\""@ + color_hex(bg.0, bg.1, bg.2)
            + "\" />\n"@,
    }
}

/// The square of a dark module at pixel (px, py).
pub open spec fn svg_rect(px: int, py: int, scale: u32) -> Seq<char> {
    "<rect x=\""@ + decimal(px as nat) + "\" y=\""@ + decimal(py as nat) + "\" width=\""@
        + decimal(scale as nat) + "\" height=\""@ + decimal(scale as nat) + "\" />\n"@
}

/// The squares of the dark modules among the first `k`, in row-major order.
pub open spec fn svg_rects(modules: Seq<bool>, size: int, scale: u32, quiet: u32, k: int) -> Seq<
    char,
>
    decreases k,
{
    if k <= 0 {
        Seq::empty()
    } else {
        let x = (k - 1) % size;
        let y = (k - 1) / size;
        let rest = svg_rects(modules, size, scale, quiet, k - 1);
        if modules[k - 1] {
            rest + svg_rect((x + quiet) * scale, (y + quiet) * scale, scale)
        } else {
            rest
        }
    }
}

/// The whole SVG document of a symbol.
pub open spec fn svg_document(
    modules: Seq<bool>,
    size: int,
    dim: u32,
    scale: u32,
    quiet: u32,
    fg: (u8, u8, u8),
    bg: (u8, u8, u8),
    uri: Option<Seq<char>>,
) -> Seq<char> {
    svg_header(dim) + svg_background(dim, bg, uri) + "<g fill=\""@ + color_hex(fg.0, fg.1, fg.2)
        + "\">"@ + svg_rects(modules, size, scale, quiet, size * size) + "</g></svg>"@
}

/// The SVG document of `code`, with the background given as a data URI (or none).
pub fn build_svg_with(
    code: &ManualQrCode,
    dim: u32,
    scale: u32,
    quiet_zone: u32,
    fg: (u8, u8, u8),
    bg: (u8, u8, u8),
    background_uri: Option<&str>,
) -> (svg: String)
    requires
        code.wf(),
        code.spec_size() + quiet_zone <= u32::MAX,
        (code.spec_size() + quiet_zone) * scale <= u32::MAX,
    ensures
        svg@ == svg_document(
            code.spec_modules(),
            code.spec_size(),
            dim,
            scale,
            quiet_zone,
            fg,
            bg,
            match background_uri {
                Some(u) => Some(u@),
                None => None,
            },
        ),
{
    let fg_hex = color_to_hex(fg.0, fg.1, fg.2);
    let bg_hex = color_to_hex(bg.0, bg.1, bg.2);
    let mut svg = String::from_str("<svg xmlns=\"http://www.w3.org/2000/svg\" width=\"");
    push_decimal(&mut svg, dim);
    svg.append("\" height=\"");
    push_decimal(&mut svg, dim);
    svg.append("\" viewBox=\"0 0 ");
    push_decimal(&mut svg, dim);
    svg.append(" ");
    push_decimal(&mut svg, dim);
    svg.append("\" shape-rendering=\"crispEdges\">\n");
    assert(svg@ =~= svg_header(dim));
    match background_uri {
        Some(uri) => {
            svg.append("<image href=\"");
            svg.append(uri);
            svg.append("\" x=\"0\" y=\"0\" width=\"");
            push_decimal(&mut svg, dim);
            svg.append("\" height=\"");
            push_decimal(&mut svg, dim);
            svg.append("\" preserveAspectRatio=\"none\" />\n");
        },
        None => {
            svg.append("<rect width=\"100%\" height=\"100%\" fill=\"");
            svg.append(bg_hex.as_str());
            svg.append("\" />\n");
        },
    }
    svg.append("<g fill=\"");
    svg.append(fg_hex.as_str());
    svg.append("\">");
    let ghost head = svg@;
    proof {
        assert(head =~= svg_header(dim) + svg_background(
            dim,
            bg,
            match background_uri {
                Some(u) => Some(u@),
                None => None,
            },
        ) + "<g fill=\""@ + color_hex(fg.0, fg.1, fg.2) + "\">"@);
    }
    let modules = code.size() as u32;
    let ghost size = code.spec_size();
    let ghost ms = code.spec_modules();
    let mut y: u32 = 0;
    while y < modules
        invariant
            code.wf(),
            size == code.spec_size() == modules,
            ms == code.spec_modules(),
            size + quiet_zone <= u32::MAX,
            (size + quiet_zone) * scale <= u32::MAX,
            y <= modules,
            svg@ == head + svg_rects(ms, size, scale, quiet_zone, y * size),
        decreases modules - y,
    {
        let mut x: u32 = 0;
        while x < modules
            invariant
                code.wf(),
                size == code.spec_size() == modules,
                ms == code.spec_modules(),
                size + quiet_zone <= u32::MAX,
                (size + quiet_zone) * scale <= u32::MAX,
                y < modules,
                x <= modules,
                svg@ == head + svg_rects(ms, size, scale, quiet_zone, y * size + x),
            decreases modules - x,
        {
            proof {
                crate::symbol::lemma_cell_index(size, x as int, y as int);
                assert((x + quiet_zone) * scale <= (size + quiet_zone) * scale) by (nonlinear_arith)
                    requires
                        x < size,
                        scale >= 0,
                ;
                assert((y + quiet_zone) * scale <= (size + quiet_zone) * scale) by (nonlinear_arith)
                    requires
                        y < size,
                        scale >= 0,
                ;
            }
            if code.get_module(x as usize, y as usize) {
                let px = (x + quiet_zone) * scale;
                let py = (y + quiet_zone) * scale;
                let ghost before = svg@;
                svg.append("<rect x=\"");
                push_decimal(&mut svg, px);
                svg.append("\" y=\"");
                push_decimal(&mut svg, py);
                svg.append("\" width=\"");
                push_decimal(&mut svg, scale);
                svg.append("\" height=\"");
                push_decimal(&mut svg, scale);
                svg.append("\" />\n");
                assert(svg@ =~= before + svg_rect(px as int, py as int, scale));
            }
            x += 1;
        }
        proof {
            assert(y * size + size == (y + 1) * size) by (nonlinear_arith);
        }
        y += 1;
    }
    svg.append("</g></svg>");
    svg
}

/// The SVG document of `code` over its background picture (encoded as a PNG data
/// URI) or over a plain rectangle of colour `bg`; the message of a failed encoding.
pub fn build_svg(
    code: &ManualQrCode,
    dim: u32,
    scale: u32,
    quiet_zone: u32,
    fg: (u8, u8, u8),
    bg: (u8, u8, u8),
    background: Option<&RgbaCanvas>,
) -> (r: Result<String, String>)
    requires
        code.wf(),
        code.spec_size() + quiet_zone <= u32::MAX,
        (code.spec_size() + quiet_zone) * scale <= u32::MAX,
        background matches Some(img) ==> img.wf(),
    ensures
        match background {
            None => r matches Ok(s) && s@ == svg_document(
                code.spec_modules(),
                code.spec_size(),
                dim,
                scale,
                quiet_zone,
                fg,
                bg,
                None,
            ),
            Some(img) => match (
                text_result(r),
                background_result(png_encoding(img.width, img.height, img.pixels@)),
            ) {
                (Ok(s), Ok(uri)) => s == svg_document(
                    code.spec_modules(),
                    code.spec_size(),
                    dim,
                    scale,
                    quiet_zone,
                    fg,
                    bg,
                    Some(uri),
                ),
                (Err(e), Err(m)) => e == m,
                _ => false,
            },
        },
{
    match background {
        Some(img) => {
            let uri = match encode_background(img) {
                Ok(u) => u,
                Err(e) => {
                    return Err(e);
                },
            };
            Ok(build_svg_with(code, dim, scale, quiet_zone, fg, bg, Some(uri.as_str())))
        },
        None => Ok(build_svg_with(code, dim, scale, quiet_zone, fg, bg, None)),
    }
}

} // verus!
