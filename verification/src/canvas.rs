//! Pictures as rows of RGBA pixels, and the pixel-wise steps applied to them.
use vstd::prelude::*;
use vstd::arithmetic::div_mod::lemma_fundamental_div_mod_converse;

verus! {

/// A picture as rows of RGBA pixels: pixel (x, y) is `pixels[y * width + x]`.
#[derive(Clone, Debug)]
pub struct RgbaCanvas {
    pub width: u32,
    pub height: u32,
    pub pixels: Vec<[u8; 4]>,
}

impl RgbaCanvas {
    /// As many pixels as the dimensions say.
    pub open spec fn wf(&self) -> bool {
        self.pixels@.len() == self.width * self.height
    }

    /// A picture of the given size in one colour.
    pub fn filled(width: u32, height: u32, color: [u8; 4]) -> (r: Self)
        requires
            width * height <= usize::MAX,
        ensures
            r.width == width,
            r.height == height,
            r.wf(),
            forall|i: int| 0 <= i < width * height ==> #[trigger] r.pixels@[i] == color,
    {
        let n = width as usize * height as usize;
        let mut pixels: Vec<[u8; 4]> = Vec::new();
        let mut k: usize = 0;
        while k < n
            invariant
                k <= n,
                n == width * height,
                pixels@.len() == k,
                forall|i: int| 0 <= i < k ==> #[trigger] pixels@[i] == color,
            decreases n - k,
        {
            pixels.push(color);
            k += 1;
        }
        RgbaCanvas { width, height, pixels }
    }

    /// A pixel-for-pixel copy.
    pub fn copy(&self) -> (r: Self)
        ensures
            r.width == self.width,
            r.height == self.height,
            r.pixels@ == self.pixels@,
    {
        let mut pixels: Vec<[u8; 4]> = Vec::new();
        let mut k: usize = 0;
        while k < self.pixels.len()
            invariant
                k <= self.pixels@.len(),
                pixels@ == self.pixels@.subrange(0, k as int),
            decreases self.pixels@.len() - k,
        {
            pixels.push(self.pixels[k]);
            k += 1;
        }
        RgbaCanvas { width: self.width, height: self.height, pixels }
    }
}

/// The pixels that the `image` crate's triangle filter gives a `width` by `height`
/// picture resized to `new_width` by `new_height`.
pub uninterp spec fn triangle_resize(
    width: u32,
    height: u32,
    pixels: Seq<[u8; 4]>,
    new_width: u32,
    new_height: u32,
) -> Seq<[u8; 4]>;

/// Resizes a picture with the `image` crate (`imageops::resize` with
/// `FilterType::Triangle`). The result has the asked dimensions; its pixels are
/// named by `triangle_resize`, not described.
#[verifier::external_body]
pub(crate) fn resize_triangle(img: &RgbaCanvas, width: u32, height: u32) -> (r: RgbaCanvas)
    requires
        img.wf(),
        width * height * 4 <= usize::MAX,
    ensures
        r.width == width,
        r.height == height,
        r.wf(),
        r.pixels@ == triangle_resize(img.width, img.height, img.pixels@, width, height),
{
    let raw: Vec<u8> = img.pixels.iter().flatten().copied().collect();
    let source = image::RgbaImage::from_raw(img.width, img.height, raw).unwrap();
    let resized = image::imageops::resize(
        &source,
        width,
        height,
        image::imageops::FilterType::Triangle,
    );
    RgbaCanvas { width, height, pixels: resized.pixels().map(|p| p.0).collect() }
}

/// The pixels of a picture that may be absent.
pub open spec fn pixels_of(img: Option<RgbaCanvas>) -> Option<Seq<[u8; 4]>> {
    match img {
        Some(b) => Some(b.pixels@),
        None => None,
    }
}

/// Where pixel (x, y) lies in the rows of a picture `w` pixels wide, and back.
pub proof fn lemma_pixel_index(w: int, h: int, x: int, y: int)
    requires
        0 <= x < w,
        0 <= y < h,
    ensures
        0 <= y * w + x < w * h,
        (y * w + x) % w == x,
        (y * w + x) / w == y,
{
    assert(0 <= y * w) by (nonlinear_arith)
        requires
            0 <= y,
            0 <= w,
    ;
    assert(y * w + x < w * h) by (nonlinear_arith)
        requires
            0 <= x < w,
            0 <= y < h,
    ;
    lemma_fundamental_div_mod_converse(y * w + x, w, y, x);
}

/// One table of 256 entries per colour channel: what each channel value becomes.
pub struct ChannelTables {
    pub red: Vec<u8>,
    pub green: Vec<u8>,
    pub blue: Vec<u8>,
}

impl ChannelTables {
    /// Each table has an entry for every channel value.
    pub open spec fn wf(&self) -> bool {
        self.red@.len() == 256 && self.green@.len() == 256 && self.blue@.len() == 256
    }

    /// A pixel with its colour channels looked up in the tables and its alpha kept.
    pub open spec fn mapped(&self, p: [u8; 4]) -> [u8; 4] {
        [self.red@[p[0] as int], self.green@[p[1] as int], self.blue@[p[2] as int], p[3]]
    }

    /// The pixel `p` with its colour channels looked up in the tables.
    pub fn map_pixel(&self, p: [u8; 4]) -> (r: [u8; 4])
        requires
            self.wf(),
        ensures
            r == self.mapped(p),
    {
        [self.red[p[0] as usize], self.green[p[1] as usize], self.blue[p[2] as usize], p[3]]
    }
}

/// Replaces the colour channels of every pixel through the tables.
pub fn apply_tables(img: &mut RgbaCanvas, tables: &ChannelTables)
    requires
        tables.wf(),
    ensures
        final(img).width == old(img).width,
        final(img).height == old(img).height,
        final(img).pixels@.len() == old(img).pixels@.len(),
        forall|i: int|
            0 <= i < old(img).pixels@.len() ==> #[trigger] final(img).pixels@[i] == tables.mapped(
                old(img).pixels@[i],
            ),
{
    let ghost before = img.pixels@;
    let n = img.pixels.len();
    let mut k: usize = 0;
    while k < n
        invariant
            k <= n,
            tables.wf(),
            n == before.len(),
            img.width == old(img).width,
            img.height == old(img).height,
            before == old(img).pixels@,
            img.pixels@.len() == n,
            forall|i: int| 0 <= i < k ==> #[trigger] img.pixels@[i] == tables.mapped(before[i]),
            forall|i: int| k <= i < n ==> #[trigger] img.pixels@[i] == before[i],
        decreases n - k,
    {
        let p = img.pixels[k];
        let q = tables.map_pixel(p);
        img.pixels.set(k, q);
        k += 1;
    }
}

/// Whether pixel (x, y) of a `w` by `h` picture lies within `q` pixels of an edge.
pub open spec fn in_quiet_zone(w: int, h: int, q: int, x: int, y: int) -> bool {
    x < q || y < q || x >= w - q || y >= h - q
}

/// Paints in `color` every pixel within `quiet_px` pixels of an edge.
pub fn fill_quiet_zone(img: &mut RgbaCanvas, quiet_px: u32, color: [u8; 4])
    requires
        old(img).wf(),
    ensures
        final(img).width == old(img).width,
        final(img).height == old(img).height,
        final(img).wf(),
        forall|i: int|
            0 <= i < old(img).pixels@.len() ==> #[trigger] final(img).pixels@[i] == if in_quiet_zone(
                old(img).width as int,
                old(img).height as int,
                quiet_px as int,
                i % (old(img).width as int),
                i / (old(img).width as int),
            ) {
                color
            } else {
                old(img).pixels@[i]
            },
{
    let width = img.width;
    let height = img.height;
    let n = img.pixels.len();
    let ghost before = img.pixels@;
    let ghost w = width as int;
    let ghost h = height as int;
    let mut y: u32 = 0;
    while y < height
        invariant
            img.width == width,
            img.height == height,
            n == w * h,
            before.len() == n,
            img.pixels@.len() == n,
            w == width,
            h == height,
            y <= height,
            forall|i: int|
                0 <= i < n ==> #[trigger] img.pixels@[i] == if i < y * w && in_quiet_zone(
                    w,
                    h,
                    quiet_px as int,
                    i % w,
                    i / w,
                ) {
                    color
                } else {
                    before[i]
                },
        decreases height - y,
    {
        let mut x: u32 = 0;
        while x < width
            invariant
                img.width == width,
                img.height == height,
                n == w * h,
                before.len() == n,
                img.pixels@.len() == n,
                w == width,
                h == height,
                y < height,
                x <= width,
                forall|i: int|
                    0 <= i < n ==> #[trigger] img.pixels@[i] == if i < y * w + x && in_quiet_zone(
                        w,
                        h,
                        quiet_px as int,
                        i % w,
                        i / w,
                    ) {
                        color
                    } else {
                        before[i]
                    },
            decreases width - x,
        {
            proof {
                lemma_pixel_index(w, h, x as int, y as int);
            }
            if x < quiet_px || y < quiet_px || x >= width - quiet_px || y >= height - quiet_px {
                let idx = y as usize * width as usize + x as usize;
                img.pixels.set(idx, color);
            }
            x += 1;
        }
        proof {
            assert(y * w + w == (y + 1) * w) by (nonlinear_arith);
        }
        y += 1;
    }
    proof {
        assert(y * w == n) by (nonlinear_arith)
            requires
                y == h,
                n == w * h,
        ;
    }
}

} // verus!
