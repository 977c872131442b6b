use vstd::prelude::*;
use vstd::arithmetic::div_mod::lemma_fundamental_div_mod_converse;

verus! {

/// Display orientation.
#[derive(Debug, Clone, Copy, PartialEq, Eq, Structural)]
pub enum Orientation {
    /// Wider than tall (the default).
    Landscape,
    /// Taller than wide.
    Portrait,
    /// Wider than tall, turned by 180 degrees.
    LandscapeFlip,
    /// Taller than wide, turned by 180 degrees.
    PortraitFlip,
}

impl Orientation {
    /// Whether the logical canvas is wider than tall.
    pub open spec fn is_landscape(self) -> bool {
        self is Landscape || self is LandscapeFlip
    }

    /// Logical canvas size of a display whose physical scan is portrait.
    pub open spec fn spec_dimensions(self, physical_width: u32, physical_height: u32) -> (u32, u32) {
        if self.is_landscape() {
            (physical_height, physical_width)
        } else {
            (physical_width, physical_height)
        }
    }

    /// Logical (width, height) of the drawing canvas for a display with the
    /// given physical portrait dimensions.
    pub fn dimensions(self, physical_width: u32, physical_height: u32) -> (r: (u32, u32))
        ensures
            r == self.spec_dimensions(physical_width, physical_height),
    {
        match self {
            Orientation::Landscape | Orientation::LandscapeFlip => (physical_height, physical_width),
            Orientation::Portrait | Orientation::PortraitFlip => (physical_width, physical_height),
        }
    }
}

impl Default for Orientation {
    fn default() -> (r: Self)
        ensures
            r == Orientation::Landscape,
    {
        Orientation::Landscape
    }
}


/// One pixel: red, green and blue channels, in that order.
#[derive(Debug, Clone, Copy, PartialEq, Eq, Structural)]
pub struct Rgb(pub u8, pub u8, pub u8);

/// An owned RGB raster with 8 bits per channel, stored row by row.
#[derive(Debug)]
pub struct RgbImage {
    width: u32,
    height: u32,
    pixels: Vec<Rgb>,
}

/// Where the pixel at column `x`, row `y` sits in a row-major buffer.
proof fn lemma_row_major_index(x: int, y: int, width: int, height: int)
    by (nonlinear_arith)
    requires
        0 <= x < width,
        0 <= y < height,
    ensures
        0 <= y * width + x < width * height,
        0 <= y * width + x < height * width,
{
}

impl RgbImage {
    #[verifier::type_invariant]
    spec fn buffer_matches_size(self) -> bool {
        self.pixels@.len() == self.width as int * self.height as int
    }

    /// Number of columns.
    pub closed spec fn spec_width(&self) -> u32 {
        self.width
    }

    /// Number of rows.
    pub closed spec fn spec_height(&self) -> u32 {
        self.height
    }

    /// The pixel at column `x`, row `y` (meaningful inside the raster only).
    pub closed spec fn spec_pixel(&self, x: int, y: int) -> Rgb {
        self.pixels@[y * self.width + x]
    }

    /// An image of the given size with every pixel set to `pixel`.
    pub fn from_pixel(width: u32, height: u32, pixel: Rgb) -> (img: Self)
        requires
            width as int * height as int <= usize::MAX,
        ensures
            img.spec_width() == width,
            img.spec_height() == height,
            forall|x: int, y: int|
                0 <= x < width && 0 <= y < height ==> #[trigger] img.spec_pixel(x, y) == pixel,
    {
        let total = width as usize * height as usize;
        let mut pixels: Vec<Rgb> = Vec::with_capacity(total);
        let mut i: usize = 0;
        while i < total
            invariant
                i <= total,
                total == width as int * height as int,
                pixels@.len() == i,
                forall|k: int| 0 <= k < i ==> pixels@[k] == pixel,
            decreases total - i,
        {
            pixels.push(pixel);
            i += 1;
        }
        let img = RgbImage { width, height, pixels };
        assert forall|x: int, y: int| 0 <= x < width && 0 <= y < height implies #[trigger] img.spec_pixel(
            x,
            y,
        ) == pixel by {
            lemma_row_major_index(x, y, width as int, height as int);
        }
        img
    }

    /// An image of the given size over a row-major pixel buffer; `None` when
    /// the buffer does not hold exactly `width * height` pixels.
    pub fn from_pixels(width: u32, height: u32, pixels: Vec<Rgb>) -> (img: Option<Self>)
        ensures
            match img {
                Some(img) => {
                    &&& pixels@.len() == width as int * height as int
                    &&& img.spec_width() == width
                    &&& img.spec_height() == height
                    &&& forall|x: int, y: int|
                        0 <= x < width && 0 <= y < height ==> #[trigger] img.spec_pixel(x, y)
                            == pixels@[y * width + x]
                },
                None => pixels@.len() != width as int * height as int,
            },
    {
        proof {
            vstd::arithmetic::mul::lemma_mul_upper_bound(
                width as int,
                u32::MAX as int,
                height as int,
                u32::MAX as int,
            );
        }
        if (width as u64) * (height as u64) == pixels.len() as u64 {
            Some(RgbImage { width, height, pixels })
        } else {
            None
        }
    }

    /// Number of columns.
    pub fn width(&self) -> (w: u32)
        ensures
            w == self.spec_width(),
    {
        self.width
    }

    /// Number of rows.
    pub fn height(&self) -> (h: u32)
        ensures
            h == self.spec_height(),
    {
        self.height
    }

    /// The pixel at column `x`, row `y`.
    pub fn get_pixel(&self, x: u32, y: u32) -> (p: &Rgb)
        requires
            x < self.spec_width(),
            y < self.spec_height(),
        ensures
            *p == self.spec_pixel(x as int, y as int),
    {
        proof {
            use_type_invariant(self);
            lemma_row_major_index(x as int, y as int, self.width as int, self.height as int);
            assert(self.pixels@.len() == self.pixels.len());
        }
        &self.pixels[y as usize * self.width as usize + x as usize]
    }

    /// Sets the pixel at column `x`, row `y`; every other pixel is kept.
    pub fn put_pixel(&mut self, x: u32, y: u32, pixel: Rgb)
        requires
            x < old(self).spec_width(),
            y < old(self).spec_height(),
        ensures
            final(self).spec_width() == old(self).spec_width(),
            final(self).spec_height() == old(self).spec_height(),
            final(self).spec_pixel(x as int, y as int) == pixel,
            forall|i: int, j: int|
                0 <= i < old(self).spec_width() && 0 <= j < old(self).spec_height() && (i != x
                    || j != y) ==> #[trigger] final(self).spec_pixel(i, j) == old(self).spec_pixel(
                    i,
                    j,
                ),
    {
        proof {
            use_type_invariant(&*self);
            lemma_row_major_index(x as int, y as int, self.width as int, self.height as int);
            assert(self.pixels@.len() == self.pixels.len());
        }
        let idx = y as usize * self.width as usize + x as usize;
        self.pixels[idx] = pixel;
        proof {
            assert forall|i: int, j: int|
                0 <= i < old(self).spec_width() && 0 <= j < old(self).spec_height() && (i != x
                    || j != y) implies #[trigger] self.spec_pixel(i, j) == old(self).spec_pixel(
                i,
                j,
            ) by {
                lemma_row_major_index(i, j, self.width as int, self.height as int);
                if j * self.width + i == idx {
                    lemma_fundamental_div_mod_converse(idx as int, self.width as int, j, i);
                    lemma_fundamental_div_mod_converse(
                        idx as int,
                        self.width as int,
                        y as int,
                        x as int,
                    );
                }
            }
        }
    }
}


/// An all-black canvas sized for `orientation` on a display whose physical
/// (portrait) size is `physical_width` x `physical_height`.
pub fn create_blank_image(orientation: Orientation, physical_width: u32, physical_height: u32) -> (img:
    RgbImage)
    requires
        physical_width as int * physical_height as int <= usize::MAX,
    ensures
        (img.spec_width(), img.spec_height()) == orientation.spec_dimensions(
            physical_width,
            physical_height,
        ),
        forall|x: int, y: int|
            0 <= x < img.spec_width() && 0 <= y < img.spec_height() ==> #[trigger] img.spec_pixel(
                x,
                y,
            ) == Rgb(0, 0, 0),
{
    let (width, height) = orientation.dimensions(physical_width, physical_height);
    proof {
        vstd::arithmetic::mul::lemma_mul_is_commutative(width as int, height as int);
    }
    RgbImage::from_pixel(width, height, Rgb(0, 0, 0))
}

/// The 16-bit RGB565 value of a colour: the top five bits of red, the top
/// six bits of green and the top five bits of blue, red most significant.
pub open spec fn spec_rgb565(r: u8, g: u8, b: u8) -> u16 {
    ((r as int / 8) * 2048 + (g as int / 4) * 32 + b as int / 8) as u16
}

/// The two bytes that carry one pixel on the wire: RGB565, low byte first.
pub open spec fn pixel_bytes(p: Rgb) -> Seq<u8> {
    let v = spec_rgb565(p.0, p.1, p.2);
    seq![(v % 256) as u8, (v / 256) as u8]
}

/// The byte stream of a sequence of pixels, in order.
pub open spec fn rgb565_stream(pixels: Seq<Rgb>) -> Seq<u8>
    decreases pixels.len(),
{
    if pixels.len() == 0 {
        Seq::empty()
    } else {
        rgb565_stream(pixels.drop_last()) + pixel_bytes(pixels.last())
    }
}

/// Logical canvas coordinates of the pixel that the hardware shows at
/// physical column `px`, row `py`. Landscape turns the canvas by 90 degrees
/// clockwise; each flip variant adds a half turn.
pub open spec fn logical_source(o: Orientation, pw: int, ph: int, px: int, py: int) -> (int, int) {
    match o {
        Orientation::Portrait => (px, py),
        Orientation::Landscape => (py, pw - 1 - px),
        Orientation::PortraitFlip => (pw - 1 - px, ph - 1 - py),
        Orientation::LandscapeFlip => (ph - 1 - py, px),
    }
}

/// Columns and rows of the scan: a portrait image is sent as it is, every
/// other orientation fills the physical panel.
pub open spec fn scan_size(img: RgbImage, o: Orientation, pw: u32, ph: u32) -> (int, int) {
    if o is Portrait {
        (img.spec_width() as int, img.spec_height() as int)
    } else {
        (pw as int, ph as int)
    }
}

/// The pixels in the order the panel scans them: row by row.
pub open spec fn physical_scan(img: RgbImage, o: Orientation, pw: u32, ph: u32) -> Seq<Rgb> {
    let (w, h) = scan_size(img, o, pw, ph);
    Seq::new(
        (w * h) as nat,
        |k: int|
            {
                let (lx, ly) = logical_source(o, pw as int, ph as int, k % w, k / w);
                img.spec_pixel(lx, ly)
            },
    )
}

/// Every pixel that the scan reads lies inside the image.
pub open spec fn scan_in_bounds(img: RgbImage, o: Orientation, pw: u32, ph: u32) -> bool {
    ||| o is Portrait
    ||| pw == 0
    ||| ph == 0
    ||| {
        let (lw, lh) = o.spec_dimensions(pw, ph);
        lw <= img.spec_width() && lh <= img.spec_height()
    }
}

/// Packs a colour into RGB565.
pub fn rgb_to_rgb565(r: u8, g: u8, b: u8) -> (v: u16)
    ensures
        v == spec_rgb565(r, g, b),
{
    let r5 = (r >> 3) & 0x1F;
    let g6 = (g >> 2) & 0x3F;
    let b5 = (b >> 3) & 0x1F;
    assert(r5 == r / 8 && g6 == g / 4 && b5 == b / 8) by (bit_vector)
        requires
            r5 == (r >> 3) & 0x1F,
            g6 == (g >> 2) & 0x3F,
            b5 == (b >> 3) & 0x1F,
    ;
    let v = ((r5 as u16) << 11) | ((g6 as u16) << 5) | (b5 as u16);
    assert(v == r5 as u16 * 2048 + g6 as u16 * 32 + b5 as u16) by (bit_vector)
        requires
            v == ((r5 as u16) << 11) | ((g6 as u16) << 5) | (b5 as u16),
            r5 < 32,
            g6 < 64,
            b5 < 32,
    ;
    v
}

fn push_rgb565(data: &mut Vec<u8>, p: Rgb)
    ensures
        final(data)@ == old(data)@ + pixel_bytes(p),
{
    let v = rgb_to_rgb565(p.0, p.1, p.2);
    let lo = (v & 0xFF) as u8;
    let hi = (v >> 8) as u8;
    assert(lo == v % 256 && hi == v / 256) by (bit_vector)
        requires
            lo == (v & 0xFF) as u8,
            hi == (v >> 8) as u8,
    ;
    data.push(lo);
    data.push(hi);
}

/// Appending a pixel appends its two bytes.
proof fn lemma_stream_push(pixels: Seq<Rgb>, p: Rgb)
    ensures
        rgb565_stream(pixels.push(p)) == rgb565_stream(pixels) + pixel_bytes(p),
{
    assert(pixels.push(p).drop_last() =~= pixels);
}

/// Every pixel takes two bytes of the stream.
pub proof fn lemma_stream_len(pixels: Seq<Rgb>)
    ensures
        rgb565_stream(pixels).len() == 2 * pixels.len(),
    decreases pixels.len(),
{
    if pixels.len() > 0 {
        lemma_stream_len(pixels.drop_last());
    }
}

/// Logical coordinates of the pixel shown at physical column `px`, row `py`.
fn source_coords(o: Orientation, pw: u32, ph: u32, px: u32, py: u32) -> (r: (u32, u32))
    requires
        o is Portrait || (px < pw && py < ph),
    ensures
        (r.0 as int, r.1 as int) == logical_source(o, pw as int, ph as int, px as int, py as int),
{
    match o {
        Orientation::Portrait => (px, py),
        Orientation::Landscape => (py, (pw - 1) - px),
        Orientation::PortraitFlip => ((pw - 1) - px, (ph - 1) - py),
        Orientation::LandscapeFlip => ((ph - 1) - py, px),
    }
}

/// Converts a logical-orientation image to RGB565 bytes in physical scan
/// order. The hardware scans in portrait (`physical_width` x
/// `physical_height`), so landscape images are turned by 90 degrees and the
/// flip variants by a further 180.
pub fn image_to_rgb565_bytes(
    img: &RgbImage,
    orientation: Orientation,
    physical_width: u32,
    physical_height: u32,
) -> (data: Vec<u8>)
    requires
        physical_width as int * physical_height as int * 2 <= u32::MAX,
        scan_in_bounds(*img, orientation, physical_width, physical_height),
    ensures
        data@ == rgb565_stream(physical_scan(*img, orientation, physical_width, physical_height)),
        data@.len() == 2 * physical_scan(*img, orientation, physical_width, physical_height).len(),
{
    let mut data: Vec<u8> = Vec::with_capacity((physical_width * physical_height * 2) as usize);
    let (w, h) = match orientation {
        Orientation::Portrait => (img.width(), img.height()),
        _ => (physical_width, physical_height),
    };
    let ghost scan = physical_scan(*img, orientation, physical_width, physical_height);
    assert(scan.take(0) =~= Seq::<Rgb>::empty());
    let mut py: u32 = 0;
    while py < h
        invariant
            py <= h,
            (w as int, h as int) == scan_size(*img, orientation, physical_width, physical_height),
            scan == physical_scan(*img, orientation, physical_width, physical_height),
            scan_in_bounds(*img, orientation, physical_width, physical_height),
            data@ == rgb565_stream(scan.take(py * w)),
        decreases h - py,
    {
        let mut px: u32 = 0;
        while px < w
            invariant
                px <= w,
                py < h,
                (w as int, h as int) == scan_size(*img, orientation, physical_width, physical_height),
                scan == physical_scan(*img, orientation, physical_width, physical_height),
                scan_in_bounds(*img, orientation, physical_width, physical_height),
                data@ == rgb565_stream(scan.take(py * w + px)),
            decreases w - px,
        {
            let ghost k = py * w + px;
            proof {
                lemma_row_major_index(px as int, py as int, w as int, h as int);
                lemma_fundamental_div_mod_converse(k, w as int, py as int, px as int);
            }
            let (lx, ly) = source_coords(orientation, physical_width, physical_height, px, py);
            let p = *img.get_pixel(lx, ly);
            assert(p == scan[k]);
            proof {
                assert(scan.take(k + 1) =~= scan.take(k).push(p));
                lemma_stream_push(scan.take(k), p);
            }
            push_rgb565(&mut data, p);
            px += 1;
        }
        assert((py + 1) * w == py * w + w) by (nonlinear_arith);
        py += 1;
    }
    assert(scan.take(h * w) =~= scan) by {
        vstd::arithmetic::mul::lemma_mul_is_commutative(w as int, h as int);
    }
    proof {
        lemma_stream_len(scan);
    }
    data
}


/// Physical panel position at which the canvas pixel (`lx`, `ly`) is shown.
pub open spec fn physical_position(o: Orientation, pw: int, ph: int, lx: int, ly: int) -> (int, int) {
    match o {
        Orientation::Portrait => (lx, ly),
        Orientation::Landscape => (pw - 1 - ly, lx),
        Orientation::PortraitFlip => (pw - 1 - lx, ph - 1 - ly),
        Orientation::LandscapeFlip => (ly, ph - 1 - lx),
    }
}

/// The scan is a rotation of the canvas: every physical position of the
/// panel shows a pixel of the logical canvas, and every pixel of the canvas
/// is shown at exactly one physical position.
pub proof fn lemma_scan_is_rotation(o: Orientation, pw: u32, ph: u32)
    ensures
        forall|px: int, py: int|
            0 <= px < pw && 0 <= py < ph ==> {
                let (lx, ly) = #[trigger] logical_source(o, pw as int, ph as int, px, py);
                let (lw, lh) = o.spec_dimensions(pw, ph);
                &&& 0 <= lx < lw
                &&& 0 <= ly < lh
                &&& physical_position(o, pw as int, ph as int, lx, ly) == (px, py)
            },
        forall|lx: int, ly: int|
            0 <= lx < o.spec_dimensions(pw, ph).0 && 0 <= ly < o.spec_dimensions(pw, ph).1 ==> {
                let (px, py) = #[trigger] physical_position(o, pw as int, ph as int, lx, ly);
                &&& 0 <= px < pw
                &&& 0 <= py < ph
                &&& logical_source(o, pw as int, ph as int, px, py) == (lx, ly)
            },
{
}

/// Each flip variant shows what its base orientation shows, turned by 180
/// degrees.
pub proof fn lemma_flip_is_half_turn(pw: u32, ph: u32, px: int, py: int)
    ensures
        logical_source(Orientation::LandscapeFlip, pw as int, ph as int, px, py) == logical_source(
            Orientation::Landscape,
            pw as int,
            ph as int,
            pw - 1 - px,
            ph - 1 - py,
        ),
        logical_source(Orientation::PortraitFlip, pw as int, ph as int, px, py) == logical_source(
            Orientation::Portrait,
            pw as int,
            ph as int,
            pw - 1 - px,
            ph - 1 - py,
        ),
        Orientation::LandscapeFlip.spec_dimensions(pw, ph) == Orientation::Landscape.spec_dimensions(
            pw,
            ph,
        ),
        Orientation::PortraitFlip.spec_dimensions(pw, ph) == Orientation::Portrait.spec_dimensions(
            pw,
            ph,
        ),
{
}

/// RGB565 keeps the top five bits of red, six of green and five of blue,
/// each recoverable from the packed value; on the wire the low byte comes
/// first.
pub proof fn lemma_rgb565_fields(r: u8, g: u8, b: u8)
    ensures
        spec_rgb565(r, g, b) / 2048 == r / 8,
        (spec_rgb565(r, g, b) / 32) % 64 == g / 4,
        spec_rgb565(r, g, b) % 32 == b / 8,
        pixel_bytes(Rgb(r, g, b))[0] + 256 * pixel_bytes(Rgb(r, g, b))[1] == spec_rgb565(r, g, b),
{
    let v = (r as int / 8) * 2048 + (g as int / 4) * 32 + b as int / 8;
    assert(0 <= v <= 0xFFFF);
    assert(spec_rgb565(r, g, b) == v);
    lemma_fundamental_div_mod_converse(v, 2048, r as int / 8, (g as int / 4) * 32 + b as int / 8);
    lemma_fundamental_div_mod_converse(v, 32, (r as int / 8) * 64 + g as int / 4, b as int / 8);
    lemma_fundamental_div_mod_converse(
        (r as int / 8) * 64 + g as int / 4,
        64,
        r as int / 8,
        g as int / 4,
    );
}

/// Pixel `k` of a scan occupies bytes `2k` and `2k + 1` of its stream.
pub proof fn lemma_stream_index(pixels: Seq<Rgb>, k: int)
    requires
        0 <= k < pixels.len(),
    ensures
        rgb565_stream(pixels).len() == 2 * pixels.len(),
        rgb565_stream(pixels)[2 * k] == pixel_bytes(pixels[k])[0],
        rgb565_stream(pixels)[2 * k + 1] == pixel_bytes(pixels[k])[1],
    decreases pixels.len(),
{
    lemma_stream_len(pixels);
    lemma_stream_len(pixels.drop_last());
    if k < pixels.len() - 1 {
        lemma_stream_index(pixels.drop_last(), k);
    }
}


/// Smallest font size the auto-fit search returns, in half points (8.0 px).
pub const MIN_FONT_HALF_POINTS: u32 = 16;

/// Upper end of the auto-fit search, in half points (72.0 px).
pub const MAX_FONT_HALF_POINTS: u32 = 144;

/// Pixels left free across the canvas when fitting text.
pub const HORIZONTAL_PADDING: u32 = 8;

/// Pixels left free down the canvas when fitting text.
pub const VERTICAL_PADDING: u32 = 4;

/// Whether the text fits a box of `max_width` x `max_height` at font size
/// `size` (in half points), according to the test `fits`.
pub open spec fn size_fits<F: Fn(u32, u32, u32) -> bool>(fits: F, size: int, max_width: u32, max_height: u32) -> bool {
    call_ensures(fits, (size as u32, max_width, max_height), true)
}

/// `fits` can be called on every size and box and answers alike each time.
pub open spec fn is_fit_test<F: Fn(u32, u32, u32) -> bool>(fits: F) -> bool {
    &&& forall|size: u32, w: u32, h: u32| #[trigger] call_requires(fits, (size, w, h))
    &&& forall|size: u32, w: u32, h: u32, r1: bool, r2: bool|
        #[trigger] call_ensures(fits, (size, w, h), r1) && #[trigger] call_ensures(
            fits,
            (size, w, h),
            r2,
        ) ==> r1 == r2
}

/// Bisection between `low` and `high` (half points): a midpoint that fits
/// becomes the new `low`, one that does not the new `high`, until the two
/// are one half point apart; the answer is `low`.
pub open spec fn fit_search<F: Fn(u32, u32, u32) -> bool>(
    fits: F,
    max_width: u32,
    max_height: u32,
    low: int,
    high: int,
) -> int
    decreases high - low,
{
    if high - low <= 1 {
        low
    } else {
        let mid = (low + high) / 2;
        if size_fits(fits, mid, max_width, max_height) {
            fit_search(fits, max_width, max_height, mid, high)
        } else {
            fit_search(fits, max_width, max_height, low, mid)
        }
    }
}

/// The auto-fit font size in half points: the minimum for empty text,
/// otherwise the bisection over 8 to 72 px for the canvas less its padding.
pub open spec fn spec_auto_fit<F: Fn(u32, u32, u32) -> bool>(
    fits: F,
    text: Seq<char>,
    orientation: Orientation,
    physical_width: u32,
    physical_height: u32,
) -> int {
    let (width, height) = orientation.spec_dimensions(physical_width, physical_height);
    if text.len() == 0 {
        MIN_FONT_HALF_POINTS as int
    } else {
        fit_search(
            fits,
            (width - HORIZONTAL_PADDING) as u32,
            (height - VERTICAL_PADDING) as u32,
            MIN_FONT_HALF_POINTS as int,
            MAX_FONT_HALF_POINTS as int,
        )
    }
}

fn test_size<F: Fn(u32, u32, u32) -> bool>(fits: &F, size: u32, max_width: u32, max_height: u32) -> (r: bool)
    requires
        is_fit_test(*fits),
    ensures
        r == size_fits(*fits, size as int, max_width, max_height),
{
    let r = fits(size, max_width, max_height);
    proof {
        if !r && size_fits(*fits, size as int, max_width, max_height) {
            assert(call_ensures(*fits, (size, max_width, max_height), true));
        }
    }
    r
}

/// The largest font size, in half points, at which the text fits the canvas
/// less its padding according to `fits`, found by bisection between 8 and
/// 72 px; 8 px for empty text.
pub fn auto_fit_half_points<F: Fn(u32, u32, u32) -> bool>(
    text: &str,
    orientation: Orientation,
    physical_width: u32,
    physical_height: u32,
    fits: F,
) -> (size: u32)
    requires
        is_fit_test(fits),
        text@.len() > 0 ==> orientation.spec_dimensions(physical_width, physical_height).0
            >= HORIZONTAL_PADDING,
        text@.len() > 0 ==> orientation.spec_dimensions(physical_width, physical_height).1
            >= VERTICAL_PADDING,
    ensures
        size == spec_auto_fit(fits, text@, orientation, physical_width, physical_height),
{
    if text.is_empty() {
        return MIN_FONT_HALF_POINTS;
    }
    let (width, height) = orientation.dimensions(physical_width, physical_height);
    let max_text_width = width - HORIZONTAL_PADDING;
    let max_text_height = height - VERTICAL_PADDING;
    let mut low = MIN_FONT_HALF_POINTS;
    let mut high = MAX_FONT_HALF_POINTS;
    while high - low > 1
        invariant
            is_fit_test(fits),
            MIN_FONT_HALF_POINTS <= low < high <= MAX_FONT_HALF_POINTS,
            fit_search(fits, max_text_width, max_text_height, low as int, high as int)
                == fit_search(
                fits,
                max_text_width,
                max_text_height,
                MIN_FONT_HALF_POINTS as int,
                MAX_FONT_HALF_POINTS as int,
            ),
        decreases high - low,
    {
        let mid = (low + high) / 2;
        if test_size(&fits, mid, max_text_width, max_text_height) {
            low = mid;
        } else {
            high = mid;
        }
    }
    low
}

/// The bisection ends one half point below a size that failed (or below
/// 72 px), on a size that fit (or on 8 px); with a test under which a larger
/// size never fits when a smaller one does not, it is therefore the largest
/// size on the half-point grid below 72 px that fits, or 8 px when none does.
pub proof fn lemma_auto_fit_is_largest_fit<F: Fn(u32, u32, u32) -> bool>(
    fits: F,
    max_width: u32,
    max_height: u32,
)
    ensures
        ({
            let r = fit_search(
                fits,
                max_width,
                max_height,
                MIN_FONT_HALF_POINTS as int,
                MAX_FONT_HALF_POINTS as int,
            );
            &&& MIN_FONT_HALF_POINTS <= r < MAX_FONT_HALF_POINTS
            &&& r == MIN_FONT_HALF_POINTS || size_fits(fits, r, max_width, max_height)
            &&& r + 1 == MAX_FONT_HALF_POINTS || !size_fits(fits, r + 1, max_width, max_height)
            &&& (forall|a: int, b: int|
                MIN_FONT_HALF_POINTS <= a <= b < MAX_FONT_HALF_POINTS && #[trigger] size_fits(
                    fits,
                    b,
                    max_width,
                    max_height,
                ) ==> #[trigger] size_fits(fits, a, max_width, max_height)) ==> forall|s: int|
                r < s < MAX_FONT_HALF_POINTS ==> !#[trigger] size_fits(fits, s, max_width, max_height)
        }),
{
    lemma_fit_search_brackets(
        fits,
        max_width,
        max_height,
        MIN_FONT_HALF_POINTS as int,
        MAX_FONT_HALF_POINTS as int,
    );
}

proof fn lemma_fit_search_brackets<F: Fn(u32, u32, u32) -> bool>(
    fits: F,
    max_width: u32,
    max_height: u32,
    low: int,
    high: int,
)
    requires
        MIN_FONT_HALF_POINTS <= low < high <= MAX_FONT_HALF_POINTS,
        low == MIN_FONT_HALF_POINTS || size_fits(fits, low, max_width, max_height),
        high == MAX_FONT_HALF_POINTS || !size_fits(fits, high, max_width, max_height),
    ensures
        ({
            let r = fit_search(fits, max_width, max_height, low, high);
            &&& low <= r < high
            &&& r == MIN_FONT_HALF_POINTS || size_fits(fits, r, max_width, max_height)
            &&& r + 1 == MAX_FONT_HALF_POINTS || !size_fits(fits, r + 1, max_width, max_height)
        }),
    decreases high - low,
{
    if high - low > 1 {
        let mid = (low + high) / 2;
        if size_fits(fits, mid, max_width, max_height) {
            lemma_fit_search_brackets(fits, max_width, max_height, mid, high);
        } else {
            lemma_fit_search_brackets(fits, max_width, max_height, low, mid);
        }
    }
}


/// A flip variant sends the pixels of its base orientation in reverse order:
/// the frame turned by 180 degrees.
pub proof fn lemma_flip_reverses_scan(img: RgbImage, pw: u32, ph: u32)
    ensures
        physical_scan(img, Orientation::LandscapeFlip, pw, ph) == physical_scan(
            img,
            Orientation::Landscape,
            pw,
            ph,
        ).reverse(),
        img.spec_width() == pw && img.spec_height() == ph ==> physical_scan(
            img,
            Orientation::PortraitFlip,
            pw,
            ph,
        ) == physical_scan(img, Orientation::Portrait, pw, ph).reverse(),
{
    let a = physical_scan(img, Orientation::LandscapeFlip, pw, ph);
    let b = physical_scan(img, Orientation::Landscape, pw, ph);
    assert forall|k: int| 0 <= k < a.len() implies #[trigger] a[k] == b.reverse()[k] by {
        lemma_mirror_index(pw as int, ph as int, k);
    }
    assert(a =~= b.reverse());
    if img.spec_width() == pw && img.spec_height() == ph {
        let c = physical_scan(img, Orientation::PortraitFlip, pw, ph);
        let d = physical_scan(img, Orientation::Portrait, pw, ph);
        assert forall|k: int| 0 <= k < c.len() implies #[trigger] c[k] == d.reverse()[k] by {
            lemma_mirror_index(pw as int, ph as int, k);
        }
        assert(c =~= d.reverse());
    }
}

/// In a row-major scan of `w` x `h` positions, position `k` counted from the
/// end is the position mirrored in both directions.
proof fn lemma_mirror_index(w: int, h: int, k: int)
    requires
        w >= 0,
        h >= 0,
        0 <= k < w * h,
    ensures
        0 <= w * h - 1 - k < w * h,
        (w * h - 1 - k) % w == w - 1 - k % w,
        (w * h - 1 - k) / w == h - 1 - k / w,
        0 <= k % w < w,
        0 <= k / w < h,
{
    let n = w * h;
    let px = k % w;
    let py = k / w;
    assert(w > 0) by (nonlinear_arith)
        requires
            0 <= k < w * h,
            w >= 0,
            h >= 0,
    ;
    vstd::arithmetic::div_mod::lemma_fundamental_div_mod(k, w);
    vstd::arithmetic::div_mod::lemma_mod_bound(k, w);
    assert(py < h) by (nonlinear_arith)
        requires
            k == w * py + px,
            0 <= px,
            k < w * h,
            w > 0,
    ;
    assert(0 <= py) by (nonlinear_arith)
        requires
            k == w * py + px,
            px < w,
            0 <= k,
            w > 0,
    ;
    assert(n - 1 - k == (h - 1 - py) * w + (w - 1 - px)) by (nonlinear_arith)
        requires
            k == w * py + px,
            n == w * h,
    ;
    lemma_fundamental_div_mod_converse(n - 1 - k, w, h - 1 - py, w - 1 - px);
}

} // verus!
