use vstd::prelude::*;
use crate::color::Rgba8;
use crate::resolution::Resolution;

verus! {

/// The channel of `color` stored at byte `channel` (0 to 3) of a pixel: red, green, blue, alpha.
pub open spec fn channel(color: Rgba8, channel: int) -> u8 {
    if channel == 0 {
        color.red
    } else if channel == 1 {
        color.green
    } else if channel == 2 {
        color.blue
    } else {
        color.alpha
    }
}

/// Whether a bitmap of `resolution` fits in memory: its pixel count fits in 32 bits and its
/// bytes in an allocation.
pub open spec fn bitmap_fits(resolution: Resolution) -> bool {
    resolution.width * resolution.height <= u32::MAX && resolution.width * resolution.height * 4
        <= isize::MAX
}

/// The byte offset of pixel (`x`, `y`) in row-major RGBA order.
pub open spec fn pixel_offset(resolution: Resolution, x: int, y: int) -> int {
    (y * resolution.width + x) * 4
}

/// The pixel at (`x`, `y`), or `None` outside the bitmap.
pub open spec fn pixel_of(resolution: Resolution, data: Seq<u8>, x: int, y: int) -> Option<Rgba8> {
    if 0 <= x < resolution.width && 0 <= y < resolution.height {
        let i = pixel_offset(resolution, x, y);
        Some(Rgba8 { red: data[i], green: data[i + 1], blue: data[i + 2], alpha: data[i + 3] })
    } else {
        None
    }
}

/// `bytes` with the pixel whose first byte is at `i` replaced by `color`.
pub open spec fn with_pixel(bytes: Seq<u8>, i: int, color: Rgba8) -> Seq<u8> {
    bytes.update(i, color.red).update(i + 1, color.green).update(i + 2, color.blue).update(
        i + 3,
        color.alpha,
    )
}

/// The sum of two channel values, held at 255.
pub open spec fn saturating_sum(a: u8, b: u8) -> u8 {
    if a + b > 255 {
        255
    } else {
        (a + b) as u8
    }
}

/// The channel-wise saturating sum of two colors.
pub open spec fn add_colors(a: Rgba8, b: Rgba8) -> Rgba8 {
    Rgba8 {
        red: saturating_sum(a.red, b.red),
        green: saturating_sum(a.green, b.green),
        blue: saturating_sum(a.blue, b.blue),
        alpha: saturating_sum(a.alpha, b.alpha),
    }
}

/// The larger of two channel values.
pub open spec fn brighter(a: u8, b: u8) -> u8 {
    if a < b {
        b
    } else {
        a
    }
}

/// `pixel` lightened towards `red`, `green`, `blue` channel by channel, and made opaque.
pub open spec fn lighten(pixel: Rgba8, red: u8, green: u8, blue: u8) -> Rgba8 {
    Rgba8 {
        red: brighter(pixel.red, red),
        green: brighter(pixel.green, green),
        blue: brighter(pixel.blue, blue),
        alpha: 255,
    }
}

/// The image bytes after the pixel (`x`, `y`) is replaced by `f` of its old value; outside
/// the image nothing changes.
pub open spec fn update_pixel(
    resolution: Resolution,
    bytes: Seq<u8>,
    x: int,
    y: int,
    new_pixel: spec_fn(Rgba8) -> Rgba8,
) -> Seq<u8> {
    match pixel_of(resolution, bytes, x, y) {
        Some(old_pixel) => with_pixel(bytes, pixel_offset(resolution, x, y), new_pixel(old_pixel)),
        None => bytes,
    }
}

/// An RGBA image with 8 bits per channel, stored row by row.
#[derive(Debug, PartialEq, Eq)]
pub struct Bitmap {
    resolution: Resolution,
    data: Vec<u8>,
}

impl Bitmap {
    /// The size of the image.
    pub closed spec fn size(&self) -> Resolution {
        self.resolution
    }

    /// The RGBA bytes of the image, row by row.
    pub closed spec fn bytes(&self) -> Seq<u8> {
        self.data@
    }

    /// Four bytes per pixel. Every bitmap keeps this; the methods state it for their callers.
    pub open spec fn wf(&self) -> bool {
        self.bytes().len() == self.size().width * self.size().height * 4
    }

    #[verifier::type_invariant]
    spec fn four_bytes_per_pixel(&self) -> bool {
        self.data@.len() == self.resolution.width * self.resolution.height * 4
    }

    /// An empty bitmap, to stand in while one is taken apart.
    fn placeholder() -> (bitmap: Self)
        ensures
            bitmap.wf(),
    {
        Self { resolution: Resolution::new(0, 0), data: Vec::new() }
    }

    /// Whether an image of `resolution` can be made, as `new` needs.
    pub fn fits(resolution: &Resolution) -> (fits: bool)
        ensures
            fits == bitmap_fits(*resolution),
    {
        let width = resolution.width as u64;
        let height = resolution.height as u64;
        assert(width * height <= 0xffff_fffe_0000_0001) by (nonlinear_arith)
            requires
                width <= 0xffff_ffff,
                height <= 0xffff_ffff,
        ;
        let area: u64 = width * height;
        area <= 0xffff_ffffu64 && (area as u128) * 4 <= isize::MAX as u128
    }

    /// A transparent black image of the given size.
    pub fn new(resolution: Resolution) -> (bitmap: Self)
        requires
            bitmap_fits(resolution),
        ensures
            bitmap.wf(),
            bitmap.size() == resolution,
            forall|i: int| 0 <= i < bitmap.bytes().len() ==> bitmap.bytes()[i] == 0,
    {
        let len = resolution.area() * 4;
        let data: Vec<u8> = vec![0; len];
        Self { resolution, data }
    }

    /// The width in pixels.
    pub fn width(&self) -> (width: u32)
        ensures
            width == self.size().width,
    {
        self.resolution.width
    }

    /// The height in pixels.
    pub fn height(&self) -> (height: u32)
        ensures
            height == self.size().height,
    {
        self.resolution.height
    }

    /// The size of the image.
    pub fn resolution(&self) -> (resolution: &Resolution)
        ensures
            *resolution == self.size(),
    {
        &self.resolution
    }

    /// The RGBA bytes, row by row: four for each pixel.
    pub fn data(&self) -> (data: &[u8])
        ensures
            data@ == self.bytes(),
            self.wf(),
    {
        proof {
            use_type_invariant(self);
        }
        self.data.as_slice()
    }

    /// Sets every pixel to `color`.
    pub fn fill(&mut self, color: Rgba8)
        ensures
            final(self).wf(),
            final(self).size() == old(self).size(),
            final(self).bytes().len() == old(self).bytes().len(),
            forall|i: int|
                0 <= i < final(self).bytes().len() ==> #[trigger] final(self).bytes()[i] == channel(
                    color,
                    i % 4,
                ),
    {
        let mut taken = Self::placeholder();
        std::mem::swap(&mut taken, self);
        proof {
            use_type_invariant(&taken);
        }
        let Self { resolution, mut data } = taken;
        let n = data.len();
        let mut i: usize = 0;
        while i < n
            invariant
                n == data@.len(),
                n == old(self).data@.len(),
                resolution == old(self).resolution,
                i % 4 == 0,
                i <= n,
                n % 4 == 0,
                forall|j: int| 0 <= j < i ==> #[trigger] data@[j] == channel(color, j % 4),
            decreases n - i,
        {
            data.set(i, color.red);
            data.set(i + 1, color.green);
            data.set(i + 2, color.blue);
            data.set(i + 3, color.alpha);
            i = i + 4;
        }
        *self = Self { resolution, data };
    }

    /// The index of the first byte of pixel (`x`, `y`), or `None` outside the image.
    pub(crate) fn pixel_index(&self, x: u32, y: u32) -> (index: Option<usize>)
        ensures
            match index {
                Some(i) => x < self.size().width && y < self.size().height && i == pixel_offset(
                    self.size(),
                    x as int,
                    y as int,
                ) && i + 4 <= self.bytes().len(),
                None => !(x < self.size().width && y < self.size().height),
            },
    {
        proof {
            use_type_invariant(self);
        }
        if x >= self.width() || y >= self.height() {
            return None;
        }
        let len = self.data.len();
        proof {
            let w = self.resolution.width as int;
            let h = self.resolution.height as int;
            assert((y * w + x) * 4 + 4 <= w * h * 4) by (nonlinear_arith)
                requires
                    0 <= x < w,
                    0 <= y < h,
            ;
            assert(y * w <= y * w + x) by (nonlinear_arith)
                requires
                    0 <= x,
                    0 <= y,
                    0 <= w,
            ;
            assert(len == self.data@.len());
        }
        Some((y as usize * self.width() as usize + x as usize) * 4)
    }

    /// The pixel at (`x`, `y`), or `None` outside the image.
    pub fn pixel(&self, x: u32, y: u32) -> (color: Option<Rgba8>)
        ensures
            color == pixel_of(self.size(), self.bytes(), x as int, y as int),
    {
        let index = self.pixel_index(x, y)?;
        Some(
            Rgba8::new(
                self.data[index],
                self.data[index + 1],
                self.data[index + 2],
                self.data[index + 3],
            ),
        )
    }

    /// Sets the pixel (`x`, `y`) to `color`; outside the image nothing changes.
    pub fn set_pixel(&mut self, x: u32, y: u32, color: Rgba8)
        ensures
            final(self).wf(),
            final(self).size() == old(self).size(),
            final(self).bytes() == update_pixel(
                old(self).size(),
                old(self).bytes(),
                x as int,
                y as int,
                |p: Rgba8| color,
            ),
    {
        proof {
            use_type_invariant(&*self);
        }
        if let Some(i) = self.pixel_index(x, y) {
            self.write_pixel(i, color);
        }
    }

    /// Adds `color` to the pixel (`x`, `y`), each channel saturating at 255; outside the
    /// image nothing changes.
    pub fn add_pixel(&mut self, x: u32, y: u32, color: Rgba8)
        ensures
            final(self).wf(),
            final(self).size() == old(self).size(),
            final(self).bytes() == update_pixel(
                old(self).size(),
                old(self).bytes(),
                x as int,
                y as int,
                |p: Rgba8| add_colors(p, color),
            ),
    {
        proof {
            use_type_invariant(&*self);
        }
        if let Some(i) = self.pixel_index(x, y) {
            let sum = Rgba8::new(
                self.data[i].saturating_add(color.red),
                self.data[i + 1].saturating_add(color.green),
                self.data[i + 2].saturating_add(color.blue),
                self.data[i + 3].saturating_add(color.alpha),
            );
            self.write_pixel(i, sum);
        }
    }

    /// Raises each color channel of the pixel (`x`, `y`) to at least `red`, `green`, `blue`
    /// and makes it opaque; outside the image nothing changes.
    pub fn lighten_pixel(&mut self, x: u32, y: u32, red: u8, green: u8, blue: u8)
        ensures
            final(self).wf(),
            final(self).size() == old(self).size(),
            final(self).bytes() == update_pixel(
                old(self).size(),
                old(self).bytes(),
                x as int,
                y as int,
                |p: Rgba8| lighten(p, red, green, blue),
            ),
    {
        proof {
            use_type_invariant(&*self);
        }
        if let Some(i) = self.pixel_index(x, y) {
            let r = self.data[i];
            let g = self.data[i + 1];
            let b = self.data[i + 2];
            let lit = Rgba8::new(
                if r < red { red } else { r },
                if g < green { green } else { g },
                if b < blue { blue } else { b },
                255,
            );
            self.write_pixel(i, lit);
        }
    }

    /// Writes the four bytes of `color` at `i`.
    fn write_pixel(&mut self, i: usize, color: Rgba8)
        requires
            i + 4 <= old(self).bytes().len(),
        ensures
            final(self).wf(),
            final(self).size() == old(self).size(),
            final(self).bytes() == with_pixel(old(self).bytes(), i as int, color),
    {
        let mut taken = Self::placeholder();
        std::mem::swap(&mut taken, self);
        proof {
            use_type_invariant(&taken);
        }
        let Self { resolution, mut data } = taken;
        let n = data.len();
        assert(i + 4 <= n);
        data.set(i, color.red);
        data.set(i + 1, color.green);
        data.set(i + 2, color.blue);
        data.set(i + 3, color.alpha);
        *self = Self { resolution, data };
    }
}

impl Clone for Bitmap {
    /// A bitmap of the same size and bytes.
    fn clone(&self) -> (copy: Self)
        ensures
            copy.size() == self.size(),
            copy.bytes() == self.bytes(),
    {
        proof {
            use_type_invariant(self);
        }
        let data = self.data.clone();
        proof {
            assert(data@ =~= self.data@);
        }
        Self { resolution: Resolution::new(self.resolution.width, self.resolution.height), data }
    }
}

/// After `fill`, every pixel of the image has the fill color.
pub proof fn lemma_fill_sets_every_pixel(bitmap: Bitmap, filled: Bitmap, color: Rgba8, x: int, y: int)
    requires
        filled.wf(),
        filled.size() == bitmap.size(),
        forall|i: int|
            0 <= i < filled.bytes().len() ==> #[trigger] filled.bytes()[i] == channel(color, i % 4),
        0 <= x < bitmap.size().width,
        0 <= y < bitmap.size().height,
    ensures
        pixel_of(filled.size(), filled.bytes(), x, y) == Some(color),
{
    let r = filled.size();
    let i = pixel_offset(r, x, y);
    assert(i + 4 <= r.width * r.height * 4 && i % 4 == 0) by (nonlinear_arith)
        requires
            0 <= x < r.width,
            0 <= y < r.height,
            i == (y * r.width + x) * 4,
    ;
    assert(filled.bytes()[i] == channel(color, 0));
    assert(filled.bytes()[i + 1] == channel(color, 1));
    assert(filled.bytes()[i + 2] == channel(color, 2));
    assert(filled.bytes()[i + 3] == channel(color, 3));
}

/// Additive drawing does not depend on order: adding `first` and then `second` to a pixel
/// leaves the image as adding `second` and then `first` does.
pub proof fn lemma_adding_colors_commutes(bitmap: Bitmap, x: int, y: int, first: Rgba8, second: Rgba8)
    requires
        bitmap.wf(),
    ensures
        update_pixel(
            bitmap.size(),
            update_pixel(bitmap.size(), bitmap.bytes(), x, y, |p: Rgba8| add_colors(p, first)),
            x,
            y,
            |p: Rgba8| add_colors(p, second),
        ) == update_pixel(
            bitmap.size(),
            update_pixel(bitmap.size(), bitmap.bytes(), x, y, |p: Rgba8| add_colors(p, second)),
            x,
            y,
            |p: Rgba8| add_colors(p, first),
        ),
{
    let r = bitmap.size();
    let b = bitmap.bytes();
    if 0 <= x < r.width && 0 <= y < r.height {
        let i = pixel_offset(r, x, y);
        assert(0 <= i && i + 4 <= r.width * r.height * 4) by (nonlinear_arith)
            requires
                0 <= x < r.width,
                0 <= y < r.height,
                i == (y * r.width + x) * 4,
        ;
        let p = pixel_of(r, b, x, y)->Some_0;
        let b1 = with_pixel(b, i, add_colors(p, first));
        let b2 = with_pixel(b, i, add_colors(p, second));
        assert(pixel_of(r, b1, x, y) == Some(add_colors(p, first)));
        assert(pixel_of(r, b2, x, y) == Some(add_colors(p, second)));
        assert(add_colors(add_colors(p, first), second) == add_colors(add_colors(p, second), first));
        assert(with_pixel(b1, i, add_colors(add_colors(p, first), second)) =~= with_pixel(
            b2,
            i,
            add_colors(add_colors(p, second), first),
        ));
    }
}

/// The bytes are stored row by row, four per pixel: pixel (`x`, `y`) of a `width`-wide image
/// is read from, and written to, the bytes `(y * width + x) * 4` to `(y * width + x) * 4 + 3`
/// (red, green, blue, alpha), and writing it leaves every other byte as it was.
pub proof fn lemma_pixels_are_row_major(
    bitmap: Bitmap,
    x: int,
    y: int,
    new_pixel: spec_fn(Rgba8) -> Rgba8,
)
    requires
        bitmap.wf(),
        0 <= x < bitmap.size().width,
        0 <= y < bitmap.size().height,
    ensures
        ({
            let w = bitmap.size().width as int;
            let b = bitmap.bytes();
            let i = (y * w + x) * 4;
            let old_pixel = Rgba8 { red: b[i], green: b[i + 1], blue: b[i + 2], alpha: b[i + 3] };
            let written = update_pixel(bitmap.size(), b, x, y, new_pixel);
            &&& 0 <= i && i + 4 <= b.len()
            &&& pixel_of(bitmap.size(), b, x, y) == Some(old_pixel)
            &&& written.len() == b.len()
            &&& written[i] == new_pixel(old_pixel).red
            &&& written[i + 1] == new_pixel(old_pixel).green
            &&& written[i + 2] == new_pixel(old_pixel).blue
            &&& written[i + 3] == new_pixel(old_pixel).alpha
            &&& forall|k: int| 0 <= k < b.len() && (k < i || k >= i + 4) ==> written[k] == b[k]
        }),
{
    let r = bitmap.size();
    let w = r.width as int;
    let i = (y * w + x) * 4;
    assert(0 <= i && i + 4 <= r.width * r.height * 4) by (nonlinear_arith)
        requires
            0 <= x < r.width,
            0 <= y < r.height,
            i == (y * r.width + x) * 4,
    ;
}

} // verus!
