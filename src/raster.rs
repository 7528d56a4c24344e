use vstd::prelude::*;

verus! {

/// Largest image side the fixed-point arithmetic is sized for.
pub const MAX_DIM: usize = 1048576;

/// A single-channel height image in raster order: row 0 is the top row.
#[derive(Debug)]
pub struct HeightImage {
    pub width: usize,
    pub height: usize,
    pub pixels: Vec<u8>,
}

/// Sides that the arithmetic on images and their extended grids can hold.
pub open spec fn supported_size(width: int, height: int) -> bool {
    &&& width <= MAX_DIM
    &&& height <= MAX_DIM
    &&& 9 * (width * height) <= usize::MAX
}

/// `width * height` when the sides are supported.
fn supported_count(width: usize, height: usize) -> (r: Option<usize>)
    ensures
        r is Some <==> supported_size(width as int, height as int),
        r matches Some(n) ==> n == width * height,
{
    if width > MAX_DIM || height > MAX_DIM {
        return None;
    }
    match width.checked_mul(height) {
        Some(n) => {
            if n > usize::MAX / 9 {
                None
            } else {
                Some(n)
            }
        },
        None => None,
    }
}

impl HeightImage {
    /// One sample per pixel, within the supported sizes.
    pub open spec fn wf(&self) -> bool {
        &&& self.pixels@.len() == self.width * self.height
        &&& supported_size(self.width as int, self.height as int)
    }

    /// The sample at column `x` of raster row `row`.
    pub open spec fn sample(&self, x: int, row: int) -> u8 {
        self.pixels@[row * self.width + x]
    }

    /// An image from its samples, if their number matches the sides.
    pub fn new(width: usize, height: usize, pixels: Vec<u8>) -> (r: Option<HeightImage>)
        ensures
            r is Some <==> (supported_size(width as int, height as int) && pixels@.len()
                == width * height),
            r matches Some(img) ==> img.wf() && img.width == width && img.height == height
                && img.pixels@ == pixels@,
    {
        match supported_count(width, height) {
            Some(n) => {
                if pixels.len() != n {
                    return None;
                }
                Some(HeightImage { width, height, pixels })
            },
            None => None,
        }
    }

    /// An image from interleaved samples with `channels` values per pixel,
    /// keeping the first channel of each pixel.
    pub fn from_channels(width: usize, height: usize, raw: &Vec<u8>, channels: usize) -> (r: Option<HeightImage>)
        ensures
            r is Some <==> (supported_size(width as int, height as int) && channels > 0
                && raw@.len() == width * height * channels),
            r matches Some(img) ==> img.wf() && img.width == width && img.height == height
                && forall|i: int| 0 <= i < width * height ==> #[trigger] img.pixels@[i] == raw@[i * channels],
    {
        if channels == 0 {
            return None;
        }
        let n = match supported_count(width, height) {
            Some(n) => n,
            None => { return None; },
        };
        let len = raw.len();
        let total = match n.checked_mul(channels) {
            Some(t) => t,
            None => { return None; },
        };
        if len != total {
            return None;
        }
        let mut pixels: Vec<u8> = Vec::with_capacity(n);
        let mut i: usize = 0;
        while i < n
            invariant
                n == width * height,
                channels > 0,
                raw@.len() == n * channels,
                total == n * channels,
                i <= n,
                pixels@.len() == i,
                forall|j: int| 0 <= j < i ==> #[trigger] pixels@[j] == raw@[j * channels],
            decreases n - i,
        {
            proof {
                vstd::arithmetic::mul::lemma_mul_inequality(i as int + 1, n as int, channels as int);
                vstd::arithmetic::mul::lemma_mul_is_distributive_add_other_way(channels as int, i as int, 1);
            }
            pixels.push(raw[i * channels]);
            i = i + 1;
        }
        Some(HeightImage { width, height, pixels })
    }

    /// The sample at column `x` of raster row `row`.
    pub fn value_at(&self, x: usize, row: usize) -> (r: u8)
        requires
            self.wf(),
            x < self.width,
            row < self.height,
        ensures
            r == self.sample(x as int, row as int),
    {
        proof {
            lemma_grid_index(x as int, row as int, self.width as int, self.height as int);
        }
        self.pixels[row * self.width + x]
    }
}

/// A cell of a `w` by `h` grid has its row-major index inside the grid.
pub proof fn lemma_grid_index(x: int, y: int, w: int, h: int)
    requires
        0 <= x < w,
        0 <= y < h,
    ensures
        0 <= y * w + x < w * h,
{
    vstd::arithmetic::mul::lemma_mul_inequality(y + 1, h, w);
    vstd::arithmetic::mul::lemma_mul_is_distributive_add_other_way(w, y, 1);
    vstd::arithmetic::mul::lemma_mul_nonnegative(y, w);
    vstd::arithmetic::mul::lemma_mul_is_commutative(h, w);
}

} // verus!
