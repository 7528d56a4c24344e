use vstd::prelude::*;

use crate::raster::HeightImage;

verus! {

/// Smallest and largest sample value seen by a scan.
#[derive(Clone, Copy, Debug, PartialEq, Eq, Structural)]
pub struct Extrema {
    pub min: u8,
    pub max: u8,
}

/// `e` bounds every value of `vals`, and both of its bounds occur there.
pub open spec fn bounds_values(e: Extrema, vals: Seq<u8>) -> bool {
    &&& forall|i: int| 0 <= i < vals.len() ==> e.min <= #[trigger] vals[i] <= e.max
    &&& exists|i: int| 0 <= i < vals.len() && vals[i] == e.min
    &&& exists|i: int| 0 <= i < vals.len() && vals[i] == e.max
}

/// The cell at column `x`, row `row` lies on the outermost ring of a `width`
/// by `height` grid.
pub open spec fn on_ring(width: int, height: int, x: int, row: int) -> bool {
    &&& 0 <= x < width
    &&& 0 <= row < height
    &&& (x == 0 || x == width - 1 || row == 0 || row == height - 1)
}

/// The cell at column `x`, raster row `row` lies on the outermost ring of the image.
pub open spec fn on_border(img: &HeightImage, x: int, row: int) -> bool {
    on_ring(img.width as int, img.height as int, x, row)
}

/// `e` bounds every sample of the image's outermost ring, and both of its
/// bounds occur on that ring.
pub open spec fn bounds_border(e: Extrema, img: &HeightImage) -> bool {
    &&& forall|x: int, row: int| on_border(img, x, row)
        ==> e.min <= #[trigger] img.sample(x, row) <= e.max
    &&& exists|x: int, row: int| on_border(img, x, row) && img.sample(x, row) == e.min
    &&& exists|x: int, row: int| on_border(img, x, row) && img.sample(x, row) == e.max
}

/// The samples at the listed cells, in order.
pub open spec fn samples_at(img: &HeightImage, cells: Seq<(usize, usize)>) -> Seq<u8> {
    Seq::new(cells.len(), |k: int| img.sample(cells[k].0 as int, cells[k].1 as int))
}

impl Extrema {
    /// Extrema of every sample of the image; `None` for an image without pixels.
    pub fn get_image_extrema(img: &HeightImage) -> (r: Option<Extrema>)
        requires
            img.wf(),
        ensures
            r is None <==> img.pixels@.len() == 0,
            r matches Some(e) ==> bounds_values(e, img.pixels@),
    {
        let n = img.pixels.len();
        if n == 0 {
            return None;
        }
        let first = img.pixels[0];
        let mut e = Extrema { min: first, max: first };
        let ghost mut at_min: int = 0;
        let ghost mut at_max: int = 0;
        let mut i: usize = 1;
        while i < n
            invariant
                n == img.pixels@.len(),
                1 <= i <= n,
                forall|j: int| 0 <= j < i ==> e.min <= #[trigger] img.pixels@[j] <= e.max,
                0 <= at_min < n && img.pixels@[at_min] == e.min,
                0 <= at_max < n && img.pixels@[at_max] == e.max,
            ensures
                forall|j: int| 0 <= j < n ==> e.min <= #[trigger] img.pixels@[j] <= e.max,
                0 <= at_min < n && img.pixels@[at_min] == e.min,
                0 <= at_max < n && img.pixels@[at_max] == e.max,
            decreases n - i,
        {
            if e.min == 0 && e.max == 255 {
                break;
            }
            let value = img.pixels[i];
            if value > e.max {
                e.max = value;
                proof { at_max = i as int; }
            }
            if value < e.min {
                e.min = value;
                proof { at_min = i as int; }
            }
            i = i + 1;
        }
        Some(e)
    }

    /// Extrema of the outermost ring of pixels; `None` for an image without pixels.
    pub fn get_border_extrema(img: &HeightImage) -> (r: Option<Extrema>)
        requires
            img.wf(),
        ensures
            r is None <==> (img.width == 0 || img.height == 0),
            r matches Some(e) ==> bounds_border(e, img),
    {
        if img.width == 0 || img.height == 0 {
            return None;
        }
        let cells = border_cells(img.width, img.height);
        let e = scan_cells(img, &cells);
        proof {
            let vals = samples_at(img, cells@);
            assert forall|x: int, row: int| on_border(img, x, row)
                implies e.min <= #[trigger] img.sample(x, row) <= e.max by {
                let k = choose|k: int| 0 <= k < cells@.len() && cells@[k] == (x as usize, row as usize);
                assert(vals[k] == img.sample(x, row));
            }
            let kmin = choose|k: int| 0 <= k < vals.len() && vals[k] == e.min;
            assert(on_border(img, cells@[kmin].0 as int, cells@[kmin].1 as int));
            let kmax = choose|k: int| 0 <= k < vals.len() && vals[k] == e.max;
            assert(on_border(img, cells@[kmax].0 as int, cells@[kmax].1 as int));
        }
        Some(e)
    }

    /// The pixel value the capture point is placed at when it is generated: the
    /// largest value found.
    pub fn get_capture_height(ext: &Extrema) -> (r: u8)
        ensures
            r == ext.max,
    {
        ext.max
    }
}

/// The two cells listed for column `k` of the top and bottom rows.
spec fn row_pair(s: Seq<(usize, usize)>, k: int) -> ((usize, usize), (usize, usize)) {
    (s[2 * k], s[2 * k + 1])
}

/// The two cells listed for row `k` of the left and right columns.
spec fn side_pair(s: Seq<(usize, usize)>, width: int, k: int) -> ((usize, usize), (usize, usize)) {
    (s[2 * width + 2 * (k - 1)], s[2 * width + 2 * (k - 1) + 1])
}

/// Every cell of the outermost ring of a `width` by `height` grid, and no other.
fn border_cells(width: usize, height: usize) -> (r: Vec<(usize, usize)>)
    requires
        1 <= width <= crate::raster::MAX_DIM,
        1 <= height <= crate::raster::MAX_DIM,
    ensures
        r@.len() > 0,
        forall|k: int| 0 <= k < r@.len() ==> {
            let (x, row) = #[trigger] r@[k];
            &&& x < width
            &&& row < height
            &&& (x == 0 || x == width - 1 || row == 0 || row == height - 1)
        },
        forall|x: int, row: int| #[trigger] on_ring(width as int, height as int, x, row)
            ==> exists|k: int| 0 <= k < r@.len() && r@[k] == (x as usize, row as usize),
{
    let mut cells: Vec<(usize, usize)> = Vec::new();
    let mut x: usize = 0;
    while x < width
        invariant
            1 <= width <= crate::raster::MAX_DIM,
            1 <= height <= crate::raster::MAX_DIM,
            x <= width,
            cells@.len() == 2 * x,
            forall|k: int| 0 <= k < x ==> #[trigger] row_pair(cells@, k) == ((k as usize, 0usize), (
                k as usize, (height - 1) as usize)),
        decreases width - x,
    {
        let ghost before = cells@;
        cells.push((x, 0));
        cells.push((x, height - 1));
        proof {
            assert forall|k: int| 0 <= k < x + 1 implies #[trigger] row_pair(cells@, k) == ((
                k as usize, 0usize), (k as usize, (height - 1) as usize)) by {
                if k < x {
                    assert(row_pair(before, k) == row_pair(cells@, k));
                }
            }
        }
        x = x + 1;
    }
    let mut row: usize = 1;
    while row + 1 < height
        invariant
            1 <= width <= crate::raster::MAX_DIM,
            1 <= height <= crate::raster::MAX_DIM,
            1 <= row <= height,
            row + 1 < height || row <= 1 || row + 1 == height,
            cells@.len() == 2 * width + 2 * (row - 1),
            forall|k: int| 0 <= k < width ==> #[trigger] row_pair(cells@, k) == ((k as usize, 0usize), (
                k as usize, (height - 1) as usize)),
            forall|k: int| 1 <= k < row ==> #[trigger] side_pair(cells@, width as int, k) == ((
                0usize, k as usize), ((width - 1) as usize, k as usize)),
        decreases height - row,
    {
        let ghost before = cells@;
        cells.push((0, row));
        cells.push((width - 1, row));
        proof {
            assert forall|k: int| 0 <= k < width implies #[trigger] row_pair(cells@, k) == ((
                k as usize, 0usize), (k as usize, (height - 1) as usize)) by {
                assert(row_pair(before, k) == row_pair(cells@, k));
            }
            assert forall|k: int| 1 <= k < row + 1 implies #[trigger] side_pair(cells@, width as int, k)
                == ((0usize, k as usize), ((width - 1) as usize, k as usize)) by {
                if k < row {
                    assert(side_pair(before, width as int, k) == side_pair(cells@, width as int, k));
                }
            }
        }
        row = row + 1;
    }
    proof {
        assert forall|k: int| 0 <= k < cells@.len() implies {
            let (x, row) = #[trigger] cells@[k];
            &&& x < width
            &&& row < height
            &&& (x == 0 || x == width - 1 || row == 0 || row == height - 1)
        } by {
            if k < 2 * width {
                let j = k / 2;
                assert(k == 2 * j || k == 2 * j + 1);
                assert(row_pair(cells@, j) == ((j as usize, 0usize), (j as usize, (height - 1) as usize)));
            } else {
                let j = (k - 2 * width) / 2 + 1;
                assert(k == 2 * width + 2 * (j - 1) || k == 2 * width + 2 * (j - 1) + 1);
                assert(side_pair(cells@, width as int, j) == ((0usize, j as usize), ((width - 1) as usize, j as usize)));
            }
        }
        assert forall|x: int, r: int| #[trigger] on_ring(width as int, height as int, x, r)
            implies exists|k: int| 0 <= k < cells@.len() && cells@[k] == (x as usize, r as usize) by {
            if r == 0 {
                assert(row_pair(cells@, x) == ((x as usize, 0usize), (x as usize, (height - 1) as usize)));
                assert(cells@[2 * x] == (x as usize, r as usize));
            } else if r == height - 1 {
                assert(row_pair(cells@, x) == ((x as usize, 0usize), (x as usize, (height - 1) as usize)));
                assert(cells@[2 * x + 1] == (x as usize, r as usize));
            } else if x == 0 {
                assert(side_pair(cells@, width as int, r) == ((0usize, r as usize), ((width - 1) as usize, r as usize)));
                assert(cells@[2 * width + 2 * (r - 1)] == (x as usize, r as usize));
            } else {
                assert(side_pair(cells@, width as int, r) == ((0usize, r as usize), ((width - 1) as usize, r as usize)));
                assert(cells@[2 * width + 2 * (r - 1) + 1] == (x as usize, r as usize));
            }
        }
    }
    cells
}

/// Extrema of the samples at the listed cells, stopping once both 0 and 255
/// have been seen.
fn scan_cells(img: &HeightImage, cells: &Vec<(usize, usize)>) -> (e: Extrema)
    requires
        img.wf(),
        cells@.len() > 0,
        forall|k: int| 0 <= k < cells@.len() ==> (#[trigger] cells@[k]).0 < img.width
            && cells@[k].1 < img.height,
    ensures
        bounds_values(e, samples_at(img, cells@)),
{
    let ghost vals = samples_at(img, cells@);
    let first = img.value_at(cells[0].0, cells[0].1);
    let mut e = Extrema { min: first, max: first };
    let ghost mut at_min: int = 0;
    let ghost mut at_max: int = 0;
    let n = cells.len();
    let mut i: usize = 1;
    while i < n
        invariant
            n == cells@.len(),
            vals == samples_at(img, cells@),
            img.wf(),
            forall|k: int| 0 <= k < cells@.len() ==> (#[trigger] cells@[k]).0 < img.width
                && cells@[k].1 < img.height,
            1 <= i <= n,
            forall|j: int| 0 <= j < i ==> e.min <= #[trigger] vals[j] <= e.max,
            0 <= at_min < n && vals[at_min] == e.min,
            0 <= at_max < n && vals[at_max] == e.max,
        ensures
            forall|j: int| 0 <= j < n ==> e.min <= #[trigger] vals[j] <= e.max,
            0 <= at_min < n && vals[at_min] == e.min,
            0 <= at_max < n && vals[at_max] == e.max,
        decreases n - i,
    {
        if e.min == 0 && e.max == 255 {
            break;
        }
        let value = img.value_at(cells[i].0, cells[i].1);
        if value > e.max {
            e.max = value;
            proof { at_max = i as int; }
        }
        if value < e.min {
            e.min = value;
            proof { at_min = i as int; }
        }
        i = i + 1;
    }
    e
}

} // verus!
