use vstd::prelude::*;

use crate::extrema::Extrema;
use crate::mesh::{capture_basis, cell_center, vertex_for, Mesh, Z_LIMIT};
use crate::raster::HeightImage;
use crate::settings::{CaptureHeight, GenSettings, HALF_CELL, UNITS_PER_CELL};
use crate::spiral::{generate_spiral, in_square, is_spiral, norm};
use crate::vec3::{dist_sq, Vec3};

verus! {

/// Stands for "no vertex found yet" in the search.
pub const NO_DISTANCE: u128 = 340282366920938463463374607431768211455;

/// Distance record of one output pixel: the squared distance, in squared
/// length units, from its capture point to the nearest vertex.
#[derive(Clone, Copy, Debug, PartialEq, Eq, Structural)]
pub struct Dist {
    pub x: usize,
    pub y: usize,
    pub dst_sq: u128,
}

/// Height of the capture point, in length units.
pub open spec fn capture_height_of(s: GenSettings, ext: Extrema) -> int {
    s.height_of(capture_basis(s, ext))
}

/// The capture point above pixel `(x, y)`.
pub open spec fn capture_point(x: int, y: int, cz: int) -> Vec3 {
    Vec3 { x: cell_center(x) as i128, y: cell_center(y) as i128, z: cz as i128 }
}

/// Mesh cell `(mx, my)` lies in the extended grid.
pub open spec fn in_grid(mesh: &Mesh, mx: int, my: int) -> bool {
    let k = mesh.skirt as int;
    &&& -k <= mx < mesh.dimensions.0 + k
    &&& -k <= my < mesh.dimensions.1 + k
}

/// Flat index of mesh cell `(mx, my)`.
pub open spec fn cell_index(mesh: &Mesh, mx: int, my: int) -> int {
    (my + mesh.skirt) * mesh.ext_dim.0 + (mx + mesh.skirt)
}

/// Squared distance from the capture point of pixel `(x, y)` to the vertex at offset `(dx, dy)`.
pub open spec fn offset_dist(mesh: &Mesh, cz: int, x: int, y: int, dx: int, dy: int) -> int {
    dist_sq(mesh.verts@[cell_index(mesh, x + dx, y + dy)], capture_point(x, y, cz))
}

/// The offset `(dx, dy)` is a candidate of the search around pixel `(x, y)`:
/// within the search radius, and on a vertex of the extended grid.
pub open spec fn candidate(mesh: &Mesh, x: int, y: int, dx: int, dy: int) -> bool {
    &&& in_square(mesh.usable_radius as int, dx, dy)
    &&& in_grid(mesh, x + dx, y + dy)
}

/// `v` is the smallest squared distance from the capture point of `(x, y)`
/// to a candidate vertex.
pub open spec fn is_nearest(mesh: &Mesh, cz: int, x: int, y: int, v: int) -> bool {
    &&& forall|dx: int, dy: int| #[trigger] candidate(mesh, x, y, dx, dy) ==> v <= offset_dist(mesh, cz, x, y, dx, dy)
    &&& exists|dx: int, dy: int| #[trigger] candidate(mesh, x, y, dx, dy) && v == offset_dist(mesh, cz, x, y, dx, dy)
}

proof fn lemma_center_bound(m: int)
    requires
        -4194304 <= m <= 4194304,
    ensures
        -8388609 * 255000 <= cell_center(m) <= 8388609 * 255000,
{
    let c = cell_center(m);
    assert(c == (2 * m + 1) * 255000);
    assert(-8388609 * 255000 <= c <= 8388609 * 255000) by (nonlinear_arith)
        requires c == (2 * m + 1) * 255000, -4194304 <= m <= 4194304;
}

/// A grid cell's vertex sits at its flat index, and its squared distance to a
/// capture point is at least the squared horizontal offset.
proof fn lemma_cell(mesh: &Mesh, cz: int, x: int, y: int, dx: int, dy: int)
    requires
        mesh.wf(),
        0 <= x < mesh.dimensions.0,
        0 <= y < mesh.dimensions.1,
        0 <= cz <= Z_LIMIT,
        in_grid(mesh, x + dx, y + dy),
    ensures
        0 <= cell_index(mesh, x + dx, y + dy) < mesh.verts@.len(),
        mesh.verts@[cell_index(mesh, x + dx, y + dy)].in_range(),
        capture_point(x, y, cz).in_range(),
        offset_dist(mesh, cz, x, y, dx, dy) >= (dx * dx + dy * dy) * (UNITS_PER_CELL * UNITS_PER_CELL),
        offset_dist(mesh, cz, x, y, dx, dy) <= DIST_LIMIT,
{
    let ew = mesh.ext_dim.0 as int;
    let eh = mesh.ext_dim.1 as int;
    let k = mesh.skirt as int;
    let gx = x + dx + k;
    let gy = y + dy + k;
    let i = cell_index(mesh, x + dx, y + dy);
    crate::raster::lemma_grid_index(gx, gy, ew, eh);
    vstd::arithmetic::mul::lemma_mul_is_commutative(ew, eh);
    vstd::arithmetic::div_mod::lemma_fundamental_div_mod_converse(i, ew, gy, gx);
    let v = mesh.verts@[i];
    assert(v.x == cell_center(x + dx) && v.y == cell_center(y + dy));
    let ddx = cell_center(x + dx) - cell_center(x);
    let ddy = cell_center(y + dy) - cell_center(y);
    assert(ddx == dx * UNITS_PER_CELL && ddy == dy * UNITS_PER_CELL) by (nonlinear_arith)
        requires ddx == (2 * (x + dx) + 1) * 255000 - (2 * x + 1) * 255000,
            ddy == (2 * (y + dy) + 1) * 255000 - (2 * y + 1) * 255000;
    let c = capture_point(x, y, cz);
    lemma_center_bound(x + dx);
    lemma_center_bound(y + dy);
    lemma_center_bound(x);
    lemma_center_bound(y);
    let dz = v.z - c.z;
    assert(ddx * ddx + ddy * ddy + dz * dz >= (dx * dx + dy * dy) * (UNITS_PER_CELL * UNITS_PER_CELL)) by (nonlinear_arith)
        requires ddx == dx * UNITS_PER_CELL, ddy == dy * UNITS_PER_CELL;
    assert(ddx * ddx + ddy * ddy + dz * dz <= DIST_LIMIT) by (nonlinear_arith)
        requires
            ddx == dx * 510000,
            ddy == dy * 510000,
            -4194304 <= dx <= 4194304,
            -4194304 <= dy <= 4194304,
            -1125899906842624 <= dz <= 1125899906842624;
}

/// Squared distance from the capture point of pixel `(x, y)` at height `cz`
/// to the nearest candidate vertex. The spiral is walked nearest-first, and the
/// walk stops once an offset is farther than the best distance along one axis:
/// no later offset can then come closer.
pub fn pixel_distance(mesh: &Mesh, spiral: &Vec<(i64, i64)>, cz: i64, x: usize, y: usize) -> (r: u128)
    requires
        mesh.wf(),
        is_spiral(spiral@, mesh.usable_radius as int),
        0 <= cz <= Z_LIMIT,
        x < mesh.dimensions.0,
        y < mesh.dimensions.1,
    ensures
        is_nearest(mesh, cz as int, x as int, y as int, r as int),
{
    let ghost xi = x as int;
    let ghost yi = y as int;
    let ghost czi = cz as int;
    let ghost rad = mesh.usable_radius as int;
    proof {
        lemma_center_bound(xi);
        lemma_center_bound(yi);
    }
    let capture = Vec3::new(
        (((2 * x + 1) as i128) * (HALF_CELL as i128), ((2 * y + 1) as i128) * (HALF_CELL as i128), cz as i128),
    );
    assert(capture == capture_point(xi, yi, czi));
    let k = mesh.skirt as i64;
    let w = mesh.dimensions.0 as i64;
    let h = mesh.dimensions.1 as i64;
    let ew = mesh.ext_dim.0;
    let n = spiral.len();
    let mut best: u128 = NO_DISTANCE;
    let ghost mut found = false;
    let ghost mut wit: int = 0;
    let mut i: usize = 0;
    while i < n
        invariant
            mesh.wf(),
            is_spiral(spiral@, rad),
            rad == mesh.usable_radius,
            0 <= czi <= Z_LIMIT,
            xi == x && yi == y && czi == cz,
            x < mesh.dimensions.0 && y < mesh.dimensions.1,
            capture == capture_point(xi, yi, czi),
            k == mesh.skirt && w == mesh.dimensions.0 && h == mesh.dimensions.1,
            ew == mesh.ext_dim.0,
            n == spiral@.len(),
            i <= n,
            forall|j: int| 0 <= j < i && in_grid(mesh, xi + (#[trigger] spiral@[j]).0, yi + spiral@[j].1)
                ==> best <= offset_dist(mesh, czi, xi, yi, spiral@[j].0 as int, spiral@[j].1 as int),
            found ==> 0 <= wit < n && in_grid(mesh, xi + spiral@[wit].0, yi + spiral@[wit].1)
                && best == offset_dist(mesh, czi, xi, yi, spiral@[wit].0 as int, spiral@[wit].1 as int),
            !found ==> best == NO_DISTANCE,
        ensures
            forall|j: int| 0 <= j < n && in_grid(mesh, xi + (#[trigger] spiral@[j]).0, yi + spiral@[j].1)
                ==> best <= offset_dist(mesh, czi, xi, yi, spiral@[j].0 as int, spiral@[j].1 as int),
            found ==> 0 <= wit < n && in_grid(mesh, xi + spiral@[wit].0, yi + spiral@[wit].1)
                && best == offset_dist(mesh, czi, xi, yi, spiral@[wit].0 as int, spiral@[wit].1 as int),
            !found ==> best == NO_DISTANCE,
        decreases n - i,
    {
        let (dx, dy) = spiral[i];
        assert(in_square(rad, dx as int, dy as int));
        proof {
            assert(-1048576 <= dx <= 1048576 && -1048576 <= dy <= 1048576);
            assert(-1048576 * 510000 <= dx * 510000 <= 1048576 * 510000) by (nonlinear_arith)
                requires -1048576 <= dx <= 1048576;
            assert(-1048576 * 510000 <= dy * 510000 <= 1048576 * 510000) by (nonlinear_arith)
                requires -1048576 <= dy <= 1048576;
        }
        let ax: u128 = if dx < 0 { (0 - dx) as u128 } else { dx as u128 };
        let ay: u128 = if dy < 0 { (0 - dy) as u128 } else { dy as u128 };
        let hx = ax * 510000;
        let hy = ay * 510000;
        proof {
            vstd::arithmetic::mul::lemma_mul_upper_bound(hx as int, 534773760000, hx as int, 534773760000);
            vstd::arithmetic::mul::lemma_mul_upper_bound(hy as int, 534773760000, hy as int, 534773760000);
            assert(534773760000 * 534773760000 < 340282366920938463463374607431768211455);
            assert(hx * hx == (dx * dx) * (510000 * 510000)) by (nonlinear_arith)
                requires hx == ax * 510000, ax == dx || ax == -dx;
            assert(hy * hy == (dy * dy) * (510000 * 510000)) by (nonlinear_arith)
                requires hy == ay * 510000, ay == dy || ay == -dy;
        }
        let hx2 = hx * hx;
        let hy2 = hy * hy;
        if hx2 > best || hy2 > best {
            proof {
                assert forall|j: int| 0 <= j < n && in_grid(mesh, xi + (#[trigger] spiral@[j]).0, yi + spiral@[j].1)
                    implies best <= offset_dist(mesh, czi, xi, yi, spiral@[j].0 as int, spiral@[j].1 as int) by {
                    if j >= i {
                        let (ex, ey) = spiral@[j];
                        if j > i {
                            assert(norm(spiral@[i as int]) <= norm(spiral@[j]));
                        }
                        lemma_cell(mesh, czi, xi, yi, ex as int, ey as int);
                        assert((dx * dx) * (510000 * 510000) <= (ex * ex + ey * ey) * (510000 * 510000)
                            && (dy * dy) * (510000 * 510000) <= (ex * ex + ey * ey) * (510000 * 510000)) by (nonlinear_arith)
                            requires dx * dx + dy * dy <= ex * ex + ey * ey;
                    }
                }
            }
            break;
        }
        let mx = x as i64 + dx;
        let my = y as i64 + dy;
        if -k <= mx && mx < w + k && -k <= my && my < h + k {
            proof {
                lemma_cell(mesh, czi, xi, yi, dx as int, dy as int);
            }
            let index = ((my + k) as usize) * ew + ((mx + k) as usize);
            let d = mesh.verts[index].distance_sq_to(&capture);
            if d < best {
                best = d;
                proof {
                    found = true;
                    wit = i as int;
                }
            }
        }
        i = i + 1;
    }
    proof {
        assert(in_square(rad, 0, 0));
        let z = choose|j: int| 0 <= j < spiral@.len() && spiral@[j] == (0i64, 0i64);
        assert(in_grid(mesh, xi + spiral@[z].0, yi + spiral@[z].1));
        lemma_cell(mesh, czi, xi, yi, 0, 0);
        vstd::arithmetic::mul::lemma_mul_nonnegative(0, 0);
        let c = capture_point(xi, yi, czi);
        let v = mesh.verts@[cell_index(mesh, xi, yi)];
        crate::vec3::lemma_dist_sq_bound(v, c);
        assert(found);
        assert forall|dx: int, dy: int| #[trigger] candidate(mesh, xi, yi, dx, dy)
            implies best <= offset_dist(mesh, czi, xi, yi, dx, dy) by {
            let j = choose|j: int| 0 <= j < spiral@.len() && spiral@[j] == (dx as i64, dy as i64);
            assert(in_grid(mesh, xi + spiral@[j].0, yi + spiral@[j].1));
        }
        let (wx, wy) = spiral@[wit];
        assert(candidate(mesh, xi, yi, wx as int, wy as int));
    }
    best
}

/// Rows of pixels in one unit of work.
pub const BAND_ROWS: usize = 64;

/// What every search shares: the spiral of offsets and the capture height.
#[derive(Debug)]
pub struct DistanceSearch {
    pub spiral: Vec<(i64, i64)>,
    pub capture_z: i64,
}

impl DistanceSearch {
    /// Ready to search `mesh`: a spiral of the mesh's usable radius and a
    /// capture height within the supported range.
    pub open spec fn fits(&self, mesh: &Mesh) -> bool {
        &&& is_spiral(self.spiral@, mesh.usable_radius as int)
        &&& 0 <= self.capture_z <= Z_LIMIT
    }

    /// The spiral for the mesh's usable radius and the capture height of the settings.
    pub fn new(mesh: &Mesh, settings: &GenSettings, ext: &Extrema) -> (r: DistanceSearch)
        requires
            mesh.wf(),
            settings.wf(),
        ensures
            r.fits(mesh),
            r.capture_z == capture_height_of(*settings, *ext),
    {
        let spiral = generate_spiral(mesh.usable_radius);
        let capture_z = capture_height(settings, ext);
        DistanceSearch { spiral, capture_z }
    }
}

/// Height of the capture point: the height of the largest pixel value found,
/// or of the user's value, under the settings.
pub fn capture_height(settings: &GenSettings, ext: &Extrema) -> (r: i64)
    requires
        settings.wf(),
    ensures
        r == capture_height_of(*settings, *ext),
        0 <= r <= Z_LIMIT,
{
    let basis = match settings.height_setting {
        CaptureHeight::Generated => Extrema::get_capture_height(ext),
        CaptureHeight::UserDefined(val) => val,
    };
    Mesh::compute_height(basis, settings)
}

/// `recs` holds, in row-major order, the records of rows `y0 ..` of the
/// image, each with its nearest squared distance.
pub open spec fn rows_from(mesh: &Mesh, cz: int, recs: Seq<Dist>, y0: int) -> bool {
    let w = mesh.dimensions.0 as int;
    forall|i: int| 0 <= i < recs.len() ==> {
        let d = #[trigger] recs[i];
        &&& d.x == i % w
        &&& d.y == y0 + i / w
        &&& is_nearest(mesh, cz, d.x as int, d.y as int, d.dst_sq as int)
    }
}

/// `recs` is the distance field of the mesh: one record per pixel, in
/// row-major order, each with its nearest squared distance.
pub open spec fn is_distance_field(mesh: &Mesh, cz: int, recs: Seq<Dist>) -> bool {
    &&& recs.len() == mesh.dimensions.0 * mesh.dimensions.1
    &&& rows_from(mesh, cz, recs, 0)
}

/// Appending the records of row `y` to those of rows `y0 .. y` keeps them in row-major order.
proof fn lemma_append_row(mesh: &Mesh, cz: int, recs: Seq<Dist>, row: Seq<Dist>, y0: int, y: int)
    requires
        mesh.wf(),
        recs.len() == (y - y0) * mesh.dimensions.0,
        y0 <= y,
        rows_from(mesh, cz, recs, y0),
        row.len() == mesh.dimensions.0,
        forall|x: int| 0 <= x < row.len() ==> {
            let d = #[trigger] row[x];
            &&& d.x == x
            &&& d.y == y
            &&& is_nearest(mesh, cz, x, y, d.dst_sq as int)
        },
    ensures
        rows_from(mesh, cz, recs + row, y0),
        (recs + row).len() == (y + 1 - y0) * mesh.dimensions.0,
{
    let w = mesh.dimensions.0 as int;
    let all = recs + row;
    assert forall|i: int| 0 <= i < all.len() implies {
        let d = #[trigger] all[i];
        &&& d.x == i % w
        &&& d.y == y0 + i / w
        &&& is_nearest(mesh, cz, d.x as int, d.y as int, d.dst_sq as int)
    } by {
        if i < recs.len() {
            assert(all[i] == recs[i]);
        } else {
            let x = i - recs.len();
            assert(all[i] == row[x]);
            vstd::arithmetic::div_mod::lemma_fundamental_div_mod_converse(i, w, y - y0, x);
        }
    }
    vstd::arithmetic::mul::lemma_mul_is_distributive_add_other_way(w, y - y0, 1);
}

/// The records of row `y`, left to right.
pub fn row_distances(mesh: &Mesh, search: &DistanceSearch, y: usize) -> (r: Vec<Dist>)
    requires
        mesh.wf(),
        search.fits(mesh),
        y < mesh.dimensions.1,
    ensures
        r@.len() == mesh.dimensions.0,
        forall|x: int| 0 <= x < r@.len() ==> {
            let d = #[trigger] r@[x];
            &&& d.x == x
            &&& d.y == y
            &&& is_nearest(mesh, search.capture_z as int, x, y as int, d.dst_sq as int)
        },
{
    let w = mesh.dimensions.0;
    let mut out: Vec<Dist> = Vec::with_capacity(w);
    let mut x: usize = 0;
    while x < w
        invariant
            mesh.wf(),
            search.fits(mesh),
            y < mesh.dimensions.1,
            w == mesh.dimensions.0,
            x <= w,
            out@.len() == x,
            forall|i: int| 0 <= i < x ==> {
                let d = #[trigger] out@[i];
                &&& d.x == i
                &&& d.y == y
                &&& is_nearest(mesh, search.capture_z as int, i, y as int, d.dst_sq as int)
            },
        decreases w - x,
    {
        let dst_sq = pixel_distance(mesh, &search.spiral, search.capture_z, x, y);
        out.push(Dist { x, y, dst_sq });
        x = x + 1;
    }
    out
}

/// Number of bands of `BAND_ROWS` rows that cover `height` rows.
pub fn band_count(height: usize) -> (r: usize)
    ensures
        r == (height + BAND_ROWS - 1) / (BAND_ROWS as int),
{
    height / BAND_ROWS + if height % BAND_ROWS == 0 { 0 } else { 1 }
}

/// First row of band `band` and the row after its last: `BAND_ROWS` rows,
/// cut at the image's height.
pub open spec fn band_rows(band: int, height: int) -> (int, int) {
    let y0 = band * BAND_ROWS;
    let y1 = if y0 + BAND_ROWS < height { y0 + BAND_ROWS } else { height };
    (y0, y1)
}

/// Rows covered by the first `b` bands.
pub open spec fn rows_done(b: int, height: int) -> int {
    if b * BAND_ROWS < height { b * BAND_ROWS } else { height }
}

/// The records of band `band` (rows `band * BAND_ROWS ..`, at most
/// `BAND_ROWS` of them), in row-major order. Bands share nothing and may be
/// computed in any order.
pub fn band_distances(mesh: &Mesh, search: &DistanceSearch, band: usize) -> (r: Vec<Dist>)
    requires
        mesh.wf(),
        search.fits(mesh),
        band * BAND_ROWS < mesh.dimensions.1,
    ensures
        ({
            let (y0, y1) = band_rows(band as int, mesh.dimensions.1 as int);
            &&& r@.len() == (y1 - y0) * mesh.dimensions.0
            &&& rows_from(mesh, search.capture_z as int, r@, y0)
        }),
{
    let h = mesh.dimensions.1;
    let y0 = band * BAND_ROWS;
    let y1 = if y0 + BAND_ROWS < h { y0 + BAND_ROWS } else { h };
    let mut out: Vec<Dist> = Vec::new();
    let mut y = y0;
    while y < y1
        invariant
            mesh.wf(),
            search.fits(mesh),
            h == mesh.dimensions.1,
            y0 <= y <= y1 <= h,
            out@.len() == (y - y0) * mesh.dimensions.0,
            rows_from(mesh, search.capture_z as int, out@, y0 as int),
        decreases y1 - y,
    {
        let mut row = row_distances(mesh, search, y);
        proof {
            lemma_append_row(mesh, search.capture_z as int, out@, row@, y0 as int, y as int);
        }
        out.append(&mut row);
        y = y + 1;
    }
    out
}

/// The distance field of the mesh: for every pixel, in row-major order, the
/// squared distance from its capture point to the nearest candidate vertex.
pub fn generate_distances(mesh: &Mesh, settings: &GenSettings, ext: &Extrema) -> (r: Vec<Dist>)
    requires
        mesh.wf(),
        settings.wf(),
    ensures
        is_distance_field(mesh, capture_height_of(*settings, *ext), r@),
{
    let search = DistanceSearch::new(mesh, settings, ext);
    let h = mesh.dimensions.1;
    let bands = band_count(h);
    let mut out: Vec<Dist> = Vec::new();
    let mut b: usize = 0;
    proof {
        assert(rows_done(0, h as int) == 0);
        vstd::arithmetic::mul::lemma_mul_basics(mesh.dimensions.0 as int);
    }
    while b < bands
        invariant
            mesh.wf(),
            search.fits(mesh),
            h == mesh.dimensions.1,
            bands == (h + BAND_ROWS - 1) / (BAND_ROWS as int),
            b <= bands,
            out@.len() == rows_done(b as int, h as int) * mesh.dimensions.0,
            rows_from(mesh, search.capture_z as int, out@, 0),
        decreases bands - b,
    {
        proof {
            vstd::arithmetic::div_mod::lemma_fundamental_div_mod(h + BAND_ROWS - 1, BAND_ROWS as int);
        }
        let mut part = band_distances(mesh, &search, b);
        proof {
            let (y0, y1) = band_rows(b as int, h as int);
            assert(rows_done(b as int, h as int) == y0);
            let w = mesh.dimensions.0 as int;
            assert forall|i: int| 0 <= i < (out@ + part@).len() implies {
                let d = #[trigger] (out@ + part@)[i];
                &&& d.x == i % w
                &&& d.y == 0 + i / w
                &&& is_nearest(mesh, search.capture_z as int, d.x as int, d.y as int, d.dst_sq as int)
            } by {
                if i >= out@.len() {
                    let j = i - out@.len();
                    assert((out@ + part@)[i] == part@[j]);
                    vstd::arithmetic::div_mod::lemma_fundamental_div_mod(j, w);
                    vstd::arithmetic::div_mod::lemma_mod_pos_bound(j, w);
                    vstd::arithmetic::mul::lemma_mul_is_distributive_add_other_way(w, y0, j / w);
                    vstd::arithmetic::mul::lemma_mul_is_commutative(w, j / w);
                    vstd::arithmetic::div_mod::lemma_fundamental_div_mod_converse(i, w, y0 + j / w, j % w);
                } else {
                    assert((out@ + part@)[i] == out@[i]);
                }
            }
            vstd::arithmetic::mul::lemma_mul_is_distributive_add_other_way(mesh.dimensions.0 as int, y0, y1 - y0);
            assert(rows_done(b + 1, h as int) == y1);
        }
        out.append(&mut part);
        b = b + 1;
    }
    proof {
        assert(rows_done(b as int, h as int) == h) by {
            vstd::arithmetic::div_mod::lemma_fundamental_div_mod(h + BAND_ROWS - 1, BAND_ROWS as int);
        }
        vstd::arithmetic::mul::lemma_mul_is_commutative(h as int, mesh.dimensions.0 as int);
    }
    out
}

/// Bound on the squared distances that the encoder takes.
pub const DIST_LIMIT: u128 = 5070602400912917605986812821504;

/// The largest squared distance among the records; 0 when there are none.
pub open spec fn max_dst(recs: Seq<Dist>) -> int
    decreases recs.len(),
{
    if recs.len() == 0 {
        0
    } else {
        let rest = max_dst(recs.drop_last());
        let last = recs.last().dst_sq as int;
        if last > rest { last } else { rest }
    }
}

/// The largest `k <= top` with `(2k - 1)² * b <= 4 * 255² * a`, or 0.
pub open spec fn round_level(a: int, b: int, top: int) -> int
    decreases top,
{
    if top <= 0 {
        0
    } else if (2 * top - 1) * (2 * top - 1) * b <= 260100 * a {
        top
    } else {
        round_level(a, b, top - 1)
    }
}

/// `round(255 * d / max)` for the distance `d = sqrt(a)` and the largest
/// distance `max = sqrt(b)`: the largest `k` with `k - 1/2 <= 255 * d / max`.
/// It is 0 when the largest distance is 0.
pub open spec fn shade(a: int, b: int) -> int {
    if b == 0 { 0 } else { round_level(a, b, 255) }
}

/// Grey value of a pixel whose squared distance is `a` when the largest is
/// `b`: 255 for the closest points, 0 for the farthest.
pub open spec fn grey(a: int, b: int) -> int {
    255 - shade(a, b)
}

proof fn lemma_round_level_range(a: int, b: int, top: int)
    ensures
        0 <= round_level(a, b, top) <= if top < 0 { 0 } else { top },
    decreases top,
{
    if top > 0 {
        lemma_round_level_range(a, b, top - 1);
    }
}

/// Largest squared distance of the records.
fn max_distance(recs: &Vec<Dist>) -> (r: u128)
    ensures
        r == max_dst(recs@),
{
    let mut m: u128 = 0;
    let mut i: usize = 0;
    while i < recs.len()
        invariant
            i <= recs@.len(),
            m == max_dst(recs@.subrange(0, i as int)),
        decreases recs@.len() - i,
    {
        proof {
            let next = recs@.subrange(0, i + 1);
            assert(next.drop_last() == recs@.subrange(0, i as int));
            assert(next.last() == recs@[i as int]);
        }
        if recs[i].dst_sq > m {
            m = recs[i].dst_sq;
        }
        i = i + 1;
    }
    assert(recs@.subrange(0, recs@.len() as int) == recs@);
    m
}

/// Grey value of a record with squared distance `a` when the largest is `b`.
fn grey_value(a: u128, b: u128) -> (r: u8)
    requires
        a <= DIST_LIMIT,
        b <= DIST_LIMIT,
    ensures
        r == grey(a as int, b as int),
{
    if b == 0 {
        return 255;
    }
    let mut k: u128 = 255;
    proof {
        assert(260100 * a <= 260100 * DIST_LIMIT);
    }
    while k > 0
        invariant
            k <= 255,
            0 < b <= DIST_LIMIT,
            a <= DIST_LIMIT,
            round_level(a as int, b as int, 255) == round_level(a as int, b as int, k as int),
        ensures
            k <= 255,
            round_level(a as int, b as int, 255) == round_level(a as int, b as int, k as int),
            k == 0 || (2 * k - 1) * (2 * k - 1) * b <= 260100 * a,
        decreases k,
    {
        let t = 2 * k - 1;
        proof {
            assert(t * t <= 509 * 509) by (nonlinear_arith)
                requires 0 <= t <= 509;
            assert(t * t * b <= 509 * 509 * DIST_LIMIT) by (nonlinear_arith)
                requires t * t <= 509 * 509, 0 <= b <= DIST_LIMIT;
        }
        if t * t * b <= 260100 * a {
            break;
        }
        k = k - 1;
    }
    proof {
        lemma_round_level_range(a as int, b as int, k as int);
        assert(round_level(a as int, b as int, k as int) == k);
    }
    (255 - k) as u8
}

/// The grey image of the records of a `dim.0` by `dim.1` field, in raster
/// order: raster row `r` shows mesh row `dim.1 - 1 - r`, and each pixel is
/// `255 - round(255 * d / max_d)`, all 255 when the largest distance is 0.
pub fn generate_image(dim: (usize, usize), distances: &Vec<Dist>) -> (r: Vec<u8>)
    requires
        distances@.len() == dim.0 * dim.1,
        forall|i: int| 0 <= i < distances@.len() ==> (#[trigger] distances@[i]).dst_sq <= DIST_LIMIT,
    ensures
        r@.len() == dim.0 * dim.1,
        forall|row: int, col: int| 0 <= row < dim.1 && 0 <= col < dim.0 ==> #[trigger] r@[row * dim.0 + col]
            == grey(distances@[(dim.1 - 1 - row) * dim.0 + col].dst_sq as int, max_dst(distances@)),
{
    let (w, h) = dim;
    let n = distances.len();
    if w == 0 {
        proof {
            vstd::arithmetic::mul::lemma_mul_basics(h as int);
        }
        return Vec::new();
    }
    let m = max_distance(distances);
    proof {
        lemma_max_dst_bound(distances@);
    }
    let mut out: Vec<u8> = Vec::with_capacity(distances.len());
    let mut row: usize = 0;
    while row < h
        invariant
            distances@.len() == w * h,
            n == distances@.len(),
            (w, h) == dim,
            w > 0,
            forall|i: int| 0 <= i < distances@.len() ==> (#[trigger] distances@[i]).dst_sq <= DIST_LIMIT,
            m == max_dst(distances@),
            m <= DIST_LIMIT,
            row <= h,
            out@.len() == row * w,
            forall|rr: int, cc: int| 0 <= rr < row && 0 <= cc < w ==> #[trigger] out@[rr * w + cc]
                == grey(distances@[(h - 1 - rr) * w + cc].dst_sq as int, m as int),
        decreases h - row,
    {
        proof {
            crate::raster::lemma_grid_index(0, (h - 1 - row) as int, w as int, h as int);
        }
        let src = (h - 1 - row) * w;
        let mut col: usize = 0;
        while col < w
            invariant
                distances@.len() == w * h,
                n == distances@.len(),
                (w, h) == dim,
                w > 0,
                forall|i: int| 0 <= i < distances@.len() ==> (#[trigger] distances@[i]).dst_sq <= DIST_LIMIT,
                m == max_dst(distances@),
                m <= DIST_LIMIT,
                row < h,
                src == (h - 1 - row) * w,
                col <= w,
                out@.len() == row * w + col,
                forall|rr: int, cc: int| 0 <= rr < row && 0 <= cc < w ==> #[trigger] out@[rr * w + cc]
                    == grey(distances@[(h - 1 - rr) * w + cc].dst_sq as int, m as int),
                forall|cc: int| 0 <= cc < col ==> #[trigger] out@[row * w + cc]
                    == grey(distances@[src + cc].dst_sq as int, m as int),
            decreases w - col,
        {
            proof {
                crate::raster::lemma_grid_index(col as int, (h - 1 - row) as int, w as int, h as int);
            }
            let g = grey_value(distances[src + col].dst_sq, m);
            let ghost before = out@;
            out.push(g);
            proof {
                assert forall|rr: int, cc: int| 0 <= rr < row && 0 <= cc < w implies #[trigger] out@[rr * w + cc]
                    == grey(distances@[(h - 1 - rr) * w + cc].dst_sq as int, m as int) by {
                    crate::raster::lemma_grid_index(cc, rr, w as int, row as int);
                    vstd::arithmetic::mul::lemma_mul_is_commutative(w as int, row as int);
                    assert(out@[rr * w + cc] == before[rr * w + cc]);
                }
                assert forall|cc: int| 0 <= cc < col + 1 implies #[trigger] out@[row * w + cc]
                    == grey(distances@[src + cc].dst_sq as int, m as int) by {
                    if cc < col {
                        assert(out@[row * w + cc] == before[row * w + cc]);
                    }
                }
            }
            col = col + 1;
        }
        proof {
            assert forall|rr: int, cc: int| 0 <= rr < row + 1 && 0 <= cc < w implies #[trigger] out@[rr * w + cc]
                == grey(distances@[(h - 1 - rr) * w + cc].dst_sq as int, m as int) by {
                if rr == row {
                    assert(out@[row * w + cc] == grey(distances@[src + cc].dst_sq as int, m as int));
                }
            }
            vstd::arithmetic::mul::lemma_mul_is_distributive_add_other_way(w as int, row as int, 1);
        }
        row = row + 1;
    }
    proof {
        vstd::arithmetic::mul::lemma_mul_is_commutative(w as int, h as int);
    }
    out
}

/// The largest of bounded squared distances is bounded too.
proof fn lemma_max_dst_bound(recs: Seq<Dist>)
    requires
        forall|i: int| 0 <= i < recs.len() ==> (#[trigger] recs[i]).dst_sq <= DIST_LIMIT,
    ensures
        0 <= max_dst(recs) <= DIST_LIMIT,
    decreases recs.len(),
{
    if recs.len() > 0 {
        let rest = recs.drop_last();
        assert forall|i: int| 0 <= i < rest.len() implies (#[trigger] rest[i]).dst_sq <= DIST_LIMIT by {
            assert(rest[i] == recs[i]);
        }
        lemma_max_dst_bound(rest);
    }
}

/// Offset number `k` of the square `[-r, r]²`, counted row by row.
pub open spec fn square_offset(r: int, k: int) -> (int, int) {
    (k % (2 * r + 1) - r, k / (2 * r + 1) - r)
}

/// The smallest squared distance among the candidates of the first `n`
/// offsets of the square, scanned in order without stopping early;
/// `NO_DISTANCE` when there is none.
pub open spec fn scan_min(mesh: &Mesh, cz: int, x: int, y: int, n: nat) -> int
    decreases n,
{
    if n == 0 {
        NO_DISTANCE as int
    } else {
        let prev = scan_min(mesh, cz, x, y, (n - 1) as nat);
        let (dx, dy) = square_offset(mesh.usable_radius as int, n - 1);
        if in_grid(mesh, x + dx, y + dy) && offset_dist(mesh, cz, x, y, dx, dy) < prev {
            offset_dist(mesh, cz, x, y, dx, dy)
        } else {
            prev
        }
    }
}

/// The nearest squared distance found by scanning every offset of the
/// search square.
pub open spec fn brute_force_nearest(mesh: &Mesh, cz: int, x: int, y: int) -> int {
    let side = 2 * mesh.usable_radius + 1;
    scan_min(mesh, cz, x, y, (side * side) as nat)
}

proof fn lemma_scan(mesh: &Mesh, cz: int, x: int, y: int, n: nat)
    ensures
        scan_min(mesh, cz, x, y, n) <= NO_DISTANCE,
        forall|k: int| 0 <= k < n && in_grid(mesh, x + (#[trigger] square_offset(mesh.usable_radius as int, k)).0, y
            + square_offset(mesh.usable_radius as int, k).1) ==> scan_min(mesh, cz, x, y, n) <= offset_dist(
            mesh, cz, x, y, square_offset(mesh.usable_radius as int, k).0, square_offset(mesh.usable_radius as int, k).1),
        scan_min(mesh, cz, x, y, n) == NO_DISTANCE || exists|k: int| 0 <= k < n && in_grid(mesh, x
            + (#[trigger] square_offset(mesh.usable_radius as int, k)).0, y + square_offset(mesh.usable_radius as int, k).1)
            && scan_min(mesh, cz, x, y, n) == offset_dist(mesh, cz, x, y, square_offset(mesh.usable_radius as int, k).0,
            square_offset(mesh.usable_radius as int, k).1),
    decreases n,
{
    if n > 0 {
        lemma_scan(mesh, cz, x, y, (n - 1) as nat);
        let r = mesh.usable_radius as int;
        let prev = scan_min(mesh, cz, x, y, (n - 1) as nat);
        let cur = scan_min(mesh, cz, x, y, n);
        assert forall|k: int| 0 <= k < n && in_grid(mesh, x + (#[trigger] square_offset(r, k)).0, y + square_offset(r, k).1)
            implies cur <= offset_dist(mesh, cz, x, y, square_offset(r, k).0, square_offset(r, k).1) by {
            if k < n - 1 {
                assert(prev <= offset_dist(mesh, cz, x, y, square_offset(r, k).0, square_offset(r, k).1));
            }
        }
        if cur != prev {
            assert(in_grid(mesh, x + square_offset(r, n - 1).0, y + square_offset(r, n - 1).1));
        } else if prev != NO_DISTANCE {
            let k = choose|k: int| 0 <= k < n - 1 && in_grid(mesh, x + (#[trigger] square_offset(r, k)).0, y
                + square_offset(r, k).1) && prev == offset_dist(mesh, cz, x, y, square_offset(r, k).0, square_offset(r, k).1);
            assert(0 <= k < n);
        }
    }
}

/// The search that walks the spiral and stops early finds what a scan of the
/// whole search square finds: any nearest value of a pixel (such as
/// `pixel_distance` returns) equals the brute-force minimum.
pub proof fn lemma_early_exit_matches_scan(mesh: &Mesh, cz: int, x: int, y: int, v: int)
    requires
        mesh.wf(),
        0 <= x < mesh.dimensions.0,
        0 <= y < mesh.dimensions.1,
        0 <= cz <= Z_LIMIT,
        is_nearest(mesh, cz, x, y, v),
    ensures
        v == brute_force_nearest(mesh, cz, x, y),
{
    let r = mesh.usable_radius as int;
    let side = 2 * r + 1;
    let n = (side * side) as nat;
    lemma_scan(mesh, cz, x, y, n);
    let b = scan_min(mesh, cz, x, y, n);
    let (dx, dy) = choose|dx: int, dy: int| #[trigger] candidate(mesh, x, y, dx, dy) && v == offset_dist(mesh, cz, x, y, dx, dy);
    let k = (dy + r) * side + (dx + r);
    crate::raster::lemma_grid_index(dx + r, dy + r, side, side);
    vstd::arithmetic::div_mod::lemma_fundamental_div_mod_converse(k, side, dy + r, dx + r);
    assert(square_offset(r, k) == (dx, dy));
    lemma_cell(mesh, cz, x, y, dx, dy);
    crate::vec3::lemma_dist_sq_bound(mesh.verts@[cell_index(mesh, x + dx, y + dy)], capture_point(x, y, cz));
    assert(b <= v);
    assert(b != NO_DISTANCE);
    let j = choose|j: int| 0 <= j < n && in_grid(mesh, x + (#[trigger] square_offset(r, j)).0, y + square_offset(r, j).1)
        && b == offset_dist(mesh, cz, x, y, square_offset(r, j).0, square_offset(r, j).1);
    let (ex, ey) = square_offset(r, j);
    vstd::arithmetic::div_mod::lemma_mod_pos_bound(j, side);
    vstd::arithmetic::div_mod::lemma_div_pos_is_pos(j, side);
    vstd::arithmetic::div_mod::lemma_fundamental_div_mod(j, side);
    if j / side >= side {
        assert(side * (j / side) >= side * side) by (nonlinear_arith)
            requires j / side >= side, side >= 0;
    }
    assert(candidate(mesh, x, y, ex, ey));
}

/// On an image whose pixels all hold the value `v`, every record of the
/// distance field is the squared vertical distance from the capture height to
/// the height of `v`.
pub proof fn lemma_flat_field(img: &HeightImage, s: GenSettings, mesh: &Mesh, cz: int, recs: Seq<Dist>, v: u8)
    requires
        img.wf(),
        s.wf(),
        mesh.built_from(img, s),
        forall|i: int| 0 <= i < img.pixels@.len() ==> #[trigger] img.pixels@[i] == v,
        0 <= cz <= Z_LIMIT,
        is_distance_field(mesh, cz, recs),
    ensures
        forall|i: int| 0 <= i < recs.len() ==> (#[trigger] recs[i]).dst_sq == (cz - s.height_of(v as int)) * (cz
            - s.height_of(v as int)),
{
    let w = mesh.dimensions.0 as int;
    let h = mesh.dimensions.1 as int;
    let dz = s.height_of(v as int) - cz;
    assert forall|i: int| 0 <= i < recs.len() implies (#[trigger] recs[i]).dst_sq == (cz - s.height_of(v as int)) * (cz
        - s.height_of(v as int)) by {
        let d = recs[i];
        let x = d.x as int;
        let y = d.y as int;
        vstd::arithmetic::div_mod::lemma_mod_pos_bound(i, w);
        vstd::arithmetic::div_mod::lemma_div_pos_is_pos(i, w);
        vstd::arithmetic::div_mod::lemma_fundamental_div_mod(i, w);
        if y >= h {
            assert(w * y >= w * h) by (nonlinear_arith)
                requires y >= h, w >= 0;
            vstd::arithmetic::mul::lemma_mul_is_commutative(w, h);
        }
        assert(is_nearest(mesh, cz, x, y, d.dst_sq as int));
        assert(candidate(mesh, x, y, 0, 0));
        lemma_flat_offset(img, s, mesh, cz, x, y, 0, 0, v);
        assert(d.dst_sq <= dz * dz);
        let (ex, ey) = choose|dx: int, dy: int| #[trigger] candidate(mesh, x, y, dx, dy) && d.dst_sq == offset_dist(mesh, cz, x, y, dx, dy);
        lemma_flat_offset(img, s, mesh, cz, x, y, ex, ey, v);
        assert(dz * dz == (cz - s.height_of(v as int)) * (cz - s.height_of(v as int))) by (nonlinear_arith)
            requires dz == s.height_of(v as int) - cz;
    }
}

/// On an image of one value `v`, the squared distance to a grid vertex is its
/// squared horizontal offset plus the squared vertical distance to the height of `v`.
proof fn lemma_flat_offset(img: &HeightImage, s: GenSettings, mesh: &Mesh, cz: int, x: int, y: int, dx: int, dy: int, v: u8)
    requires
        img.wf(),
        s.wf(),
        mesh.built_from(img, s),
        forall|i: int| 0 <= i < img.pixels@.len() ==> #[trigger] img.pixels@[i] == v,
        0 <= x < mesh.dimensions.0,
        0 <= y < mesh.dimensions.1,
        0 <= cz <= Z_LIMIT,
        in_grid(mesh, x + dx, y + dy),
    ensures
        offset_dist(mesh, cz, x, y, dx, dy) >= (s.height_of(v as int) - cz) * (s.height_of(v as int) - cz),
        dx == 0 && dy == 0 ==> offset_dist(mesh, cz, x, y, dx, dy) == (s.height_of(v as int) - cz) * (s.height_of(v as int) - cz),
{
    let ew = mesh.ext_dim.0 as int;
    let k = mesh.skirt as int;
    let i = cell_index(mesh, x + dx, y + dy);
    lemma_cell(mesh, cz, x, y, dx, dy);
    crate::raster::lemma_grid_index(x + dx + k, y + dy + k, ew, mesh.ext_dim.1 as int);
    vstd::arithmetic::div_mod::lemma_fundamental_div_mod_converse(i, ew, y + dy + k, x + dx + k);
    let vert = mesh.verts@[i];
    assert(vert == vertex_for(img, s, x + dx, y + dy));
    let w = img.width as int;
    let h = img.height as int;
    let (sx, sy) = crate::mesh::source_cell(s.repeat, x + dx, y + dy, w, h);
    assert(0 <= sx < w && 0 <= sy < h) by {
        vstd::arithmetic::div_mod::lemma_mod_bound(x + dx, w);
        vstd::arithmetic::div_mod::lemma_mod_bound(y + dy, h);
    }
    crate::raster::lemma_grid_index(sx, h - 1 - sy, w, h);
    assert(crate::mesh::cell_sample(img, s.repeat, x + dx, y + dy) == v);
    let c = capture_point(x, y, cz);
    let ddx = vert.x - c.x;
    let ddy = vert.y - c.y;
    let ddz = vert.z - c.z;
    crate::mesh::lemma_height_bound(s, v as int);
    assert(ddz == s.height_of(v as int) - cz);
    assert(ddx * ddx + ddy * ddy + ddz * ddz >= ddz * ddz) by (nonlinear_arith);
    if dx == 0 && dy == 0 {
        assert(ddx == 0 && ddy == 0);
    }
}

/// Terrain and capture heights share one unit conversion: the capture height
/// is the height of its basis value, and a full pixel (255) stands exactly
/// `radius * mult` cells tall, so with a multiplier of 1 it stands `radius` cells.
pub proof fn lemma_height_units(s: GenSettings, ext: Extrema)
    ensures
        capture_height_of(s, ext) == s.height_of(capture_basis(s, ext)),
        s.height_of(255) * 1000 == s.radius * s.img_height_mult_milli * UNITS_PER_CELL,
        s.img_height_mult_milli == 1000 ==> s.height_of(255) == s.radius * UNITS_PER_CELL,
{
    let r = s.radius as int;
    let m = s.img_height_mult_milli as int;
    assert(2 * 255 * r * m * 1000 == r * m * 510000) by (nonlinear_arith);
    assert(m == 1000 ==> 2 * 255 * r * m == r * 510000) by (nonlinear_arith);
}

/// Every record of a distance field lies within the bound the encoder takes.
pub proof fn lemma_field_within_limit(mesh: &Mesh, cz: int, recs: Seq<Dist>)
    requires
        mesh.wf(),
        0 <= cz <= Z_LIMIT,
        is_distance_field(mesh, cz, recs),
    ensures
        forall|i: int| 0 <= i < recs.len() ==> (#[trigger] recs[i]).dst_sq <= DIST_LIMIT,
{
    let w = mesh.dimensions.0 as int;
    let h = mesh.dimensions.1 as int;
    assert forall|i: int| 0 <= i < recs.len() implies (#[trigger] recs[i]).dst_sq <= DIST_LIMIT by {
        let d = recs[i];
        vstd::arithmetic::div_mod::lemma_mod_pos_bound(i, w);
        vstd::arithmetic::div_mod::lemma_div_pos_is_pos(i, w);
        vstd::arithmetic::div_mod::lemma_fundamental_div_mod(i, w);
        if d.y >= h {
            assert(w * (d.y as int) >= w * h) by (nonlinear_arith)
                requires d.y >= h, w >= 0;
            vstd::arithmetic::mul::lemma_mul_is_commutative(w, h);
        }
        assert(is_nearest(mesh, cz, d.x as int, d.y as int, d.dst_sq as int));
        let (ex, ey) = choose|dx: int, dy: int| #[trigger] candidate(mesh, d.x as int, d.y as int, dx, dy)
            && d.dst_sq == offset_dist(mesh, cz, d.x as int, d.y as int, dx, dy);
        lemma_cell(mesh, cz, d.x as int, d.y as int, ex, ey);
    }
}

} // verus!
