use vstd::prelude::*;

use crate::extrema::{bounds_border, Extrema};
use crate::face::{normal_of, Face};
use crate::raster::{supported_size, HeightImage, MAX_DIM};
use crate::settings::{CaptureHeight, GenSettings, ImgRepeat, HALF_CELL};
use crate::vec3::Vec3;

verus! {

/// Largest vertex height, in length units, that valid settings produce.
pub const Z_LIMIT: i128 = 1125899906842624;

/// A regular grid of vertices over the image, extended by a skirt of `skirt`
/// cells on every side. Mesh cell `(mx, my)` (mesh rows grow upward) has its
/// vertex at flat index `(my + skirt) * ext_dim.0 + (mx + skirt)`.
#[derive(Debug)]
pub struct Mesh {
    pub dimensions: (usize, usize),
    pub ext_dim: (usize, usize),
    pub usable_radius: usize,
    pub skirt: usize,
    pub verts: Vec<Vec3>,
}

impl Clone for Mesh {
    fn clone(&self) -> (r: Mesh)
        ensures
            r.dimensions == self.dimensions,
            r.ext_dim == self.ext_dim,
            r.usable_radius == self.usable_radius,
            r.skirt == self.skirt,
            r.verts@ == self.verts@,
    {
        let mut verts: Vec<Vec3> = Vec::with_capacity(self.verts.len());
        let mut i: usize = 0;
        while i < self.verts.len()
            invariant
                i <= self.verts@.len(),
                verts@ == self.verts@.subrange(0, i as int),
            decreases self.verts@.len() - i,
        {
            verts.push(self.verts[i]);
            i = i + 1;
        }
        assert(self.verts@.subrange(0, self.verts@.len() as int) == self.verts@);
        Mesh {
            dimensions: self.dimensions,
            ext_dim: self.ext_dim,
            usable_radius: self.usable_radius,
            skirt: self.skirt,
            verts,
        }
    }
}

/// `v` clamped into `[lo, hi]`.
pub open spec fn clamp(v: int, lo: int, hi: int) -> int {
    if v > hi {
        if hi < lo { lo } else { hi }
    } else if v < lo {
        lo
    } else {
        v
    }
}

/// The in-image cell, in mesh coordinates, whose value mesh cell `(mx, my)`
/// carries under the boundary policy.
pub open spec fn source_cell(repeat: ImgRepeat, mx: int, my: int, w: int, h: int) -> (int, int) {
    match repeat {
        ImgRepeat::Repeat => (mx % w, my % h),
        ImgRepeat::Clamp => (clamp(mx, 0, w - 1), clamp(my, 0, h - 1)),
    }
}

/// The sample mesh cell `(mx, my)` carries; mesh row `sy` is raster row `h - 1 - sy`.
pub open spec fn cell_sample(img: &HeightImage, repeat: ImgRepeat, mx: int, my: int) -> u8 {
    let (sx, sy) = source_cell(repeat, mx, my, img.width as int, img.height as int);
    img.sample(sx, img.height - 1 - sy)
}

/// Centre of cell `m` along one axis, in length units.
pub open spec fn cell_center(m: int) -> int {
    (2 * m + 1) * HALF_CELL
}

/// The vertex of mesh cell `(mx, my)`.
pub open spec fn vertex_for(img: &HeightImage, s: GenSettings, mx: int, my: int) -> Vec3 {
    Vec3 {
        x: cell_center(mx) as i128,
        y: cell_center(my) as i128,
        z: s.height_of(cell_sample(img, s.repeat, mx, my) as int) as i128,
    }
}

/// The extrema of the image's outermost ring (unique, see `lemma_border_extrema_unique`).
pub open spec fn border_extrema(img: &HeightImage) -> Extrema {
    choose|e: Extrema| bounds_border(e, img)
}

/// The pixel value the capture height is derived from.
pub open spec fn capture_basis(s: GenSettings, e: Extrema) -> int {
    match s.height_setting {
        CaptureHeight::Generated => e.max as int,
        CaptureHeight::UserDefined(v) => v as int,
    }
}

/// `min(radius, floor(radius * (basis - min) / 255 * mult))`, with a negative
/// difference counted as zero.
pub open spec fn max_radius(s: GenSettings, e: Extrema) -> int {
    let basis = capture_basis(s, e);
    let diff = if basis > e.min { basis - e.min } else { 0 };
    let scaled = s.radius * diff * s.img_height_mult_milli / 255000;
    if scaled < s.radius { scaled } else { s.radius as int }
}

/// The search radius used for an image: the maximal radius, clamped to the image's sides.
pub open spec fn usable_radius_for(img: &HeightImage, s: GenSettings) -> int {
    let m = max_radius(s, border_extrema(img));
    let side = if img.width < img.height { img.width as int } else { img.height as int };
    if m < side { m } else { side }
}

/// Width of the skirt: the usable radius (at least one cell) when repeating,
/// one cell when clamping.
pub open spec fn skirt_for(repeat: ImgRepeat, usable: int) -> int {
    match repeat {
        ImgRepeat::Repeat => if usable == 0 { 1 } else { usable },
        ImgRepeat::Clamp => 1,
    }
}

impl Mesh {
    /// The grid's shape and the vertices' horizontal positions agree with the layout.
    pub open spec fn wf(&self) -> bool {
        let (w, h) = self.dimensions;
        let (ew, eh) = self.ext_dim;
        &&& supported_size(w as int, h as int)
        &&& 1 <= w && 1 <= h
        &&& 1 <= self.skirt <= MAX_DIM
        &&& self.usable_radius <= MAX_DIM
        &&& ew == w + 2 * self.skirt
        &&& eh == h + 2 * self.skirt
        &&& ew * eh <= usize::MAX
        &&& self.verts@.len() == ew * eh
        &&& forall|i: int| 0 <= i < self.verts@.len() ==> {
            let v = #[trigger] self.verts@[i];
            &&& v.x == cell_center(i % (ew as int) - self.skirt)
            &&& v.y == cell_center(i / (ew as int) - self.skirt)
            &&& 0 <= v.z <= Z_LIMIT
        }
    }

    /// The mesh is the one that `generate` builds from `img` under `s`.
    pub open spec fn built_from(&self, img: &HeightImage, s: GenSettings) -> bool {
        let ew = self.ext_dim.0 as int;
        &&& self.wf()
        &&& self.dimensions == (img.width, img.height)
        &&& self.usable_radius == usable_radius_for(img, s)
        &&& self.skirt == skirt_for(s.repeat, self.usable_radius as int)
        &&& forall|i: int| 0 <= i < self.verts@.len() ==> #[trigger] self.verts@[i] == vertex_for(
            img, s, i % ew - self.skirt, i / ew - self.skirt)
    }

    /// Height of a pixel value in length units: `pix / 255 * radius * mult`.
    pub fn compute_height(pix: u8, settings: &GenSettings) -> (r: i64)
        requires
            settings.wf(),
        ensures
            r == settings.height_of(pix as int),
            0 <= r <= Z_LIMIT,
    {
        let p = pix as u64;
        let radius = settings.radius as u64;
        let mult = settings.img_height_mult_milli as u64;
        proof {
            assert(p * radius <= 255 * 1048576) by (nonlinear_arith)
                requires p <= 255, radius <= 1048576;
            assert(p * radius * mult <= 255 * 1048576 * 1048576) by (nonlinear_arith)
                requires p * radius <= 255 * 1048576, mult <= 1048576;
            assert(2 * p * radius * mult == 2 * (p * radius * mult)) by (nonlinear_arith);
        }
        (2 * (p * radius * mult)) as i64
    }

    /// Builds the vertex grid of the image under the settings; `None` for an
    /// image without pixels.
    pub fn generate(img: &HeightImage, settings: &GenSettings) -> (r: Option<Mesh>)
        requires
            img.wf(),
            settings.wf(),
        ensures
            r is None <==> (img.width == 0 || img.height == 0),
            r matches Some(m) ==> m.built_from(img, *settings),
    {
        let border = match Extrema::get_border_extrema(img) {
            Some(e) => e,
            None => { return None; },
        };
        proof {
            lemma_border_extrema_unique(img, border);
        }
        let w = img.width;
        let h = img.height;
        let usable = usable_radius(settings, &border, w, h);
        let skirt: usize = match settings.repeat {
            ImgRepeat::Repeat => if usable == 0 { 1 } else { usable },
            ImgRepeat::Clamp => 1,
        };
        let ew = w + 2 * skirt;
        let eh = h + 2 * skirt;
        proof {
            assert(ew * eh <= 9 * (w * h)) by (nonlinear_arith)
                requires 1 <= w, 1 <= h, ew == w + 2 * skirt, eh == h + 2 * skirt, 1 <= skirt,
                    skirt <= w || skirt == 1, skirt <= h || skirt == 1;
        }
        let total = ew * eh;
        let mut verts: Vec<Vec3> = Vec::with_capacity(total);
        let mut i: usize = 0;
        let mut gx: usize = 0;
        let mut gy: usize = 0;
        while i < total
            invariant
                img.wf(),
                settings.wf(),
                w == img.width && h == img.height,
                1 <= w && 1 <= h,
                supported_size(w as int, h as int),
                1 <= skirt <= w || skirt == 1,
                skirt <= h || skirt == 1,
                ew == w + 2 * skirt,
                eh == h + 2 * skirt,
                total == ew * eh,
                i <= total,
                gx < ew,
                i == gy * ew + gx,
                verts@.len() == i,
                forall|j: int| 0 <= j < i ==> #[trigger] verts@[j] == vertex_for(img, *settings, j
                    % (ew as int) - skirt, j / (ew as int) - skirt),
            decreases total - i,
        {
            proof {
                vstd::arithmetic::div_mod::lemma_fundamental_div_mod_converse(i as int, ew as int, gy as int, gx as int);
                if gy >= eh {
                    assert(gy * ew >= eh * ew) by (nonlinear_arith)
                        requires gy >= eh, ew >= 0;
                    vstd::arithmetic::mul::lemma_mul_is_commutative(eh as int, ew as int);
                }
            }
            let mx = gx as i64 - skirt as i64;
            let my = gy as i64 - skirt as i64;
            let (sx, sy) = match settings.repeat {
                ImgRepeat::Repeat => Mesh::mesh_to_image_coords_repeat((mx, my), (w, h)),
                ImgRepeat::Clamp => Mesh::mesh_to_image_coords_clamped((mx, my), (w, h)),
            };
            let pix = img.value_at(sx, h - 1 - sy);
            let z = Mesh::compute_height(pix, settings);
            proof {
                assert(-4194304 * 255000 <= (2 * mx + 1) * 255000 <= 4194304 * 255000) by (nonlinear_arith)
                    requires -4194304 <= 2 * mx + 1 <= 4194304;
                assert(-4194304 * 255000 <= (2 * my + 1) * 255000 <= 4194304 * 255000) by (nonlinear_arith)
                    requires -4194304 <= 2 * my + 1 <= 4194304;
            }
            let v = Vec3::new((((2 * mx + 1) as i128) * (HALF_CELL as i128), ((2 * my + 1) as i128) * (HALF_CELL as i128), z as i128));
            verts.push(v);
            proof {
                assert(v == vertex_for(img, *settings, (i as int) % (ew as int) - skirt, (i as int) / (ew as int) - skirt));
            }
            i = i + 1;
            if gx + 1 == ew {
                gx = 0;
                gy = gy + 1;
                proof {
                    vstd::arithmetic::mul::lemma_mul_is_distributive_add_other_way(ew as int, gy - 1, 1);
                }
            } else {
                gx = gx + 1;
            }
        }
        let mesh = Mesh { dimensions: (w, h), ext_dim: (ew, eh), usable_radius: usable, skirt, verts };
        proof {
            assert forall|j: int| 0 <= j < mesh.verts@.len() implies {
                let v = #[trigger] mesh.verts@[j];
                &&& v.x == cell_center(j % (ew as int) - skirt)
                &&& v.y == cell_center(j / (ew as int) - skirt)
                &&& 0 <= v.z <= Z_LIMIT
            } by {
                let mx = j % (ew as int) - skirt;
                let my = j / (ew as int) - skirt;
                vstd::arithmetic::div_mod::lemma_div_pos_is_pos(j, ew as int);
                vstd::arithmetic::div_mod::lemma_mod_pos_bound(j, ew as int);
                vstd::arithmetic::div_mod::lemma_div_by_multiple_is_strongly_ordered(j, total as int, eh as int, ew as int);
                let pix = cell_sample(img, settings.repeat, mx, my) as int;
                assert(0 <= settings.height_of(pix) <= Z_LIMIT) by {
                    lemma_height_bound(*settings, pix);
                }
            }
        }
        Some(mesh)
    }

    /// The in-image cell, in mesh coordinates, that periodic repetition maps
    /// `coords` to: both components taken modulo the image's sides.
    pub fn mesh_to_image_coords_repeat(coords: (i64, i64), dim: (usize, usize)) -> (r: (usize, usize))
        requires
            1 <= dim.0 <= MAX_DIM,
            1 <= dim.1 <= MAX_DIM,
        ensures
            r.0 == (coords.0 as int) % (dim.0 as int),
            r.1 == (coords.1 as int) % (dim.1 as int),
            r.0 < dim.0 && r.1 < dim.1,
    {
        (wrap(coords.0, dim.0), wrap(coords.1, dim.1))
    }

    /// The in-image cell, in mesh coordinates, that edge replication maps
    /// `coords` to: both components clamped into the image.
    pub fn mesh_to_image_coords_clamped(coords: (i64, i64), dim: (usize, usize)) -> (r: (usize, usize))
        requires
            1 <= dim.0 <= MAX_DIM,
            1 <= dim.1 <= MAX_DIM,
        ensures
            r.0 == clamp(coords.0 as int, 0, dim.0 - 1),
            r.1 == clamp(coords.1 as int, 0, dim.1 - 1),
            r.0 < dim.0 && r.1 < dim.1,
    {
        let x = clamp_to_range(coords.0, 0, (dim.0 - 1) as i64);
        let y = clamp_to_range(coords.1, 0, (dim.1 - 1) as i64);
        (x as usize, y as usize)
    }
}

/// `val` clamped into `[min, max]` (`min` when the range is empty).
pub fn clamp_to_range(val: i64, min: i64, max: i64) -> (r: i64)
    ensures
        r == clamp(val as int, min as int, max as int),
{
    let upper = if val > max { max } else { val };
    if upper < min { min } else { upper }
}

/// `v mod n`, in `[0, n)`.
fn wrap(v: i64, n: usize) -> (r: usize)
    requires
        1 <= n <= MAX_DIM,
    ensures
        r == (v as int) % (n as int),
        r < n,
{
    let m = n as u64;
    if v >= 0 {
        let a = v as u64;
        let rem = a % m;
        proof {
            vstd::arithmetic::div_mod::lemma_fundamental_div_mod(a as int, m as int);
            vstd::arithmetic::div_mod::lemma_fundamental_div_mod_converse(v as int, n as int, (a / m) as int, rem as int);
        }
        rem as usize
    } else {
        let a = ((-(v + 1)) as u64) + 1;
        let rem = a % m;
        proof {
            vstd::arithmetic::div_mod::lemma_fundamental_div_mod(a as int, m as int);
            let q = (a / m) as int;
            if rem == 0 {
                assert(v as int == (-q) * (n as int) + 0) by (nonlinear_arith)
                    requires v == -(a as int), a as int == m * q + rem, rem == 0, m == n;
                vstd::arithmetic::div_mod::lemma_fundamental_div_mod_converse(v as int, n as int, -q, 0);
            } else {
                assert(v as int == (-q - 1) * (n as int) + (n - rem)) by (nonlinear_arith)
                    requires v == -(a as int), a as int == m * q + rem, m == n;
                vstd::arithmetic::div_mod::lemma_fundamental_div_mod_converse(v as int, n as int, -q - 1, n - rem);
            }
        }
        if rem == 0 { 0 } else { n - rem as usize }
    }
}

/// The usable search radius of `usable_radius_for`, from the border extrema.
fn usable_radius(settings: &GenSettings, border: &Extrema, w: usize, h: usize) -> (r: usize)
    requires
        settings.wf(),
    ensures
        r == ({
            let m = max_radius(*settings, *border);
            let side = if w < h { w as int } else { h as int };
            if m < side { m } else { side }
        }),
{
    let basis: u8 = match settings.height_setting {
        CaptureHeight::Generated => border.max,
        CaptureHeight::UserDefined(v) => v,
    };
    let diff: u64 = if basis > border.min { (basis - border.min) as u64 } else { 0 };
    let radius = settings.radius as u64;
    let mult = settings.img_height_mult_milli as u64;
    proof {
        assert(radius * diff <= 1048576 * 255) by (nonlinear_arith)
            requires radius <= 1048576, diff <= 255;
        assert(radius * diff * mult <= 1048576 * 255 * 1048576) by (nonlinear_arith)
            requires radius * diff <= 1048576 * 255, mult <= 1048576;
    }
    let scaled = radius * diff * mult / 255000;
    let m: usize = if scaled < radius { scaled as usize } else { settings.radius };
    let side = if w < h { w } else { h };
    if m < side { m } else { side }
}

/// The heights of valid settings stay within `Z_LIMIT`.
pub proof fn lemma_height_bound(s: GenSettings, pix: int)
    requires
        s.wf(),
        0 <= pix <= 255,
    ensures
        0 <= s.height_of(pix) <= Z_LIMIT,
{
    let r = s.radius as int;
    let m = s.img_height_mult_milli as int;
    assert(0 <= 2 * pix * r * m <= 2 * 255 * 1048576 * 1048576) by (nonlinear_arith)
        requires 0 <= pix <= 255, 0 <= r <= 1048576, 0 <= m <= 1048576;
}

/// Extrema of the outermost ring are unique, so any scan result is `border_extrema`.
pub proof fn lemma_border_extrema_unique(img: &HeightImage, e: Extrema)
    requires
        bounds_border(e, img),
    ensures
        border_extrema(img) == e,
{
    let c = border_extrema(img);
    assert(bounds_border(c, img));
    let (x1, r1) = choose|x: int, row: int| crate::extrema::on_border(img, x, row) && img.sample(x, row) == e.min;
    let (x2, r2) = choose|x: int, row: int| crate::extrema::on_border(img, x, row) && img.sample(x, row) == c.min;
    let (x3, r3) = choose|x: int, row: int| crate::extrema::on_border(img, x, row) && img.sample(x, row) == e.max;
    let (x4, r4) = choose|x: int, row: int| crate::extrema::on_border(img, x, row) && img.sample(x, row) == c.max;
    assert(c.min <= img.sample(x1, r1));
    assert(e.min <= img.sample(x2, r2));
    assert(c.max >= img.sample(x3, r3));
    assert(e.max >= img.sample(x4, r4));
}

/// The two faces of the grid cell whose lower-left vertex is grid vertex
/// `(gx, gy)`, both counter-clockwise seen from above.
pub open spec fn quad_faces(ew: int, gx: int, gy: int) -> ((usize, usize, usize), (usize, usize, usize)) {
    let a = gy * ew + gx;
    let b = a + 1;
    let c = a + ew;
    let d = c + 1;
    ((d as usize, c as usize, a as usize), (d as usize, a as usize, b as usize))
}

/// The faces listed for grid cell `q`.
pub open spec fn face_pair(faces: Seq<Face>, q: int) -> ((usize, usize, usize), (usize, usize, usize)) {
    (faces[2 * q].verts, faces[2 * q + 1].verts)
}

/// `faces` covers the mesh's grid cells in row-major order, two faces each.
pub open spec fn is_face_list(mesh: &Mesh, faces: Seq<Face>) -> bool {
    let (ew, eh) = mesh.ext_dim;
    let qw = ew - 1;
    &&& faces.len() == 2 * (qw * (eh - 1))
    &&& forall|q: int| 0 <= q < qw * (eh - 1) ==> #[trigger] face_pair(faces, q) == quad_faces(ew as int, q % qw, q / qw)
}

impl Mesh {
    /// Two triangles per grid cell, row by row, each counter-clockwise seen from above.
    pub fn faces(&self) -> (r: Vec<Face>)
        requires
            self.wf(),
        ensures
            is_face_list(self, r@),
    {
        let ew = self.ext_dim.0;
        let eh = self.ext_dim.1;
        let qw = ew - 1;
        let qh = eh - 1;
        proof {
            vstd::arithmetic::mul::lemma_mul_inequality(qw as int, ew as int, qh as int);
            vstd::arithmetic::mul::lemma_mul_inequality(qh as int, eh as int, ew as int);
            vstd::arithmetic::mul::lemma_mul_is_commutative(ew as int, qh as int);
        }
        let total = qw * qh;
        let mut out: Vec<Face> = Vec::new();
        let mut q: usize = 0;
        let mut gx: usize = 0;
        let mut gy: usize = 0;
        while q < total
            invariant
                self.wf(),
                ew == self.ext_dim.0 && eh == self.ext_dim.1,
                qw == ew - 1 && qh == eh - 1,
                total == qw * qh,
                q <= total,
                gx < qw,
                q == gy * qw + gx,
                out@.len() == 2 * q,
                forall|p: int| 0 <= p < q ==> #[trigger] face_pair(out@, p) == quad_faces(ew as int, p % (qw as int), p / (qw as int)),
            decreases total - q,
        {
            proof {
                vstd::arithmetic::div_mod::lemma_fundamental_div_mod_converse(q as int, qw as int, gy as int, gx as int);
                if gy >= qh {
                    assert(gy * qw >= qh * qw) by (nonlinear_arith)
                        requires gy >= qh, qw >= 0;
                    vstd::arithmetic::mul::lemma_mul_is_commutative(qh as int, qw as int);
                }
                crate::raster::lemma_grid_index(gx as int + 1, gy as int + 1, ew as int, eh as int);
                vstd::arithmetic::mul::lemma_mul_is_distributive_add_other_way(ew as int, gy as int, 1);
            }
            let a = gy * ew + gx;
            let c = a + ew;
            let ghost before = out@;
            out.push(Face::new(c + 1, c, a));
            out.push(Face::new(c + 1, a, a + 1));
            proof {
                assert forall|p: int| 0 <= p < q + 1 implies #[trigger] face_pair(out@, p) == quad_faces(ew as int, p % (qw as int), p / (qw as int)) by {
                    if p < q {
                        assert(face_pair(before, p) == face_pair(out@, p));
                    }
                }
            }
            q = q + 1;
            if gx + 1 == qw {
                gx = 0;
                gy = gy + 1;
                proof {
                    vstd::arithmetic::mul::lemma_mul_is_distributive_add_other_way(qw as int, gy - 1, 1);
                }
            } else {
                gx = gx + 1;
            }
        }
        out
    }
}

/// Vertex `i` of a well-formed mesh sits at the centre of its grid cell.
proof fn lemma_vertex_at(mesh: &Mesh, gx: int, gy: int)
    requires
        mesh.wf(),
        0 <= gx < mesh.ext_dim.0,
        0 <= gy < mesh.ext_dim.1,
    ensures
        0 <= gy * mesh.ext_dim.0 + gx < mesh.verts@.len(),
        mesh.verts@[gy * mesh.ext_dim.0 + gx].x == cell_center(gx - mesh.skirt),
        mesh.verts@[gy * mesh.ext_dim.0 + gx].y == cell_center(gy - mesh.skirt),
        0 <= mesh.verts@[gy * mesh.ext_dim.0 + gx].z <= Z_LIMIT,
{
    let ew = mesh.ext_dim.0 as int;
    crate::raster::lemma_grid_index(gx, gy, ew, mesh.ext_dim.1 as int);
    vstd::arithmetic::div_mod::lemma_fundamental_div_mod_converse(gy * ew + gx, ew, gy, gx);
    let v = mesh.verts@[gy * ew + gx];
    assert(v.x == cell_center((gy * ew + gx) % ew - mesh.skirt));
}

/// Every face of the mesh is counter-clockwise seen from above: its normal
/// points up (positive `z`), and its vertices exist.
pub proof fn lemma_faces_point_up(mesh: &Mesh, faces: Seq<Face>)
    requires
        mesh.wf(),
        is_face_list(mesh, faces),
    ensures
        forall|i: int| 0 <= i < faces.len() ==> {
            let (a, b, c) = #[trigger] faces[i].verts;
            &&& a < mesh.verts@.len() && b < mesh.verts@.len() && c < mesh.verts@.len()
            &&& normal_of(mesh.verts@[a as int], mesh.verts@[b as int], mesh.verts@[c as int]).2 > 0
        },
{
    let (ew, eh) = mesh.ext_dim;
    let qw = ew - 1;
    assert forall|i: int| 0 <= i < faces.len() implies {
        let (a, b, c) = #[trigger] faces[i].verts;
        &&& a < mesh.verts@.len() && b < mesh.verts@.len() && c < mesh.verts@.len()
        &&& normal_of(mesh.verts@[a as int], mesh.verts@[b as int], mesh.verts@[c as int]).2 > 0
    } by {
        let q = i / 2;
        assert(i == 2 * q || i == 2 * q + 1);
        assert(0 <= q < qw * (eh - 1));
        assert(face_pair(faces, q) == quad_faces(ew as int, q % (qw as int), q / (qw as int)));
        let gx = q % (qw as int);
        let gy = q / (qw as int);
        vstd::arithmetic::div_mod::lemma_mod_pos_bound(q, qw as int);
        vstd::arithmetic::div_mod::lemma_div_pos_is_pos(q, qw as int);
        vstd::arithmetic::div_mod::lemma_fundamental_div_mod(q, qw as int);
        if gy >= eh - 1 {
            assert(qw * gy >= qw * (eh - 1)) by (nonlinear_arith)
                requires gy >= eh - 1, qw >= 0;
        }
        lemma_vertex_at(mesh, gx, gy);
        lemma_vertex_at(mesh, gx + 1, gy);
        lemma_vertex_at(mesh, gx, gy + 1);
        lemma_vertex_at(mesh, gx + 1, gy + 1);
        vstd::arithmetic::mul::lemma_mul_is_distributive_add_other_way(ew as int, gy, 1);
        let k = mesh.skirt as int;
        let va = mesh.verts@[gy * ew + gx];
        let vb = mesh.verts@[gy * ew + gx + 1];
        let vc = mesh.verts@[(gy + 1) * ew + gx];
        let vd = mesh.verts@[(gy + 1) * ew + gx + 1];
        assert(cell_center(gx + 1 - k) - cell_center(gx - k) == 510000);
        assert(cell_center(gy + 1 - k) - cell_center(gy - k) == 510000);
        lemma_center_small(gx - k);
        lemma_center_small(gx + 1 - k);
        lemma_center_small(gy - k);
        lemma_center_small(gy + 1 - k);
        assert(vd.x - vc.x == 510000 && vd.y - vc.y == 0);
        assert(vd.x - va.x == 510000 && vd.y - va.y == 510000);
        assert(vd.x - vb.x == 0 && vd.y - vb.y == 510000);
        lemma_quad_normals(va, vb, vc, vd);
    }
}

/// Both faces of a grid cell with corners `a` (lower left), `b`, `c`, `d`
/// (upper right) one cell apart have a normal of `z` component one cell squared.
proof fn lemma_quad_normals(a: Vec3, b: Vec3, c: Vec3, d: Vec3)
    requires
        d.x - c.x == 510000 && d.y - c.y == 0,
        d.x - a.x == 510000 && d.y - a.y == 510000,
        d.x - b.x == 0 && d.y - b.y == 510000,
    ensures
        normal_of(d, c, a).2 == 510000 * 510000,
        normal_of(d, a, b).2 == 510000 * 510000,
{
    let n1 = normal_of(d, c, a);
    assert(n1.2 == (d.x - c.x) * (d.y - a.y) - (d.y - c.y) * (d.x - a.x));
    assert((d.x - c.x) * (d.y - a.y) == 510000 * 510000);
    assert((d.y - c.y) * (d.x - a.x) == 0);
    let n2 = normal_of(d, a, b);
    assert(n2.2 == (d.x - a.x) * (d.y - b.y) - (d.y - a.y) * (d.x - b.x));
    assert((d.x - a.x) * (d.y - b.y) == 510000 * 510000);
    assert((d.y - a.y) * (d.x - b.x) == 0);
}

proof fn lemma_center_small(m: int)
    requires
        -4194304 <= m <= 4194304,
    ensures
        -8388609 * 255000 <= cell_center(m) <= 8388609 * 255000,
{
    let c = cell_center(m);
    assert(-8388609 * 255000 <= c <= 8388609 * 255000) by (nonlinear_arith)
        requires c == (2 * m + 1) * 255000, -4194304 <= m <= 4194304;
}

} // verus!
