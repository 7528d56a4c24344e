use vstd::prelude::*;

use crate::raster::MAX_DIM;

verus! {

/// Squared length of an offset.
pub open spec fn norm(p: (i64, i64)) -> int {
    (p.0 as int) * (p.0 as int) + (p.1 as int) * (p.1 as int)
}

/// `(dx, dy)` lies in the square `[-r, r]²`.
pub open spec fn in_square(r: int, dx: int, dy: int) -> bool {
    -r <= dx <= r && -r <= dy <= r
}

/// `s` lists every offset of `[-r, r]²` exactly once, by non-decreasing squared length.
pub open spec fn is_spiral(s: Seq<(i64, i64)>, r: int) -> bool {
    &&& forall|i: int| 0 <= i < s.len() ==> in_square(r, (#[trigger] s[i]).0 as int, s[i].1 as int)
    &&& forall|i: int, j: int| 0 <= i < j < s.len() ==> norm(#[trigger] s[i]) <= norm(#[trigger] s[j])
    &&& forall|i: int, j: int| 0 <= i < s.len() && 0 <= j < s.len() && i != j ==> #[trigger] s[i] != #[trigger] s[j]
    &&& forall|dx: int, dy: int| #[trigger] in_square(r, dx, dy)
        ==> exists|i: int| 0 <= i < s.len() && s[i] == (dx as i64, dy as i64)
}

/// Column `c` (offset `dx = c - r`) has handed out exactly the magnitudes
/// `0 .. pc` of `dy` whose squared offset lies below `n`.
spec fn pointer_ok(r: int, c: int, pc: int, n: int) -> bool {
    &&& 0 <= pc <= r + 1
    &&& (pc <= r ==> (c - r) * (c - r) + pc * pc >= n)
    &&& (pc > 0 ==> (c - r) * (c - r) + (pc - 1) * (pc - 1) < n)
}

/// The output so far: offsets of squared length below `n`, and those of length
/// exactly `n` in columns left of `dx_done`.
spec fn emitted(r: int, n: int, dx_done: int, dx: int, dy: int) -> bool {
    &&& in_square(r, dx, dy)
    &&& (dx * dx + dy * dy < n || (dx * dx + dy * dy == n && dx < dx_done))
}

proof fn lemma_square_le(a: int, b: int)
    requires
        0 <= a,
        0 <= b,
    ensures
        a <= b <==> a * a <= b * b,
        a < b <==> a * a < b * b,
{
    if a <= b {
        assert(a * a <= b * b) by (nonlinear_arith)
            requires 0 <= a <= b;
    } else {
        assert(b * b < a * a) by (nonlinear_arith)
            requires 0 <= b < a;
    }
    if a < b {
        assert(a * a < b * b) by (nonlinear_arith)
            requires 0 <= a < b;
    } else {
        assert(b * b <= a * a) by (nonlinear_arith)
            requires 0 <= b <= a;
    }
}

proof fn lemma_abs_square(a: int)
    ensures
        a * a == (if a < 0 { -a } else { a }) * (if a < 0 { -a } else { a }),
{
    if a < 0 {
        assert(a * a == (-a) * (-a)) by (nonlinear_arith);
    }
}

/// The offsets of `[-radius, radius]²`, each once, nearest to the origin first.
pub fn generate_spiral(radius: usize) -> (s: Vec<(i64, i64)>)
    requires
        radius <= MAX_DIM,
    ensures
        is_spiral(s@, radius as int),
{
    let r = radius as i64;
    let ghost ri = r as int;
    let width: usize = 2 * radius + 1;
    let mut ptr: Vec<i64> = Vec::new();
    let mut c: usize = 0;
    while c < width
        invariant
            width == 2 * radius + 1,
            radius <= MAX_DIM,
            c <= width,
            ptr@.len() == c,
            forall|k: int| 0 <= k < c ==> #[trigger] ptr@[k] == 0,
        decreases width - c,
    {
        ptr.push(0);
        c = c + 1;
    }
    let mut out: Vec<(i64, i64)> = Vec::new();
    proof {
        assert(ri * ri <= 1099511627776) by (nonlinear_arith)
            requires 0 <= ri <= 1048576;
        assert(2 * ri * ri == 2 * (ri * ri)) by (nonlinear_arith);
    }
    let last: i64 = 2 * r * r;
    let mut n: i64 = 0;
    proof {
        assert forall|k: int| 0 <= k < width implies pointer_ok(ri, k, #[trigger] ptr@[k] as int, 0) by {
            assert((k - ri) * (k - ri) >= 0) by (nonlinear_arith);
        }
        assert forall|dx: int, dy: int| #[trigger] in_square(ri, dx, dy) implies !emitted(ri, 0, -ri, dx, dy) by {
            assert(dx * dx >= 0 && dy * dy >= 0) by (nonlinear_arith);
        }
    }
    while n <= last
        invariant
            ri == r as int,
            r == radius as int,
            radius <= MAX_DIM,
            width == 2 * radius + 1,
            last == 2 * ri * ri,
            last <= 2199023255552,
            0 <= n <= last + 1,
            ptr@.len() == width,
            forall|k: int| 0 <= k < width ==> pointer_ok(ri, k, #[trigger] ptr@[k] as int, n as int),
            forall|i: int| 0 <= i < out@.len() ==> emitted(ri, n as int, -ri, (#[trigger] out@[i]).0 as int, out@[i].1 as int),
            forall|i: int, j: int| 0 <= i < j < out@.len() ==> norm(#[trigger] out@[i]) <= norm(#[trigger] out@[j]),
            forall|i: int, j: int| 0 <= i < out@.len() && 0 <= j < out@.len() && i != j ==> #[trigger] out@[i] != #[trigger] out@[j],
            forall|dx: int, dy: int| #[trigger] in_square(ri, dx, dy) && emitted(ri, n as int, -ri, dx, dy)
                ==> exists|i: int| 0 <= i < out@.len() && out@[i] == (dx as i64, dy as i64),
        decreases last + 1 - n,
    {
        let mut c: usize = 0;
        while c < width
            invariant
                ri == r as int,
                r == radius as int,
                radius <= MAX_DIM,
                width == 2 * radius + 1,
                last == 2 * ri * ri,
                0 <= n <= last,
                c <= width,
                ptr@.len() == width,
                forall|k: int| 0 <= k < c ==> pointer_ok(ri, k, #[trigger] ptr@[k] as int, n + 1),
                forall|k: int| c <= k < width ==> pointer_ok(ri, k, #[trigger] ptr@[k] as int, n as int),
                forall|i: int| 0 <= i < out@.len() ==> emitted(ri, n as int, c - ri, (#[trigger] out@[i]).0 as int, out@[i].1 as int),
                forall|i: int, j: int| 0 <= i < j < out@.len() ==> norm(#[trigger] out@[i]) <= norm(#[trigger] out@[j]),
                forall|i: int, j: int| 0 <= i < out@.len() && 0 <= j < out@.len() && i != j ==> #[trigger] out@[i] != #[trigger] out@[j],
                forall|dx: int, dy: int| #[trigger] in_square(ri, dx, dy) && emitted(ri, n as int, c - ri, dx, dy)
                    ==> exists|i: int| 0 <= i < out@.len() && out@[i] == (dx as i64, dy as i64),
            decreases width - c,
        {
            let dx: i64 = c as i64 - r;
            let m: i64 = ptr[c];
            let ghost ci = c as int;
            assert(pointer_ok(ri, ci, m as int, n as int));
            proof {
                assert(dx * dx <= ri * ri) by (nonlinear_arith)
                    requires -ri <= dx <= ri;
                assert(m * m <= (ri + 1) * (ri + 1)) by (nonlinear_arith)
                    requires 0 <= m <= ri + 1;
                assert(ri * ri <= 1099511627776) by (nonlinear_arith)
                    requires 0 <= ri <= 1048576;
                assert((ri + 1) * (ri + 1) <= 1099513724929) by (nonlinear_arith)
                    requires 0 <= ri <= 1048576;
            }
            let hit = m <= r && dx * dx + m * m == n;
            let ghost old_out = out@;
            let ghost old_ptr = ptr@;
            if hit {
                out.push((dx, m));
                if m > 0 {
                    out.push((dx, -m));
                }
                ptr.set(c, m + 1);
            }
            proof {
                // The offsets of this column at squared length `n` are `(dx, ±m)`, and only when `hit`.
                assert forall|dy: int| #[trigger] in_square(ri, dx as int, dy) && dx * dx + dy * dy == n
                    implies hit && (dy == m || dy == -m) by {
                    let ady = if dy < 0 { -dy } else { dy };
                    lemma_abs_square(dy);
                    lemma_square_le(ady, m as int);
                    if m > 0 {
                        lemma_square_le(ady, m - 1);
                    }
                }
                assert(pointer_ok(ri, ci, ptr@[ci] as int, n + 1)) by {
                    if hit {
                        lemma_square_le(m as int, m + 1);
                    }
                }
                assert forall|k: int| 0 <= k < c + 1 implies pointer_ok(ri, k, #[trigger] ptr@[k] as int, n + 1) by {
                    if k < c {
                        assert(ptr@[k] == old_ptr[k]);
                    }
                }
                assert forall|i: int| 0 <= i < out@.len() implies emitted(ri, n as int, c + 1 - ri, (#[trigger] out@[i]).0 as int, out@[i].1 as int) by {
                    if i < old_out.len() {
                        assert(out@[i] == old_out[i]);
                    } else {
                        lemma_abs_square(-m);
                        if i == old_out.len() {
                            assert(out@[i] == (dx, m));
                        } else {
                            assert(out@[i] == (dx, (-m) as i64));
                        }
                    }
                }
                assert forall|i: int, j: int| 0 <= i < j < out@.len() implies norm(#[trigger] out@[i]) <= norm(#[trigger] out@[j]) by {
                    if j >= old_out.len() {
                        lemma_abs_square(-m);
                        assert(norm(out@[j]) == n) by {
                            if j == old_out.len() {
                                assert(out@[j] == (dx, m));
                            } else {
                                assert(out@[j] == (dx, (-m) as i64));
                            }
                        }
                        if i < old_out.len() {
                            assert(out@[i] == old_out[i]);
                        } else {
                            assert(out@[i] == (dx, m));
                        }
                    } else {
                        assert(out@[i] == old_out[i] && out@[j] == old_out[j]);
                    }
                }
                assert forall|i: int, j: int| 0 <= i < out@.len() && 0 <= j < out@.len() && i != j implies #[trigger] out@[i] != #[trigger] out@[j] by {
                    if i < old_out.len() && j < old_out.len() {
                        assert(out@[i] == old_out[i] && out@[j] == old_out[j]);
                    } else if i < old_out.len() {
                        assert(out@[i] == old_out[i]);
                        assert(emitted(ri, n as int, c - ri, old_out[i].0 as int, old_out[i].1 as int));
                        lemma_abs_square(-m);
                    } else if j < old_out.len() {
                        assert(out@[j] == old_out[j]);
                        assert(emitted(ri, n as int, c - ri, old_out[j].0 as int, old_out[j].1 as int));
                        lemma_abs_square(-m);
                    }
                }
                assert forall|x: int, y: int| #[trigger] in_square(ri, x, y) && emitted(ri, n as int, c + 1 - ri, x, y)
                    implies exists|i: int| 0 <= i < out@.len() && out@[i] == (x as i64, y as i64) by {
                    if emitted(ri, n as int, c - ri, x, y) {
                        let i = choose|i: int| 0 <= i < old_out.len() && old_out[i] == (x as i64, y as i64);
                        assert(out@[i] == old_out[i]);
                    } else {
                        assert(x == dx);
                        assert(hit && (y == m || y == -m));
                        if y == m {
                            assert(out@[old_out.len() as int] == (x as i64, y as i64));
                        } else if m > 0 {
                            assert(out@[old_out.len() as int + 1] == (x as i64, y as i64));
                        } else {
                            assert(out@[old_out.len() as int] == (x as i64, y as i64));
                        }
                    }
                }
            }
            c = c + 1;
        }
        proof {
            assert forall|i: int| 0 <= i < out@.len() implies emitted(ri, n + 1, -ri, (#[trigger] out@[i]).0 as int, out@[i].1 as int) by {
                assert(emitted(ri, n as int, width - ri, out@[i].0 as int, out@[i].1 as int));
            }
            assert forall|x: int, y: int| #[trigger] in_square(ri, x, y) && emitted(ri, n + 1, -ri, x, y)
                implies exists|i: int| 0 <= i < out@.len() && out@[i] == (x as i64, y as i64) by {
                assert(emitted(ri, n as int, width - ri, x, y));
            }
        }
        n = n + 1;
    }
    proof {
        assert forall|dx: int, dy: int| #[trigger] in_square(ri, dx, dy)
            implies exists|i: int| 0 <= i < out@.len() && out@[i] == (dx as i64, dy as i64) by {
            assert(dx * dx <= ri * ri && dy * dy <= ri * ri) by (nonlinear_arith)
                requires -ri <= dx <= ri, -ri <= dy <= ri;
            assert(2 * ri * ri == 2 * (ri * ri)) by (nonlinear_arith);
            assert(emitted(ri, n as int, -ri, dx, dy));
        }
    }
    out
}

} // verus!
