//! Field-of-view computation on a 2D tile grid.
//!
//! A `FOV` table precomputes, for a maximum radius, which quadrant-local
//! offsets each potential blocker occludes (by tracing straight sightlines)
//! together with range masks for every radius up to the maximum. A query
//! folds a caller-supplied occupancy grid through that table and hands back
//! a cursor over the visible absolute coordinates.

use vstd::prelude::*;

mod bitvec;
pub mod line;

pub use bitvec::BitGrid;
use crate::line::{betw, gap, lemma_trace_spec_props, pts_view, trace, trace_spec};
use vstd::arithmetic::div_mod::lemma_fundamental_div_mod_converse;

verus! {

/// The ways a call into this library can fail.
#[derive(Clone, Copy, Debug, PartialEq, Eq, Structural)]
pub enum Error {
    /// A query radius of zero, or one beyond the table's maximum.
    InvalidRadius,
    /// A whole-grid combination of two grids of different width or height.
    DimensionMismatch,
}

/// A cell the table traces a sightline from: every cell when `permissive`
/// is off, otherwise only the outer edge of the quadrant square (inner
/// sightlines are sub-segments of edge sightlines).
pub open spec fn traced_source(rr: int, permissive: bool, px: int, py: int) -> bool {
    &&& 0 <= px < rr
    &&& 0 <= py < rr
    &&& (!permissive || px == rr - 1 || py == rr - 1)
}

/// Cells `(qx, qy)` and `(sx, sy)` both lie on the prefix `l[..bound]` of a
/// sightline, with `(sx, sy)` strictly earlier (farther from the origin).
pub open spec fn pair_below(
    l: Seq<(int, int)>,
    bound: int,
    qx: int,
    qy: int,
    sx: int,
    sy: int,
) -> bool {
    exists|i: int, j: int|
        #![trigger l[i], l[j]]
        0 <= j < i < bound && i < l.len() && l[i] == (qx, qy) && l[j] == (sx, sy)
}

/// On the sightline from `(px, py)` to the local origin, `(sx, sy)` lies
/// strictly earlier than `(qx, qy)`: a blocker at `(qx, qy)` hides
/// `(sx, sy)` from the viewer.
pub open spec fn line_pair(px: int, py: int, qx: int, qy: int, sx: int, sy: int) -> bool {
    let l = trace_spec(px, py, 0, 0);
    pair_below(l, l.len() as int, qx, qy, sx, sy)
}

/// The shadow table's content: offset `(sx, sy)` is occluded by a blocker
/// at offset `(qx, qy)` when some traced sightline passes through both,
/// `(qx, qy)` nearer the viewer.
pub open spec fn shades(rr: int, permissive: bool, qx: int, qy: int, sx: int, sy: int) -> bool {
    exists|px: int, py: int|
        traced_source(rr, permissive, px, py) && #[trigger] line_pair(px, py, qx, qy, sx, sy)
}

/// `shades`, restricted to sources whose row-major index is below `n`: the
/// part of the table built after `n` construction steps.
spec fn shades_upto(rr: int, permissive: bool, n: int, qx: int, qy: int, sx: int, sy: int) -> bool {
    exists|px: int, py: int|
        py * rr + px < n && traced_source(rr, permissive, px, py) && #[trigger] line_pair(
            px,
            py,
            qx,
            qy,
            sx,
            sy,
        )
}

/// The range mask for query radius `rad`: offset `(x, y)` is pre-occluded
/// when it lies at or beyond that radius.
pub open spec fn mask_at(rr: int, rad: int, x: int, y: int) -> bool {
    &&& 0 <= x < rr
    &&& 0 <= y < rr
    &&& x * x + y * y >= rad * rad
}

/// What a line pair implies geometrically: both cells sit inside the box
/// spanned by the source and the origin, the occluded cell is at least as
/// far out as the blocker on both axes, and they are distinct.
proof fn lemma_line_pair_props(px: int, py: int, qx: int, qy: int, sx: int, sy: int)
    requires
        0 <= px,
        0 <= py,
        line_pair(px, py, qx, qy, sx, sy),
    ensures
        0 <= qx <= sx <= px,
        0 <= qy <= sy <= py,
        qx + qy < sx + sy,
{
    let l = trace_spec(px, py, 0, 0);
    let (i, j): (int, int) = choose|i: int, j: int|
        #![trigger l[i], l[j]]
        0 <= j < i < l.len() && l[i] == (qx, qy) && l[j] == (sx, sy);
    lemma_trace_spec_props(px, py, 0, 0);
    assert(betw(px, l[i].0, 0) && betw(py, l[i].1, 0));
    assert(betw(px, l[j].0, 0) && betw(py, l[j].1, 0));
    assert(gap(l[i].0, 0) <= gap(l[j].0, 0) && gap(l[i].1, 0) <= gap(l[j].1, 0));
    assert(gap(l[i].0, 0) + gap(l[i].1, 0) < gap(l[j].0, 0) + gap(l[j].1, 0));
}

/// Row-major decomposition: the index `qy * rr + qx` splits back into `qx`
/// and `qy`.
proof fn lemma_rowmajor_inverse(qx: int, qy: int, rr: int)
    requires
        0 <= qx < rr,
        0 <= qy,
    ensures
        (qy * rr + qx) / rr == qy,
        (qy * rr + qx) % rr == qx,
{
    lemma_fundamental_div_mod_converse(qy * rr + qx, rr, qy, qx);
}

/// In-bounds sources have row-major indices below `rr * rr`, monotone in
/// both coordinates.
proof fn lemma_rowmajor_bound(px: int, py: int, x: int, y: int, rr: int)
    by (nonlinear_arith)
    requires
        0 <= px <= x < rr,
        0 <= py <= y < rr,
    ensures
        py * rr + px <= y * rr + x < rr * rr,
{
}

/// No sightline from a source earlier in row-major order passes through a
/// cell later in that order, so a freshly pushed shading grid is empty in
/// `shades_upto` terms.
proof fn lemma_upto_self_false(rr: int, permissive: bool, x: int, y: int, sx: int, sy: int)
    requires
        0 <= x < rr,
        0 <= y < rr,
    ensures
        !shades_upto(rr, permissive, y * rr + x, x, y, sx, sy),
{
    let n = y * rr + x;
    if shades_upto(rr, permissive, n, x, y, sx, sy) {
        let (px, py): (int, int) = choose|px: int, py: int|
            py * rr + px < n && traced_source(rr, permissive, px, py) && #[trigger] line_pair(
                px,
                py,
                x,
                y,
                sx,
                sy,
            );
        lemma_line_pair_props(px, py, x, y, sx, sy);
        lemma_rowmajor_bound(x, y, px, py, rr);
    }
}

/// Adding the source with row-major index `n` to the table adds exactly the
/// pairs of that source's sightline.
proof fn lemma_upto_extend(
    rr: int,
    permissive: bool,
    x: int,
    y: int,
    qx: int,
    qy: int,
    sx: int,
    sy: int,
)
    requires
        0 <= x < rr,
        0 <= y < rr,
    ensures
        shades_upto(rr, permissive, y * rr + x + 1, qx, qy, sx, sy) == (shades_upto(
            rr,
            permissive,
            y * rr + x,
            qx,
            qy,
            sx,
            sy,
        ) || (traced_source(rr, permissive, x, y) && line_pair(x, y, qx, qy, sx, sy))),
{
    let n = y * rr + x;
    if shades_upto(rr, permissive, n + 1, qx, qy, sx, sy) {
        let (px, py): (int, int) = choose|px: int, py: int|
            py * rr + px < n + 1 && traced_source(rr, permissive, px, py) && #[trigger] line_pair(
                px,
                py,
                qx,
                qy,
                sx,
                sy,
            );
        if py * rr + px == n {
            lemma_rowmajor_inverse(px, py, rr);
            lemma_rowmajor_inverse(x, y, rr);
            assert(px == x && py == y);
        }
    }
    if shades_upto(rr, permissive, n, qx, qy, sx, sy) {
        let (px, py): (int, int) = choose|px: int, py: int|
            py * rr + px < n && traced_source(rr, permissive, px, py) && #[trigger] line_pair(
                px,
                py,
                qx,
                qy,
                sx,
                sy,
            );
        assert(py * rr + px < n + 1);
        assert(shades_upto(rr, permissive, n + 1, qx, qy, sx, sy));
    }
    if traced_source(rr, permissive, x, y) && line_pair(x, y, qx, qy, sx, sy) {
        assert(y * rr + x < n + 1);
        assert(shades_upto(rr, permissive, n + 1, qx, qy, sx, sy));
    }
}

/// After every source has been processed, the staged table is the full one.
proof fn lemma_upto_complete(rr: int, permissive: bool, qx: int, qy: int, sx: int, sy: int)
    requires
        0 <= rr,
    ensures
        shades_upto(rr, permissive, rr * rr, qx, qy, sx, sy) == shades(
            rr,
            permissive,
            qx,
            qy,
            sx,
            sy,
        ),
{
    if shades(rr, permissive, qx, qy, sx, sy) {
        let (px, py): (int, int) = choose|px: int, py: int|
            traced_source(rr, permissive, px, py) && #[trigger] line_pair(px, py, qx, qy, sx, sy);
        lemma_rowmajor_bound(px, py, px, py, rr);
        assert(shades_upto(rr, permissive, rr * rr, qx, qy, sx, sy));
    }
}

/// Structural and semantic well-formedness of a prefix of the shading
/// table: every staged grid holds exactly the occlusions contributed by the
/// sources staged so far.
spec fn table_prefix_ok(s: Seq<BitGrid>, rr: int, permissive: bool) -> bool {
    &&& forall|m: int|
        0 <= m < s.len() ==> (#[trigger] s[m]).wf() && s[m].width() == rr && s[m].height() == rr
    &&& forall|m: int, sx: int, sy: int|
        0 <= m < s.len() ==> (#[trigger] s[m].at(sx, sy)) == shades_upto(
            rr,
            permissive,
            s.len() as int,
            m % rr,
            m / rr,
            sx,
            sy,
        )
}

/// The precomputed field-of-view table for a maximum radius: one shading
/// grid per quadrant-local offset, and one range mask per query radius.
/// Built once and never mutated afterwards, so it can be shared freely
/// across queries.
#[derive(Clone)]
pub struct FOV {
    r_max: usize,
    shading: Vec<BitGrid>,
    range_shading: Vec<BitGrid>,
}

impl FOV {
    /// The maximum radius this table supports.
    pub closed spec fn radius(self) -> int {
        self.r_max as int
    }

    /// The table's occlusion relation: a blocker at quadrant-local offset
    /// `(qx, qy)` occludes offset `(sx, sy)`.
    pub closed spec fn shading_at(self, qx: int, qy: int, sx: int, sy: int) -> bool {
        &&& 0 <= qx < self.radius()
        &&& 0 <= qy < self.radius()
        &&& self.shading@[qy * self.radius() + qx].at(sx, sy)
    }

    /// Well-formed table: grids of the right shape, range masks holding
    /// exactly the at-or-beyond-radius offsets, and a shading relation that
    /// only ever points outward (a blocker occludes only cells at least as
    /// far out on both axes, never itself).
    pub closed spec fn inv(self) -> bool {
        let rr = self.radius();
        &&& 4 * rr * rr <= isize::MAX as int
        &&& self.shading@.len() == rr * rr
        &&& forall|m: int|
            0 <= m < rr * rr ==> (#[trigger] self.shading@[m]).wf() && self.shading@[m].width()
                == rr && self.shading@[m].height() == rr
        &&& self.range_shading@.len() == rr
        &&& forall|k: int|
            0 <= k < rr ==> (#[trigger] self.range_shading@[k]).wf()
                && self.range_shading@[k].width() == rr && self.range_shading@[k].height() == rr
        &&& forall|k: int, x: int, y: int|
            0 <= k < rr ==> (#[trigger] self.range_shading@[k].at(x, y)) == mask_at(
                rr,
                k + 1,
                x,
                y,
            )
        &&& forall|qx: int, qy: int, sx: int, sy: int|
            #[trigger] self.shading_at(qx, qy, sx, sy) ==> qx <= sx < rr && qy <= sy < rr && !(sx
                == qx && sy == qy)
    }

    /// Builds the table for maximum radius `r_max`.
    ///
    /// Every quadrant-local offset gets a shading grid holding exactly the
    /// occlusions of the traced sightlines (`shades`); when `permissive` is
    /// on, only outer-edge cells are traced. Every radius `1..=r_max` gets a
    /// range mask marking the offsets at or beyond it.
    pub fn new(r_max: usize, permissive: bool) -> (r: FOV)
        requires
            4 * (r_max as int) * (r_max as int) <= isize::MAX as int,
        ensures
            r.inv(),
            r.radius() == r_max as int,
            forall|qx: int, qy: int, sx: int, sy: int|
                (#[trigger] r.shading_at(qx, qy, sx, sy)) == shades(
                    r_max as int,
                    permissive,
                    qx,
                    qy,
                    sx,
                    sy,
                ),
    {
        let ghost rri = r_max as int;
        proof {
            lemma_radius_fits(rri);
        }
        let mut shading: Vec<BitGrid> = Vec::new();
        let mut y: usize = 0;
        while y < r_max
            invariant
                y <= r_max,
                rri == r_max as int,
                4 * rri * rri <= isize::MAX as int,
                rri <= isize::MAX as int,
                rri * rri <= isize::MAX as int,
                shading@.len() == y * rri,
                table_prefix_ok(shading@, rri, permissive),
            decreases r_max - y,
        {
            let mut x: usize = 0;
            while x < r_max
                invariant
                    x <= r_max,
                    y < r_max,
                    rri == r_max as int,
                    4 * rri * rri <= isize::MAX as int,
                    rri <= isize::MAX as int,
                    rri * rri <= isize::MAX as int,
                    shading@.len() == y * rri + x,
                    table_prefix_ok(shading@, rri, permissive),
                decreases r_max - x,
            {
                let ghost n = y * rri + x;
                proof {
                    lemma_rowmajor_bound(x as int, y as int, x as int, y as int, rri);
                }
                let ghost stage = shading@;
                shading.push(BitGrid::new(r_max, r_max, false));
                proof {
                    assert(shading@ =~= stage.push(shading@[n]));
                    lemma_rowmajor_inverse(x as int, y as int, rri);
                    assert forall|ax: int, ay: int| !shades_upto(
                        rri,
                        permissive,
                        n,
                        x as int,
                        y as int,
                        ax,
                        ay,
                    ) by {
                        lemma_upto_self_false(rri, permissive, x as int, y as int, ax, ay);
                    }
                }
                if !permissive || x == r_max - 1 || y == r_max - 1 {
                    proof {
                        assert(2 * (gap(x as int, 0) * gap(y as int, 0) + gap(x as int, 0) + gap(
                            y as int,
                            0,
                        ) + 1) <= isize::MAX as int) by (nonlinear_arith)
                            requires
                                0 <= (x as int) && x < rri,
                                0 <= (y as int) && y < rri,
                                4 * rri * rri <= isize::MAX as int,
                        ;
                    }
                    let line = trace((x as isize, y as isize), (0isize, 0isize));
                    let ghost l = trace_spec(x as int, y as int, 0, 0);
                    let llen = line.len();
                    let mut i: usize = 0;
                    while i < llen
                        invariant
                            i <= llen,
                            llen == line@.len(),
                            pts_view(line@) == l,
                            l == trace_spec(x as int, y as int, 0, 0),
                            x < r_max,
                            y < r_max,
                            rri == r_max as int,
                            4 * rri * rri <= isize::MAX as int,
                            rri <= isize::MAX as int,
                            rri * rri <= isize::MAX as int,
                            n == y * rri + x,
                            n < rri * rri,
                            shading@.len() == n + 1,
                            forall|m: int|
                                0 <= m < shading@.len() ==> (#[trigger] shading@[m]).wf()
                                    && shading@[m].width() == rri && shading@[m].height() == rri,
                            forall|m: int, ax: int, ay: int|
                                0 <= m <= n ==> (#[trigger] shading@[m].at(ax, ay)) == (
                                shades_upto(rri, permissive, n, m % rri, m / rri, ax, ay)
                                    || pair_below(l, i as int, m % rri, m / rri, ax, ay)),
                        decreases llen - i,
                    {
                        proof {
                            lemma_trace_spec_props(x as int, y as int, 0, 0);
                            assert(pts_view(line@)[i as int] == (
                                line@[i as int].0 as int,
                                line@[i as int].1 as int,
                            ));
                            assert(betw(x as int, l[i as int].0, 0));
                            assert(betw(y as int, l[i as int].1, 0));
                        }
                        let p = line[i];
                        let px = p.0 as usize;
                        let py = p.1 as usize;
                        proof {
                            lemma_rowmajor_bound(px as int, py as int, x as int, y as int, rri);
                            lemma_rowmajor_inverse(px as int, py as int, rri);
                        }
                        let ix = py * r_max + px;
                        let ghost mark_q = l[i as int];
                        let mut j: usize = 0;
                        while j < i
                            invariant
                                j <= i < llen,
                                llen == line@.len(),
                                pts_view(line@) == l,
                                l == trace_spec(x as int, y as int, 0, 0),
                                x < r_max,
                                y < r_max,
                                rri == r_max as int,
                                4 * rri * rri <= isize::MAX as int,
                                rri <= isize::MAX as int,
                                rri * rri <= isize::MAX as int,
                                n == y * rri + x,
                                n < rri * rri,
                                mark_q == l[i as int],
                                ix == mark_q.1 * rri + mark_q.0,
                                ix as int <= n,
                                0 <= mark_q.0 <= x as int,
                                0 <= mark_q.1 <= y as int,
                                shading@.len() == n + 1,
                                forall|m: int|
                                    0 <= m < shading@.len() ==> (#[trigger] shading@[m]).wf()
                                        && shading@[m].width() == rri && shading@[m].height()
                                        == rri,
                                forall|m: int, ax: int, ay: int|
                                    0 <= m <= n ==> (#[trigger] shading@[m].at(ax, ay)) == (
                                    shades_upto(rri, permissive, n, m % rri, m / rri, ax, ay)
                                        || pair_below(l, i as int, m % rri, m / rri, ax, ay) || (l[i as int]
                                        == (m % rri, m / rri) && exists|j2: int|
                                        #![trigger l[j2]]
                                        0 <= j2 < j && l[j2] == (ax, ay))),
                            decreases i - j,
                        {
                            proof {
                                lemma_trace_spec_props(x as int, y as int, 0, 0);
                                assert(pts_view(line@)[j as int] == (
                                    line@[j as int].0 as int,
                                    line@[j as int].1 as int,
                                ));
                                assert(betw(x as int, l[j as int].0, 0));
                                assert(betw(y as int, l[j as int].1, 0));
                            }
                            let s = line[j];
                            let ghost pre = shading@;
                            shading[ix].set(s, true);
                            proof {
                                lemma_shading_mark(
                                    pre,
                                    shading@,
                                    l,
                                    rri,
                                    permissive,
                                    n,
                                    i as int,
                                    j as int,
                                    mark_q,
                                    ix as int,
                                );
                            }
                            j += 1;
                        }
                        proof {
                            assert forall|m: int, ax: int, ay: int| 0 <= m <= n implies (
                            #[trigger] shading@[m].at(ax, ay)) == (shades_upto(
                                rri,
                                permissive,
                                n,
                                m % rri,
                                m / rri,
                                ax,
                                ay,
                            ) || pair_below(l, i as int + 1, m % rri, m / rri, ax, ay)) by {
                                lemma_pair_below_extend(l, i as int, m % rri, m / rri, ax, ay);
                            }
                        }
                        i += 1;
                    }
                    proof {
                        assert forall|m: int, ax: int, ay: int| 0 <= m <= n implies (
                        #[trigger] shading@[m].at(ax, ay)) == shades_upto(
                            rri,
                            permissive,
                            n + 1,
                            m % rri,
                            m / rri,
                            ax,
                            ay,
                        ) by {
                            lemma_upto_extend(
                                rri,
                                permissive,
                                x as int,
                                y as int,
                                m % rri,
                                m / rri,
                                ax,
                                ay,
                            );
                            assert(pair_below(l, l.len() as int, m % rri, m / rri, ax, ay)
                                == line_pair(x as int, y as int, m % rri, m / rri, ax, ay));
                            if 0 <= m < n {
                                assert(pair_below(l, i as int, m % rri, m / rri, ax, ay)
                                    == pair_below(l, l.len() as int, m % rri, m / rri, ax, ay));
                            }
                        }
                        assert(table_prefix_ok(shading@, rri, permissive));
                    }
                } else {
                    proof {
                        assert forall|m: int, ax: int, ay: int| 0 <= m <= n implies (
                        #[trigger] shading@[m].at(ax, ay)) == shades_upto(
                            rri,
                            permissive,
                            n + 1,
                            m % rri,
                            m / rri,
                            ax,
                            ay,
                        ) by {
                            lemma_upto_extend(
                                rri,
                                permissive,
                                x as int,
                                y as int,
                                m % rri,
                                m / rri,
                                ax,
                                ay,
                            );
                            if m == n {
                                lemma_rowmajor_inverse(x as int, y as int, rri);
                                lemma_upto_self_false(
                                    rri,
                                    permissive,
                                    x as int,
                                    y as int,
                                    ax,
                                    ay,
                                );
                            }
                        }
                        assert(table_prefix_ok(shading@, rri, permissive));
                    }
                }
                x += 1;
            }
            proof {
                assert((y as int + 1) * rri == y as int * rri + rri) by (nonlinear_arith);
            }
            y += 1;
        }
        let mut range_shading: Vec<BitGrid> = Vec::new();
        let mut rad: usize = 1;
        while rad <= r_max
            invariant
                1 <= rad <= r_max + 1,
                rri == r_max as int,
                4 * rri * rri <= isize::MAX as int,
                rri <= isize::MAX as int,
                rri * rri <= isize::MAX as int,
                range_shading@.len() == rad - 1,
                forall|k: int|
                    0 <= k < rad - 1 ==> (#[trigger] range_shading@[k]).wf()
                        && range_shading@[k].width() == rri && range_shading@[k].height() == rri,
                forall|k: int, ax: int, ay: int|
                    0 <= k < rad - 1 ==> (#[trigger] range_shading@[k].at(ax, ay)) == mask_at(
                        rri,
                        k + 1,
                        ax,
                        ay,
                    ),
            decreases r_max + 1 - rad,
        {
            let mut mask = BitGrid::new(r_max, r_max, false);
            let mut my: usize = 0;
            while my < r_max
                invariant
                    my <= r_max,
                    1 <= rad <= r_max,
                    rri == r_max as int,
                    4 * rri * rri <= isize::MAX as int,
                    rri <= isize::MAX as int,
                    rri * rri <= isize::MAX as int,
                    mask.wf(),
                    mask.width() == rri,
                    mask.height() == rri,
                    forall|ax: int, ay: int|
                        (#[trigger] mask.at(ax, ay)) == (ay < my && mask_at(rri, rad as int, ax, ay)),
                decreases r_max - my,
            {
                let mut mx: usize = 0;
                while mx < r_max
                    invariant
                        mx <= r_max,
                        my < r_max,
                        1 <= rad <= r_max,
                        rri == r_max as int,
                        4 * rri * rri <= isize::MAX as int,
                        rri <= isize::MAX as int,
                        rri * rri <= isize::MAX as int,
                        mask.wf(),
                        mask.width() == rri,
                        mask.height() == rri,
                        forall|ax: int, ay: int|
                            (#[trigger] mask.at(ax, ay)) == ((ay < my || (ay == my && ax < mx))
                                && mask_at(rri, rad as int, ax, ay)),
                    decreases r_max - mx,
                {
                    proof {
                        assert(mx as int * mx as int + my as int * my as int
                            <= isize::MAX as int && 0 <= mx as int * mx as int && 0 <= my as int
                            * my as int && rad as int * rad as int <= isize::MAX as int
                            && 0 <= rad as int * rad as int) by (nonlinear_arith)
                            requires
                                0 <= (mx as int) && mx < rri,
                                0 <= (my as int) && my < rri,
                                1 <= (rad as int) && rad <= rri,
                                4 * rri * rri <= isize::MAX as int,
                        ;
                    }
                    let mxi = mx as isize;
                    let myi = my as isize;
                    let radi = rad as isize;
                    proof {
                        assert(mxi as int == mx as int && myi as int == my as int && radi as int
                            == rad as int);
                        assert(mxi as int * mxi as int == mx as int * mx as int && myi as int
                            * myi as int == my as int * my as int && radi as int * radi as int
                            == rad as int * rad as int) by (nonlinear_arith)
                            requires
                                mxi as int == mx as int,
                                myi as int == my as int,
                                radi as int == rad as int,
                        ;
                    }
                    let dist = mxi * mxi + myi * myi;
                    let ghost pre_mask = mask;
                    if dist >= radi * radi {
                        mask.set((mxi, myi), true);
                    }
                    proof {
                        assert forall|ax: int, ay: int| (#[trigger] mask.at(ax, ay)) == ((ay
                            < my as int || (ay == my as int && ax < mx as int + 1)) && mask_at(
                            rri,
                            rad as int,
                            ax,
                            ay,
                        )) by {
                            if ax == mx as int && ay == my as int {
                                assert(mask_at(rri, rad as int, ax, ay) == (dist as int
                                    >= rad as int * rad as int));
                            } else {
                                assert(mask.at(ax, ay) == pre_mask.at(ax, ay));
                            }
                        }
                    }
                    mx += 1;
                }
                my += 1;
            }
            range_shading.push(mask);
            rad += 1;
        }
        let r = FOV { r_max, shading, range_shading };
        proof {
            assert forall|qx: int, qy: int, sx: int, sy: int|
                (#[trigger] r.shading_at(qx, qy, sx, sy)) == shades(
                    rri,
                    permissive,
                    qx,
                    qy,
                    sx,
                    sy,
                ) by {
                lemma_upto_complete(rri, permissive, qx, qy, sx, sy);
                if 0 <= qx < rri && 0 <= qy < rri {
                    lemma_rowmajor_bound(qx, qy, qx, qy, rri);
                    lemma_rowmajor_inverse(qx, qy, rri);
                    assert(r.shading@[qy * rri + qx].at(sx, sy) == shades_upto(
                        rri,
                        permissive,
                        rri * rri,
                        qx,
                        qy,
                        sx,
                        sy,
                    ));
                } else {
                    if shades(rri, permissive, qx, qy, sx, sy) {
                        lemma_shades_props(rri, permissive, qx, qy, sx, sy);
                    }
                }
            }
            assert forall|qx: int, qy: int, sx: int, sy: int|
                #[trigger] r.shading_at(qx, qy, sx, sy) implies qx <= sx < rri && qy <= sy < rri
                && !(sx == qx && sy == qy) by {
                lemma_shades_props(rri, permissive, qx, qy, sx, sy);
            }
        }
        r
    }

    /// Runs one visibility query: folds the occupancy grid `state` (`true`
    /// cells block sight) through the table around `origin`, out to radius
    /// `r`, and returns the cursor over the visible coordinates.
    ///
    /// Fails with `InvalidRadius` exactly when `r` is zero or exceeds the
    /// table's maximum.
    pub fn compute(&self, state: &BitGrid, origin: (isize, isize), r: usize) -> (res: Result<
        FOVIter,
        Error,
    >)
        requires
            self.inv(),
            state.wf(),
            origin.0 + self.radius() <= isize::MAX as int,
            origin.0 - self.radius() >= isize::MIN as int,
            origin.1 + self.radius() <= isize::MAX as int,
            origin.1 - self.radius() >= isize::MIN as int,
        ensures
            (res is Err) <==> (r == 0 || r > self.radius()),
            match res {
                Ok(it) => is_query(*self, *state, origin.0 as int, origin.1 as int, r as int, it),
                Err(e) => e == Error::InvalidRadius,
            },
    {
        if r == 0 || r > self.r_max {
            return Err(Error::InvalidRadius);
        }
        let (x, y) = origin;
        let ghost rri = self.radius();
        let ghost oxi = x as int;
        let ghost oyi = y as int;
        let mut ne = self.range_shading[r - 1].clone();
        let mut se = ne.clone();
        let mut sw = ne.clone();
        let mut nw = ne.clone();
        let mut yo: usize = 0;
        while yo < self.r_max
            invariant
                yo <= self.r_max,
                rri == self.radius(),
                oxi == origin.0 as int,
                oyi == origin.1 as int,
                x == origin.0,
                y == origin.1,
                self.inv(),
                state.wf(),
                1 <= r <= self.r_max,
                origin.0 + rri <= isize::MAX as int,
                origin.0 - rri >= isize::MIN as int,
                origin.1 + rri <= isize::MAX as int,
                origin.1 - rri >= isize::MIN as int,
                ne.wf() && ne.width() == rri && ne.height() == rri,
                se.wf() && se.width() == rri && se.height() == rri,
                sw.wf() && sw.width() == rri && sw.height() == rri,
                nw.wf() && nw.width() == rri && nw.height() == rri,
                forall|cx: int, cy: int|
                    (#[trigger] ne.at(cx, cy)) == scan_grid(
                        *self,
                        *state,
                        oxi,
                        oyi,
                        1,
                        1,
                        r as int,
                        (yo * rri) as nat,
                        cx,
                        cy,
                    ),
                forall|cx: int, cy: int|
                    (#[trigger] nw.at(cx, cy)) == scan_grid(
                        *self,
                        *state,
                        oxi,
                        oyi,
                        -1,
                        1,
                        r as int,
                        (yo * rri) as nat,
                        cx,
                        cy,
                    ),
                forall|cx: int, cy: int|
                    (#[trigger] se.at(cx, cy)) == scan_grid(
                        *self,
                        *state,
                        oxi,
                        oyi,
                        1,
                        -1,
                        r as int,
                        (yo * rri) as nat,
                        cx,
                        cy,
                    ),
                forall|cx: int, cy: int|
                    (#[trigger] sw.at(cx, cy)) == scan_grid(
                        *self,
                        *state,
                        oxi,
                        oyi,
                        -1,
                        -1,
                        r as int,
                        (yo * rri) as nat,
                        cx,
                        cy,
                    ),
            decreases self.r_max - yo,
        {
            let mut xo: usize = 0;
            while xo < self.r_max
                invariant
                    xo <= self.r_max,
                    yo < self.r_max,
                    rri == self.radius(),
                    oxi == origin.0 as int,
                    oyi == origin.1 as int,
                    x == origin.0,
                    y == origin.1,
                    self.inv(),
                    state.wf(),
                    1 <= r <= self.r_max,
                    origin.0 + rri <= isize::MAX as int,
                    origin.0 - rri >= isize::MIN as int,
                    origin.1 + rri <= isize::MAX as int,
                    origin.1 - rri >= isize::MIN as int,
                    ne.wf() && ne.width() == rri && ne.height() == rri,
                    se.wf() && se.width() == rri && se.height() == rri,
                    sw.wf() && sw.width() == rri && sw.height() == rri,
                    nw.wf() && nw.width() == rri && nw.height() == rri,
                    forall|cx: int, cy: int|
                        (#[trigger] ne.at(cx, cy)) == scan_grid(
                            *self,
                            *state,
                            oxi,
                            oyi,
                            1,
                            1,
                            r as int,
                            (yo * rri + xo) as nat,
                            cx,
                            cy,
                        ),
                    forall|cx: int, cy: int|
                        (#[trigger] nw.at(cx, cy)) == scan_grid(
                            *self,
                            *state,
                            oxi,
                            oyi,
                            -1,
                            1,
                            r as int,
                            (yo * rri + xo) as nat,
                            cx,
                            cy,
                        ),
                    forall|cx: int, cy: int|
                        (#[trigger] se.at(cx, cy)) == scan_grid(
                            *self,
                            *state,
                            oxi,
                            oyi,
                            1,
                            -1,
                            r as int,
                            (yo * rri + xo) as nat,
                            cx,
                            cy,
                        ),
                    forall|cx: int, cy: int|
                        (#[trigger] sw.at(cx, cy)) == scan_grid(
                            *self,
                            *state,
                            oxi,
                            oyi,
                            -1,
                            -1,
                            r as int,
                            (yo * rri + xo) as nat,
                            cx,
                            cy,
                        ),
                decreases self.r_max - xo,
            {
                let ghost n = yo as int * rri + xo as int;
                proof {
                    lemma_rowmajor_bound(xo as int, yo as int, xo as int, yo as int, rri);
                    lemma_rowmajor_inverse(xo as int, yo as int, rri);
                    lemma_radius_fits(rri);
                    assert((n + 1) as nat == n as nat + 1);
                }
                let xoyo = (xo as isize, yo as isize);
                let shade = &self.shading[yo * self.r_max + xo];
                let gate_ne = !ne.get(xoyo) && state.get((x + xo as isize, y + yo as isize));
                if gate_ne {
                    let _ = ne.bitwise_or(shade);
                }
                let gate_nw = !nw.get(xoyo) && state.get((x - xo as isize, y + yo as isize));
                if gate_nw {
                    let _ = nw.bitwise_or(shade);
                }
                let gate_se = !se.get(xoyo) && state.get((x + xo as isize, y - yo as isize));
                if gate_se {
                    let _ = se.bitwise_or(shade);
                }
                let gate_sw = !sw.get(xoyo) && state.get((x - xo as isize, y - yo as isize));
                if gate_sw {
                    let _ = sw.bitwise_or(shade);
                }
                proof {
                    assert(1 * xo as int == xo as int && (-1) * xo as int == -(xo as int) && 1 * yo
                        as int == yo as int && (-1) * yo as int == -(yo as int));
                }
                xo += 1;
            }
            proof {
                assert((yo as int + 1) * rri == yo as int * rri + rri) by (nonlinear_arith);
            }
            yo += 1;
        }
        let ri = self.r_max as isize;
        proof {
            lemma_radius_fits(rri);
        }
        let it = FOVIter {
            ne,
            se,
            sw,
            nw,
            mid_x: x,
            mid_y: y,
            min_x: x - ri + 1,
            max_x: x + ri - 1,
            max_y: y + ri - 1,
            x: x - ri + 1,
            y: y - ri + 1,
        };
        Ok(it)
    }
}

/// The radius bound that keeps every index and distance of the table inside
/// machine range also bounds the radius itself.
proof fn lemma_radius_fits(rri: int)
    by (nonlinear_arith)
    requires
        0 <= rri,
        4 * rri * rri <= isize::MAX as int,
    ensures
        rri <= isize::MAX as int,
        rri * rri <= isize::MAX as int,
{
}

/// What happens to the staged table when one cell of one shading grid is
/// marked: the invariant of the inner marking loop moves from `j` to
/// `j + 1` pairs of the current sightline cell.
proof fn lemma_shading_mark(
    pre: Seq<BitGrid>,
    post: Seq<BitGrid>,
    l: Seq<(int, int)>,
    rri: int,
    permissive: bool,
    n: int,
    i: int,
    j: int,
    mark_q: (int, int),
    ix: int,
)
    requires
        0 <= j < i < l.len(),
        0 <= n < rri * rri,
        0 < rri,
        pre.len() == n + 1,
        post.len() == n + 1,
        mark_q == l[i],
        0 <= mark_q.0 < rri,
        0 <= mark_q.1 < rri,
        ix == mark_q.1 * rri + mark_q.0,
        0 <= l[j].0 < rri,
        0 <= l[j].1 < rri,
        ix <= n,
        forall|m: int|
            0 <= m < pre.len() ==> (#[trigger] pre[m]).wf() && pre[m].width() == rri
                && pre[m].height() == rri,
        forall|m: int| 0 <= m < post.len() && m != ix ==> post[m] == pre[m],
        post[ix].wf(),
        post[ix].width() == rri,
        post[ix].height() == rri,
        post[ix].at(l[j].0, l[j].1) == true,
        forall|ax: int, ay: int|
            !(ax == l[j].0 && ay == l[j].1) ==> #[trigger] post[ix].at(ax, ay) == pre[ix].at(
                ax,
                ay,
            ),
        forall|m: int, ax: int, ay: int|
            0 <= m <= n ==> (#[trigger] pre[m].at(ax, ay)) == (shades_upto(
                rri,
                permissive,
                n,
                m % rri,
                m / rri,
                ax,
                ay,
            ) || pair_below(l, i, m % rri, m / rri, ax, ay) || (l[i] == (m % rri, m / rri)
                && exists|j2: int| #![trigger l[j2]] 0 <= j2 < j && l[j2] == (ax, ay))),
    ensures
        forall|m: int, ax: int, ay: int|
            0 <= m <= n ==> (#[trigger] post[m].at(ax, ay)) == (shades_upto(
                rri,
                permissive,
                n,
                m % rri,
                m / rri,
                ax,
                ay,
            ) || pair_below(l, i, m % rri, m / rri, ax, ay) || (l[i] == (m % rri, m / rri)
                && exists|j2: int| #![trigger l[j2]] 0 <= j2 < j + 1 && l[j2] == (ax, ay))),
{
    lemma_rowmajor_inverse(mark_q.0, mark_q.1, rri);
    assert forall|m: int, ax: int, ay: int| 0 <= m <= n implies (#[trigger] post[m].at(ax, ay)) == (
    shades_upto(rri, permissive, n, m % rri, m / rri, ax, ay) || pair_below(
        l,
        i,
        m % rri,
        m / rri,
        ax,
        ay,
    ) || (l[i] == (m % rri, m / rri) && exists|j2: int|
        #![trigger l[j2]]
        0 <= j2 < j + 1 && l[j2] == (ax, ay))) by {
        vstd::arithmetic::div_mod::lemma_fundamental_div_mod(m, rri);
        assert(m == rri * (m / rri) + m % rri);
        if m == ix {
            assert(m % rri == mark_q.0 && m / rri == mark_q.1);
            assert(l[i] == (m % rri, m / rri));
            if ax == l[j].0 && ay == l[j].1 {
                assert(post[m].at(ax, ay));
                assert(l[j] == (ax, ay));
                assert(exists|j2: int| #![trigger l[j2]] 0 <= j2 < j + 1 && l[j2] == (ax, ay));
            } else {
                assert(post[m].at(ax, ay) == pre[m].at(ax, ay));
                if exists|j2: int| #![trigger l[j2]] 0 <= j2 < j + 1 && l[j2] == (ax, ay) {
                    let j2 = choose|j2: int|
                        #![trigger l[j2]]
                        0 <= j2 < j + 1 && l[j2] == (ax, ay);
                    assert(j2 != j);
                    assert(0 <= j2 < j && l[j2] == (ax, ay));
                }
            }
        } else {
            assert(post[m].at(ax, ay) == pre[m].at(ax, ay));
            if l[i] == (m % rri, m / rri) {
                assert(m == (m / rri) * rri + m % rri) by (nonlinear_arith)
                    requires
                        m == rri * (m / rri) + m % rri,
                ;
                assert(m == ix);
                assert(false);
            }
        }
    }
}

/// Extending the processed prefix of a sightline by one cell adds exactly
/// the pairs whose later element is that cell.
proof fn lemma_pair_below_extend(l: Seq<(int, int)>, i: int, qx: int, qy: int, sx: int, sy: int)
    requires
        0 <= i < l.len(),
    ensures
        pair_below(l, i + 1, qx, qy, sx, sy) == (pair_below(l, i, qx, qy, sx, sy) || (l[i] == (
            qx,
            qy,
        ) && exists|j2: int| #![trigger l[j2]] 0 <= j2 < i && l[j2] == (sx, sy))),
{
    if pair_below(l, i + 1, qx, qy, sx, sy) {
        let (i2, j2): (int, int) = choose|i2: int, j2: int|
            #![trigger l[i2], l[j2]]
            0 <= j2 < i2 < i + 1 && i2 < l.len() && l[i2] == (qx, qy) && l[j2] == (sx, sy);
        if i2 == i {
            assert(l[i] == (qx, qy));
            assert(0 <= j2 < i && l[j2] == (sx, sy));
        } else {
            assert(pair_below(l, i, qx, qy, sx, sy));
        }
    }
    if pair_below(l, i, qx, qy, sx, sy) {
        let (i2, j2): (int, int) = choose|i2: int, j2: int|
            #![trigger l[i2], l[j2]]
            0 <= j2 < i2 < i && i2 < l.len() && l[i2] == (qx, qy) && l[j2] == (sx, sy);
        assert(0 <= j2 < i2 < i + 1 && i2 < l.len() && l[i2] == (qx, qy) && l[j2] == (sx, sy));
        assert(pair_below(l, i + 1, qx, qy, sx, sy));
    }
    if l[i] == (qx, qy) && exists|j2: int| #![trigger l[j2]] 0 <= j2 < i && l[j2] == (sx, sy) {
        let j2 = choose|j2: int| #![trigger l[j2]] 0 <= j2 < i && l[j2] == (sx, sy);
        assert(0 <= j2 < i + 1 - 1 < l.len());
        assert(l[i] == (qx, qy) && l[j2] == (sx, sy));
        assert(pair_below(l, i + 1, qx, qy, sx, sy));
    }
}

/// One compass quadrant's occlusion grid after `k` steps of the query scan:
/// seeded with the range mask for the query radius, then, for each
/// quadrant-local offset in row-major order, OR-ed with that offset's
/// shading grid when the offset is not already occluded and the occupancy
/// grid holds a blocker at the corresponding absolute cell (`qsx`, `qsy`
/// pick the quadrant's direction on each axis).
pub open spec fn scan_grid(
    t: FOV,
    occ: BitGrid,
    ox: int,
    oy: int,
    qsx: int,
    qsy: int,
    rad: int,
    k: nat,
    cx: int,
    cy: int,
) -> bool
    decreases k,
{
    if k == 0 {
        mask_at(t.radius(), rad, cx, cy)
    } else {
        let n = (k - 1) as int;
        let rr = t.radius();
        let xo = n % rr;
        let yo = n / rr;
        scan_grid(t, occ, ox, oy, qsx, qsy, rad, (k - 1) as nat, cx, cy) || (!scan_grid(
            t,
            occ,
            ox,
            oy,
            qsx,
            qsy,
            rad,
            (k - 1) as nat,
            xo,
            yo,
        ) && occ.at(ox + qsx * xo, oy + qsy * yo) && t.shading_at(xo, yo, cx, cy))
    }
}

/// The result of one visibility query cursor, viewed against the table,
/// occupancy grid, origin and radius it was computed from: each quadrant
/// grid holds exactly the fully scanned occlusions, and the cursor stands
/// at the start of the bounding square.
pub closed spec fn is_query(
    t: FOV,
    occ: BitGrid,
    ox: int,
    oy: int,
    rad: int,
    it: FOVIter,
) -> bool {
    let steps = (t.radius() * t.radius()) as nat;
    &&& it.wf()
    &&& it.span() == t.radius()
    &&& it.mid_x as int == ox
    &&& it.mid_y as int == oy
    &&& it.x == it.min_x
    &&& it.y as int == it.min_y()
    &&& forall|cx: int, cy: int|
        (#[trigger] it.ne.at(cx, cy)) == scan_grid(t, occ, ox, oy, 1, 1, rad, steps, cx, cy)
    &&& forall|cx: int, cy: int|
        (#[trigger] it.nw.at(cx, cy)) == scan_grid(t, occ, ox, oy, -1, 1, rad, steps, cx, cy)
    &&& forall|cx: int, cy: int|
        (#[trigger] it.se.at(cx, cy)) == scan_grid(t, occ, ox, oy, 1, -1, rad, steps, cx, cy)
    &&& forall|cx: int, cy: int|
        (#[trigger] it.sw.at(cx, cy)) == scan_grid(t, occ, ox, oy, -1, -1, rad, steps, cx, cy)
}

/// A single-pass cursor over the visible coordinates of one query, in
/// row-major scan order over the bounding square centered on the origin.
pub struct FOVIter {
    ne: BitGrid,
    se: BitGrid,
    sw: BitGrid,
    nw: BitGrid,
    mid_x: isize,
    mid_y: isize,
    min_x: isize,
    max_x: isize,
    max_y: isize,
    x: isize,
    y: isize,
}

impl FOVIter {
    /// The table radius the query was computed at.
    pub closed spec fn span(self) -> int {
        self.ne.width()
    }

    /// The smallest scanned row.
    pub closed spec fn min_y(self) -> int {
        self.mid_y - self.span() + 1
    }

    /// Well-formed cursor state: four square quadrant grids of equal size,
    /// scan bounds centered on the origin, the cursor inside the bounding
    /// square (or one row past it, when exhausted), and enough headroom
    /// that advancing the cursor stays in machine range.
    pub closed spec fn wf(self) -> bool {
        &&& self.ne.wf() && self.se.wf() && self.sw.wf() && self.nw.wf()
        &&& self.ne.width() == self.span() && self.ne.height() == self.span()
        &&& self.se.width() == self.span() && self.se.height() == self.span()
        &&& self.sw.width() == self.span() && self.sw.height() == self.span()
        &&& self.nw.width() == self.span() && self.nw.height() == self.span()
        &&& self.span() >= 1
        &&& self.min_x as int == self.mid_x - self.span() + 1
        &&& self.max_x as int == self.mid_x + self.span() - 1
        &&& self.max_y as int == self.mid_y + self.span() - 1
        &&& self.min_x <= self.x <= self.max_x
        &&& self.min_y() <= self.y as int <= self.max_y + 1
        &&& self.mid_x + self.span() <= isize::MAX as int
        &&& self.mid_x - self.span() >= isize::MIN as int
        &&& self.mid_y + self.span() <= isize::MAX as int
        &&& self.mid_y - self.span() >= isize::MIN as int
    }

    /// Whether the query marked absolute coordinate `(cx, cy)` occluded:
    /// the lookup selects the quadrant by comparing against the origin and
    /// reads the quadrant-local offset.
    pub closed spec fn blocked(self, cx: int, cy: int) -> bool {
        if cx >= self.mid_x {
            if cy >= self.mid_y {
                self.ne.at(cx - self.mid_x, cy - self.mid_y)
            } else {
                self.se.at(cx - self.mid_x, self.mid_y - cy)
            }
        } else {
            if cy >= self.mid_y {
                self.nw.at(self.mid_x - cx, cy - self.mid_y)
            } else {
                self.sw.at(self.mid_x - cx, self.mid_y - cy)
            }
        }
    }

    /// Whether `(cx, cy)` lies in the scanned bounding square.
    pub closed spec fn in_span(self, cx: int, cy: int) -> bool {
        self.min_x <= cx <= self.max_x && self.min_y() <= cy <= self.max_y
    }

    /// The coordinates this sequence produces over its whole life: the
    /// unoccluded cells of the bounding square.
    pub closed spec fn visible(self, cx: int, cy: int) -> bool {
        self.in_span(cx, cy) && !self.blocked(cx, cy)
    }

    /// Row-major scan position of a coordinate within the bounding square.
    pub closed spec fn pos(self, cx: int, cy: int) -> int {
        (cy - self.min_y()) * (2 * self.span() - 1) + (cx - self.min_x)
    }

    /// Scan position of the cursor itself.
    pub closed spec fn cursor_pos(self) -> int {
        self.pos(self.x as int, self.y as int)
    }

    /// Whether the sequence is exhausted.
    pub closed spec fn done(self) -> bool {
        self.y > self.max_y
    }

    /// The origin the query was computed around.
    pub closed spec fn origin(self) -> (int, int) {
        (self.mid_x as int, self.mid_y as int)
    }

    /// The next visible coordinate in row-major scan order, or `None` when
    /// the square is exhausted. Non-restartable: each yielded coordinate
    /// advances the cursor past it, and every cell the cursor skips is
    /// occluded.
    pub fn next(&mut self) -> (res: Option<(isize, isize)>)
        requires
            old(self).wf(),
        ensures
            final(self).wf(),
            final(self).span() == old(self).span(),
            final(self).origin() == old(self).origin(),
            forall|cx: int, cy: int|
                (#[trigger] final(self).visible(cx, cy)) == old(self).visible(cx, cy),
            match res {
                Some(c) => {
                    &&& old(self).visible(c.0 as int, c.1 as int)
                    &&& old(self).cursor_pos() <= old(self).pos(c.0 as int, c.1 as int)
                    &&& forall|cx: int, cy: int|
                        #[trigger] old(self).in_span(cx, cy) && old(self).cursor_pos() <= old(
                            self,
                        ).pos(cx, cy) < old(self).pos(c.0 as int, c.1 as int) ==> old(
                            self,
                        ).blocked(cx, cy)
                    &&& final(self).cursor_pos() == old(self).pos(c.0 as int, c.1 as int) + 1
                },
                None => {
                    &&& forall|cx: int, cy: int|
                        #[trigger] old(self).in_span(cx, cy) && old(self).pos(cx, cy) >= old(
                            self,
                        ).cursor_pos() ==> old(self).blocked(cx, cy)
                    &&& final(self).done()
                },
            },
    {
        let ghost orig = *self;
        let mut result: Option<(isize, isize)> = None;
        loop
            invariant_except_break
                self.wf(),
                self.ne == orig.ne,
                self.se == orig.se,
                self.sw == orig.sw,
                self.nw == orig.nw,
                self.mid_x == orig.mid_x,
                self.mid_y == orig.mid_y,
                self.min_x == orig.min_x,
                self.max_x == orig.max_x,
                self.max_y == orig.max_y,
                orig.wf(),
                orig.cursor_pos() <= self.cursor_pos(),
                forall|cx: int, cy: int|
                    #[trigger] orig.in_span(cx, cy) && orig.cursor_pos() <= orig.pos(cx, cy)
                        < self.cursor_pos() ==> orig.blocked(cx, cy),
            ensures
                self.wf(),
                self.ne == orig.ne,
                self.se == orig.se,
                self.sw == orig.sw,
                self.nw == orig.nw,
                self.mid_x == orig.mid_x,
                self.mid_y == orig.mid_y,
                self.min_x == orig.min_x,
                self.max_x == orig.max_x,
                self.max_y == orig.max_y,
                match result {
                    Some(c) => {
                        &&& orig.visible(c.0 as int, c.1 as int)
                        &&& orig.cursor_pos() <= orig.pos(c.0 as int, c.1 as int)
                        &&& forall|cx: int, cy: int|
                            #[trigger] orig.in_span(cx, cy) && orig.cursor_pos() <= orig.pos(
                                cx,
                                cy,
                            ) < orig.pos(c.0 as int, c.1 as int) ==> orig.blocked(cx, cy)
                        &&& self.cursor_pos() == orig.pos(c.0 as int, c.1 as int) + 1
                    },
                    None => {
                        &&& forall|cx: int, cy: int|
                            #[trigger] orig.in_span(cx, cy) && orig.pos(cx, cy)
                                >= orig.cursor_pos() ==> orig.blocked(cx, cy)
                        &&& self.done()
                    },
                },
            decreases self.max_y as int + 1 - self.y as int, self.max_x as int + 1 - self.x as int,
        {
            if self.y > self.max_y {
                proof {
                    lemma_pos_past_end(orig, *self);
                }
                result = None;
                break;
            }
            let xy = (self.x, self.y);
            let was_blocked = if self.x >= self.mid_x {
                if self.y >= self.mid_y {
                    self.ne.get((self.x - self.mid_x, self.y - self.mid_y))
                } else {
                    self.se.get((self.x - self.mid_x, self.mid_y - self.y))
                }
            } else {
                if self.y >= self.mid_y {
                    self.nw.get((self.mid_x - self.x, self.y - self.mid_y))
                } else {
                    self.sw.get((self.mid_x - self.x, self.mid_y - self.y))
                }
            };
            let ghost at_cell = *self;
            self.x = self.x + 1;
            if self.x > self.max_x {
                self.x = self.min_x;
                self.y = self.y + 1;
            }
            proof {
                lemma_pos_step(orig, at_cell, *self);
                assert(orig.blocked(at_cell.x as int, at_cell.y as int) == was_blocked);
            }
            if !was_blocked {
                result = Some(xy);
                break;
            }
        }
        proof {
            assert forall|cx: int, cy: int| (#[trigger] self.visible(cx, cy)) == orig.visible(
                cx,
                cy,
            ) by {
                assert(self.blocked(cx, cy) == orig.blocked(cx, cy));
            }
        }
        result
    }
}

/// An empty occupancy grid never fires a scan step, so each quadrant grid
/// stays exactly the range mask it was seeded with.
proof fn lemma_scan_empty(
    t: FOV,
    occ: BitGrid,
    ox: int,
    oy: int,
    qsx: int,
    qsy: int,
    rad: int,
    k: nat,
    cx: int,
    cy: int,
)
    requires
        forall|ax: int, ay: int| !occ.at(ax, ay),
    ensures
        scan_grid(t, occ, ox, oy, qsx, qsy, rad, k, cx, cy) == mask_at(t.radius(), rad, cx, cy),
    decreases k,
{
    if k > 0 {
        lemma_scan_empty(t, occ, ox, oy, qsx, qsy, rad, (k - 1) as nat, cx, cy);
    }
}

/// With no blockers anywhere in the occupancy grid, a query sees exactly
/// the coordinates whose squared distance from the origin is less than the
/// query radius squared.
pub proof fn lemma_empty_occupancy(
    t: FOV,
    occ: BitGrid,
    origin: (int, int),
    rad: int,
    it: FOVIter,
    cx: int,
    cy: int,
)
    requires
        t.inv(),
        forall|ax: int, ay: int| !occ.at(ax, ay),
        1 <= rad <= t.radius(),
        is_query(t, occ, origin.0, origin.1, rad, it),
    ensures
        it.visible(cx, cy) == ((cx - origin.0) * (cx - origin.0) + (cy - origin.1) * (cy
            - origin.1) < rad * rad),
{
    let rri = t.radius();
    let steps = (rri * rri) as nat;
    let ox = origin.0;
    let oy = origin.1;
    let qx = if cx >= ox {
        cx - ox
    } else {
        ox - cx
    };
    let qy = if cy >= oy {
        cy - oy
    } else {
        oy - cy
    };
    let qsx: int = if cx >= ox {
        1
    } else {
        -1
    };
    let qsy: int = if cy >= oy {
        1
    } else {
        -1
    };
    lemma_scan_empty(t, occ, ox, oy, qsx, qsy, rad, steps, qx, qy);
    assert(it.blocked(cx, cy) == mask_at(rri, rad, qx, qy));
    assert(qx * qx == (cx - ox) * (cx - ox) && qy * qy == (cy - oy) * (cy - oy))
        by (nonlinear_arith)
        requires
            qx == (if cx >= ox { cx - ox } else { ox - cx }),
            qy == (if cy >= oy { cy - oy } else { oy - cy }),
    ;
    if it.in_span(cx, cy) {
        assert(0 <= qx < rri && 0 <= qy < rri);
    } else {
        assert(qx >= rri || qy >= rri);
        assert(qx * qx + qy * qy >= rad * rad) by (nonlinear_arith)
            requires
                0 <= qx,
                0 <= qy,
                qx >= rri || qy >= rri,
                1 <= rad <= rri,
        ;
    }
}

/// Widening the query radius only removes pre-occlusion: the quadrant grid
/// at the smaller radius is the grid at the larger one plus the smaller
/// radius's range mask, step for step of the scan.
proof fn lemma_scan_monotone(
    t: FOV,
    occ: BitGrid,
    ox: int,
    oy: int,
    qsx: int,
    qsy: int,
    r1: int,
    r2: int,
    k: nat,
    cx: int,
    cy: int,
)
    requires
        t.inv(),
        1 <= r1 <= r2 <= t.radius(),
    ensures
        scan_grid(t, occ, ox, oy, qsx, qsy, r1, k, cx, cy) == (scan_grid(
            t,
            occ,
            ox,
            oy,
            qsx,
            qsy,
            r2,
            k,
            cx,
            cy,
        ) || mask_at(t.radius(), r1, cx, cy)),
    decreases k,
{
    let rri = t.radius();
    assert(r1 * r1 <= r2 * r2) by (nonlinear_arith)
        requires
            1 <= r1 <= r2,
    ;
    if k > 0 {
        let n = (k - 1) as int;
        let xo = n % rri;
        let yo = n / rri;
        lemma_scan_monotone(t, occ, ox, oy, qsx, qsy, r1, r2, (k - 1) as nat, cx, cy);
        lemma_scan_monotone(t, occ, ox, oy, qsx, qsy, r1, r2, (k - 1) as nat, xo, yo);
        let g1p = scan_grid(t, occ, ox, oy, qsx, qsy, r1, (k - 1) as nat, xo, yo);
        let g2p = scan_grid(t, occ, ox, oy, qsx, qsy, r2, (k - 1) as nat, xo, yo);
        if g1p && !g2p {
            assert(mask_at(rri, r1, xo, yo));
            if occ.at(ox + qsx * xo, oy + qsy * yo) && t.shading_at(xo, yo, cx, cy) {
                assert(xo <= cx < rri && yo <= cy < rri);
                assert(cx * cx + cy * cy >= r1 * r1) by (nonlinear_arith)
                    requires
                        0 <= xo <= cx,
                        0 <= yo <= cy,
                        xo * xo + yo * yo >= r1 * r1,
                ;
                assert(mask_at(rri, r1, cx, cy));
            }
        }
    }
}

/// For a fixed table, occupancy grid and origin, the visible set at a
/// smaller radius is contained in the visible set at any larger one the
/// table supports.
pub proof fn lemma_radius_monotonic(
    t: FOV,
    occ: BitGrid,
    origin: (int, int),
    r1: int,
    r2: int,
    it1: FOVIter,
    it2: FOVIter,
    cx: int,
    cy: int,
)
    requires
        t.inv(),
        1 <= r1 <= r2 <= t.radius(),
        is_query(t, occ, origin.0, origin.1, r1, it1),
        is_query(t, occ, origin.0, origin.1, r2, it2),
    ensures
        it1.visible(cx, cy) ==> it2.visible(cx, cy),
{
    let rri = t.radius();
    let steps = (rri * rri) as nat;
    let ox = origin.0;
    let oy = origin.1;
    if it1.visible(cx, cy) {
        let qx = if cx >= ox {
            cx - ox
        } else {
            ox - cx
        };
        let qy = if cy >= oy {
            cy - oy
        } else {
            oy - cy
        };
        let qsx: int = if cx >= ox {
            1
        } else {
            -1
        };
        let qsy: int = if cy >= oy {
            1
        } else {
            -1
        };
        lemma_scan_monotone(t, occ, ox, oy, qsx, qsy, r1, r2, steps, qx, qy);
        assert(it1.blocked(cx, cy) == scan_grid(t, occ, ox, oy, qsx, qsy, r1, steps, qx, qy));
        assert(it2.blocked(cx, cy) == scan_grid(t, occ, ox, oy, qsx, qsy, r2, steps, qx, qy));
    }
}

/// Two queries computed from the same table, occupancy snapshot, origin and
/// radius agree cell for cell, and start their scans at the same position:
/// `compute` is deterministic.
pub proof fn lemma_compute_deterministic(
    t: FOV,
    occ: BitGrid,
    origin: (int, int),
    rad: int,
    it1: FOVIter,
    it2: FOVIter,
    cx: int,
    cy: int,
)
    requires
        is_query(t, occ, origin.0, origin.1, rad, it1),
        is_query(t, occ, origin.0, origin.1, rad, it2),
    ensures
        it1.visible(cx, cy) == it2.visible(cx, cy),
        it1.span() == it2.span(),
        it1.origin() == it2.origin(),
        it1.cursor_pos() == it2.cursor_pos(),
{
    assert(it1.blocked(cx, cy) == it2.blocked(cx, cy));
}

/// When the cursor has left the square, every in-square position lies
/// strictly before it in scan order.
proof fn lemma_pos_past_end(orig: FOVIter, cur: FOVIter)
    requires
        orig.wf(),
        cur.wf(),
        cur.mid_x == orig.mid_x,
        cur.mid_y == orig.mid_y,
        cur.min_x == orig.min_x,
        cur.max_x == orig.max_x,
        cur.max_y == orig.max_y,
        cur.ne == orig.ne,
        cur.y > cur.max_y,
    ensures
        forall|cx: int, cy: int|
            #[trigger] orig.in_span(cx, cy) ==> orig.pos(cx, cy) < cur.cursor_pos(),
{
    let w = 2 * orig.span() - 1;
    assert forall|cx: int, cy: int| #[trigger] orig.in_span(cx, cy) implies orig.pos(cx, cy)
        < cur.cursor_pos() by {
        assert((cy - orig.min_y()) * w + (cx - orig.min_x) < (cur.y as int - orig.min_y()) * w + (
        cur.x as int - orig.min_x)) by (nonlinear_arith)
            requires
                w == 2 * orig.span() - 1,
                orig.span() >= 1,
                orig.min_x <= cx <= orig.max_x,
                orig.min_y() <= cy <= orig.max_y,
                orig.max_x - orig.min_x == w - 1,
                cur.y > cur.max_y,
                cur.max_y == orig.max_y,
                orig.min_x <= cur.x,
                cur.y as int >= orig.min_y(),
        ;
    }
}

/// Advancing the cursor by one cell moves its scan position up by one, and
/// no other cell of the square shares the position it left.
proof fn lemma_pos_step(orig: FOVIter, at: FOVIter, nxt: FOVIter)
    requires
        orig.wf(),
        at.wf(),
        at.mid_x == orig.mid_x,
        at.mid_y == orig.mid_y,
        at.min_x == orig.min_x,
        at.max_x == orig.max_x,
        at.max_y == orig.max_y,
        at.ne == orig.ne,
        at.y <= at.max_y,
        nxt.mid_x == orig.mid_x,
        nxt.mid_y == orig.mid_y,
        nxt.min_x == orig.min_x,
        nxt.max_x == orig.max_x,
        nxt.max_y == orig.max_y,
        nxt.ne == orig.ne,
        if at.x == at.max_x {
            nxt.x == at.min_x && nxt.y as int == at.y as int + 1
        } else {
            nxt.x as int == at.x as int + 1 && nxt.y == at.y
        },
    ensures
        nxt.cursor_pos() == at.cursor_pos() + 1,
        orig.in_span(at.x as int, at.y as int),
        orig.pos(at.x as int, at.y as int) == at.cursor_pos(),
        forall|cx: int, cy: int|
            #[trigger] orig.in_span(cx, cy) && orig.pos(cx, cy) == at.cursor_pos() ==> cx == at.x
                as int && cy == at.y as int,
{
    let w = 2 * orig.span() - 1;
    if at.x == at.max_x {
        assert((at.y as int + 1 - orig.min_y()) * w == (at.y as int - orig.min_y()) * w + w)
            by (nonlinear_arith);
    }
    assert forall|cx: int, cy: int|
        #[trigger] orig.in_span(cx, cy) && orig.pos(cx, cy) == at.cursor_pos() implies cx == at.x
        as int && cy == at.y as int by {
        assert(cx == at.x as int && cy == at.y as int) by (nonlinear_arith)
            requires
                w == 2 * orig.span() - 1,
                orig.span() >= 1,
                orig.min_x <= cx <= orig.max_x,
                orig.max_x - orig.min_x == w - 1,
                orig.min_x <= at.x <= orig.max_x,
                (cy - orig.min_y()) * w + (cx - orig.min_x) == (at.y as int - orig.min_y()) * w + (
                at.x as int - orig.min_x),
        ;
    }
}

/// Bounds and direction of the full shading relation: a blocker occludes
/// only offsets at least as far out on both axes, inside the table, and
/// never itself.
proof fn lemma_shades_props(rr: int, permissive: bool, qx: int, qy: int, sx: int, sy: int)
    requires
        shades(rr, permissive, qx, qy, sx, sy),
    ensures
        0 <= qx <= sx < rr,
        0 <= qy <= sy < rr,
        !(sx == qx && sy == qy),
{
    let (px, py): (int, int) = choose|px: int, py: int|
        traced_source(rr, permissive, px, py) && #[trigger] line_pair(px, py, qx, qy, sx, sy);
    lemma_line_pair_props(px, py, qx, qy, sx, sy);
}

} // verus!
