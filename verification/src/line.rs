//! Integer line rasterization between two grid cells.
//!
//! `trace` produces the ordered sequence of cells on the straight line from
//! `p0` to `p1`, inclusive of both endpoints, by the classic integer
//! error-accumulation walk. `trace_spec` is the same walk written as a
//! mathematical recurrence; `trace` returns exactly that sequence, and
//! `lemma_trace_spec_props` proves the geometric facts the shadow-table
//! construction relies on: the walk starts at `p0`, ends at `p1`, stays in
//! the bounding box, approaches `p1` monotonically on each axis, and never
//! revisits a cell.

use vstd::prelude::*;

verus! {

/// Absolute difference.
pub open spec fn gap(a: int, b: int) -> int {
    if a > b {
        a - b
    } else {
        b - a
    }
}

/// The unit step that moves `a` toward `b` (toward smaller values when they
/// are equal, where it is never used).
pub open spec fn step_dir(a: int, b: int) -> int {
    if a < b {
        1
    } else {
        -1
    }
}

/// The walk's starting error term.
pub open spec fn init_err(dx: int, dy: int) -> int {
    if dx > dy {
        dx / 2
    } else {
        -(dy / 2)
    }
}

/// One step of the error-accumulation walk, unrolled as a recurrence over
/// the remaining fuel. Under `rec_ok` the fuel never runs out before the
/// endpoint is reached.
pub open spec fn trace_rec(
    x0: int,
    y0: int,
    x1: int,
    y1: int,
    dx: int,
    dy: int,
    sx: int,
    sy: int,
    err: int,
    fuel: nat,
) -> Seq<(int, int)>
    decreases fuel,
{
    if (x0 == x1 && y0 == y1) || fuel == 0 {
        seq![(x0, y0)]
    } else {
        let e2 = 2 * err;
        let xn = if e2 > -dx {
            x0 + sx
        } else {
            x0
        };
        let e1 = if e2 > -dx {
            err - dy
        } else {
            err
        };
        let yn = if e2 < dy {
            y0 + sy
        } else {
            y0
        };
        let en = if e2 < dy {
            e1 + dx
        } else {
            e1
        };
        seq![(x0, y0)] + trace_rec(xn, yn, x1, y1, dx, dy, sx, sy, en, (fuel - 1) as nat)
    }
}

/// The cells on the line from `(x0, y0)` to `(x1, y1)`, in walk order.
pub open spec fn trace_spec(x0: int, y0: int, x1: int, y1: int) -> Seq<(int, int)> {
    trace_rec(
        x0,
        y0,
        x1,
        y1,
        gap(x0, x1),
        gap(y0, y1),
        step_dir(x0, x1),
        step_dir(y0, y1),
        init_err(gap(x0, x1), gap(y0, y1)),
        (gap(x0, x1) + gap(y0, y1)) as nat,
    )
}

/// A `Vec` of cells, seen as a sequence of unbounded integer pairs.
pub open spec fn pts_view(s: Seq<(isize, isize)>) -> Seq<(int, int)> {
    s.map_values(|p: (isize, isize)| (p.0 as int, p.1 as int))
}

/// `m` lies between `a` and `b`, whichever way round they are.
pub open spec fn betw(a: int, m: int, b: int) -> bool {
    (a <= m <= b) || (b <= m <= a)
}

/// A reachable state of the walk toward `(x1, y1)`: steps of one, remaining
/// distances within the totals, and the error term exactly as accumulated.
pub(crate) open spec fn rec_ok(
    x0: int,
    y0: int,
    x1: int,
    y1: int,
    dx: int,
    dy: int,
    sx: int,
    sy: int,
    err: int,
) -> bool {
    &&& 0 <= dx
    &&& 0 <= dy
    &&& (sx == 1 || sx == -1)
    &&& (sy == 1 || sy == -1)
    &&& gap(x0, x1) <= dx
    &&& gap(y0, y1) <= dy
    &&& (sx == 1 ==> x0 <= x1)
    &&& (sx == -1 ==> x1 <= x0)
    &&& (sy == 1 ==> y0 <= y1)
    &&& (sy == -1 ==> y1 <= y0)
    &&& err == init_err(dx, dy) - (dx - gap(x0, x1)) * dy + (dy - gap(y0, y1)) * dx
}

/// Twice the starting error lies within `[-dy, dx]`.
proof fn lemma_init_err_bounds(dx: int, dy: int)
    requires
        0 <= dx,
        0 <= dy,
    ensures
        -dy <= 2 * init_err(dx, dy) <= dx,
{
    assert(dx == 2 * (dx / 2) + dx % 2);
    assert(dy == 2 * (dy / 2) + dy % 2);
}

/// At a reachable, unfinished state the walk never overshoots: a finished
/// axis is not stepped again, and at least one axis is stepped.
proof fn lemma_step_conditions(dx: int, dy: int, e0: int, a: int, b: int, err: int)
    requires
        0 <= dx,
        0 <= dy,
        0 <= a <= dx,
        0 <= b <= dy,
        !(a == dx && b == dy),
        -dy <= 2 * e0 <= dx,
        err == e0 - a * dy + b * dx,
    ensures
        2 * err > -dx ==> a < dx,
        2 * err < dy ==> b < dy,
        2 * err > -dx || 2 * err < dy,
{
    if a == dx {
        assert(2 * err <= -dx) by (nonlinear_arith)
            requires
                err == e0 - a * dy + b * dx,
                a == dx,
                0 <= b,
                b <= dy - 1,
                2 * e0 <= dx,
                0 <= dx,
                0 <= dy,
        ;
    }
    if b == dy {
        assert(2 * err >= dy) by (nonlinear_arith)
            requires
                err == e0 - a * dy + b * dx,
                b == dy,
                0 <= a,
                a <= dx - 1,
                -dy <= 2 * e0,
                0 <= dx,
                0 <= dy,
        ;
    }
    if !(2 * err > -dx) && !(2 * err < dy) {
        assert(dy <= 2 * err <= -dx);
        assert(dx == 0 && dy == 0);
        assert(a == dx && b == dy);
        assert(false);
    }
}

/// The accumulated error stays within one box-area of zero, so doubling it
/// never overflows a machine word whose range allows the walk.
proof fn lemma_err_bound(dx: int, dy: int, e0: int, a: int, b: int, err: int)
    by (nonlinear_arith)
    requires
        0 <= a <= dx,
        0 <= b <= dy,
        -dy <= 2 * e0 <= dx,
        err == e0 - a * dy + b * dx,
    ensures
        -(dy + dx * dy) <= err <= dx + dx * dy,
{
}

/// Geometric facts about a walk from a reachable state: it starts at the
/// state's cell, ends at the endpoint, stays inside the bounding box,
/// approaches the endpoint monotonically on each axis, and strictly
/// decreases the remaining distance from cell to cell.
pub(crate) proof fn lemma_trace_rec_props(
    x0: int,
    y0: int,
    x1: int,
    y1: int,
    dx: int,
    dy: int,
    sx: int,
    sy: int,
    err: int,
    fuel: nat,
)
    requires
        rec_ok(x0, y0, x1, y1, dx, dy, sx, sy, err),
        fuel >= gap(x0, x1) + gap(y0, y1),
    ensures
        ({
            let l = trace_rec(x0, y0, x1, y1, dx, dy, sx, sy, err, fuel);
            &&& l.len() >= 1
            &&& l[0] == (x0, y0)
            &&& l[l.len() - 1] == (x1, y1)
            &&& forall|k: int|
                #![trigger l[k]]
                0 <= k < l.len() ==> betw(x0, l[k].0, x1) && betw(y0, l[k].1, y1)
            &&& forall|k1: int, k2: int|
                #![trigger l[k1], l[k2]]
                0 <= k1 <= k2 < l.len() ==> gap(l[k2].0, x1) <= gap(l[k1].0, x1) && gap(
                    l[k2].1,
                    y1,
                ) <= gap(l[k1].1, y1)
            &&& forall|k1: int, k2: int|
                #![trigger l[k1], l[k2]]
                0 <= k1 < k2 < l.len() ==> gap(l[k2].0, x1) + gap(l[k2].1, y1) < gap(l[k1].0, x1)
                    + gap(l[k1].1, y1)
        }),
    decreases fuel,
{
    let l = trace_rec(x0, y0, x1, y1, dx, dy, sx, sy, err, fuel);
    if x0 == x1 && y0 == y1 {
        assert(l =~= seq![(x0, y0)]);
    } else {
        let a = dx - gap(x0, x1);
        let b = dy - gap(y0, y1);
        lemma_init_err_bounds(dx, dy);
        lemma_step_conditions(dx, dy, init_err(dx, dy), a, b, err);
        assert(fuel > 0);
        let e2 = 2 * err;
        let xn = if e2 > -dx {
            x0 + sx
        } else {
            x0
        };
        let e1 = if e2 > -dx {
            err - dy
        } else {
            err
        };
        let yn = if e2 < dy {
            y0 + sy
        } else {
            y0
        };
        let en = if e2 < dy {
            e1 + dx
        } else {
            e1
        };
        if e2 > -dx {
            assert(gap(xn, x1) == gap(x0, x1) - 1);
        }
        if e2 < dy {
            assert(gap(yn, y1) == gap(y0, y1) - 1);
        }
        assert(rec_ok(xn, yn, x1, y1, dx, dy, sx, sy, en)) by {
            assert(en == init_err(dx, dy) - (dx - gap(xn, x1)) * dy + (dy - gap(yn, y1)) * dx)
                by (nonlinear_arith)
                requires
                    err == init_err(dx, dy) - (dx - gap(x0, x1)) * dy + (dy - gap(y0, y1)) * dx,
                    en == (if 2 * err > -dx { err - dy } else { err }) + (if 2 * err < dy {
                        dx
                    } else {
                        0
                    }),
                    gap(xn, x1) == (if 2 * err > -dx { gap(x0, x1) - 1 } else { gap(x0, x1) }),
                    gap(yn, y1) == (if 2 * err < dy { gap(y0, y1) - 1 } else { gap(y0, y1) }),
            ;
        }
        lemma_trace_rec_props(xn, yn, x1, y1, dx, dy, sx, sy, en, (fuel - 1) as nat);
        let tail = trace_rec(xn, yn, x1, y1, dx, dy, sx, sy, en, (fuel - 1) as nat);
        assert(l =~= seq![(x0, y0)] + tail);
        assert(l.len() == 1 + tail.len());
        assert(forall|k: int| 1 <= k < l.len() ==> #[trigger] l[k] == tail[k - 1]);
        assert(gap(xn, x1) + gap(yn, y1) < gap(x0, x1) + gap(y0, y1));
        assert forall|k: int| #![trigger l[k]] 0 <= k < l.len() implies betw(x0, l[k].0, x1)
            && betw(y0, l[k].1, y1) by {
            if k >= 1 {
                assert(betw(xn, tail[k - 1].0, x1));
                assert(betw(yn, tail[k - 1].1, y1));
            }
        }
        assert forall|k1: int, k2: int|
            #![trigger l[k1], l[k2]]
        0 <= k1 <= k2 < l.len() implies gap(l[k2].0, x1) <= gap(l[k1].0, x1) && gap(l[k2].1, y1)
            <= gap(l[k1].1, y1) by {
            if k1 >= 1 {
                assert(gap(tail[k2 - 1].0, x1) <= gap(tail[k1 - 1].0, x1));
                assert(gap(tail[k2 - 1].1, y1) <= gap(tail[k1 - 1].1, y1));
            } else if k2 >= 1 {
                assert(gap(tail[k2 - 1].0, x1) <= gap(tail[0].0, x1));
                assert(gap(tail[k2 - 1].1, y1) <= gap(tail[0].1, y1));
                assert(tail[0] == (xn, yn));
            }
        }
        assert forall|k1: int, k2: int|
            #![trigger l[k1], l[k2]]
        0 <= k1 < k2 < l.len() implies gap(l[k2].0, x1) + gap(l[k2].1, y1) < gap(l[k1].0, x1) + gap(
            l[k1].1,
            y1,
        ) by {
            if k1 >= 1 {
                assert(gap(tail[k2 - 1].0, x1) + gap(tail[k2 - 1].1, y1) < gap(tail[k1 - 1].0, x1)
                    + gap(tail[k1 - 1].1, y1));
            } else {
                assert(gap(tail[k2 - 1].0, x1) + gap(tail[k2 - 1].1, y1) <= gap(tail[0].0, x1)
                    + gap(tail[0].1, y1));
                assert(tail[0] == (xn, yn));
            }
        }
    }
}

/// The geometric facts of `lemma_trace_rec_props`, stated of a whole traced
/// line from its starting cell.
pub(crate) proof fn lemma_trace_spec_props(x0: int, y0: int, x1: int, y1: int)
    ensures
        ({
            let l = trace_spec(x0, y0, x1, y1);
            &&& l.len() >= 1
            &&& l[0] == (x0, y0)
            &&& l[l.len() - 1] == (x1, y1)
            &&& forall|k: int|
                #![trigger l[k]]
                0 <= k < l.len() ==> betw(x0, l[k].0, x1) && betw(y0, l[k].1, y1)
            &&& forall|k1: int, k2: int|
                #![trigger l[k1], l[k2]]
                0 <= k1 <= k2 < l.len() ==> gap(l[k2].0, x1) <= gap(l[k1].0, x1) && gap(
                    l[k2].1,
                    y1,
                ) <= gap(l[k1].1, y1)
            &&& forall|k1: int, k2: int|
                #![trigger l[k1], l[k2]]
                0 <= k1 < k2 < l.len() ==> gap(l[k2].0, x1) + gap(l[k2].1, y1) < gap(l[k1].0, x1)
                    + gap(l[k1].1, y1)
        }),
{
    let dx = gap(x0, x1);
    let dy = gap(y0, y1);
    let e0 = init_err(dx, dy);
    assert(e0 == e0 - (dx - gap(x0, x1)) * dy + (dy - gap(y0, y1)) * dx) by (nonlinear_arith)
        requires
            dx == gap(x0, x1),
            dy == gap(y0, y1),
    ;
    lemma_trace_rec_props(
        x0,
        y0,
        x1,
        y1,
        dx,
        dy,
        step_dir(x0, x1),
        step_dir(y0, y1),
        e0,
        (dx + dy) as nat,
    );
}

/// The ordered cells of the line from `p0` to `p1`, both inclusive.
pub(crate) fn trace(p0: (isize, isize), p1: (isize, isize)) -> (r: Vec<(isize, isize)>)
    requires
        2 * (gap(p0.0 as int, p1.0 as int) * gap(p0.1 as int, p1.1 as int) + gap(
            p0.0 as int,
            p1.0 as int,
        ) + gap(p0.1 as int, p1.1 as int) + 1) <= isize::MAX as int,
    ensures
        pts_view(r@) == trace_spec(p0.0 as int, p0.1 as int, p1.0 as int, p1.1 as int),
{
    let (x1, y1) = p1;
    let mut x0 = p0.0;
    let mut y0 = p0.1;
    let mut vec: Vec<(isize, isize)> = Vec::new();
    let dx = if x0 > x1 {
        x0 - x1
    } else {
        x1 - x0
    };
    let dy = if y0 > y1 {
        y0 - y1
    } else {
        y1 - y0
    };
    let sx: isize = if x0 < x1 {
        1
    } else {
        -1
    };
    let sy: isize = if y0 < y1 {
        1
    } else {
        -1
    };
    let mut err: isize = if dx > dy {
        dx / 2
    } else {
        -(dy / 2)
    };
    let ghost ox = x0 as int;
    let ghost oy = y0 as int;
    let ghost mut fuel: int = dx as int + dy as int;
    proof {
        lemma_init_err_bounds(dx as int, dy as int);
        assert(err as int == init_err(dx as int, dy as int) - (dx as int - gap(
            x0 as int,
            x1 as int,
        )) * dy as int + (dy as int - gap(y0 as int, y1 as int)) * dx as int) by (nonlinear_arith)
            requires
                err as int == init_err(dx as int, dy as int),
                dx as int == gap(x0 as int, x1 as int),
                dy as int == gap(y0 as int, y1 as int),
        ;
        assert(trace_spec(ox, oy, x1 as int, y1 as int) =~= pts_view(vec@) + trace_rec(
            x0 as int,
            y0 as int,
            x1 as int,
            y1 as int,
            dx as int,
            dy as int,
            sx as int,
            sy as int,
            err as int,
            fuel as nat,
        ));
    }
    loop
        invariant
            ox == p0.0 as int,
            oy == p0.1 as int,
            x1 == p1.0,
            y1 == p1.1,
            rec_ok(
                x0 as int,
                y0 as int,
                x1 as int,
                y1 as int,
                dx as int,
                dy as int,
                sx as int,
                sy as int,
                err as int,
            ),
            0 <= gap(x0 as int, x1 as int) + gap(y0 as int, y1 as int) <= fuel,
            2 * (dx as int * dy as int + dx as int + dy as int + 1) <= isize::MAX as int,
            trace_spec(ox, oy, x1 as int, y1 as int) == pts_view(vec@) + trace_rec(
                x0 as int,
                y0 as int,
                x1 as int,
                y1 as int,
                dx as int,
                dy as int,
                sx as int,
                sy as int,
                err as int,
                fuel as nat,
            ),
        decreases fuel,
    {
        let ghost before_push = vec@;
        vec.push((x0, y0));
        proof {
            assert(pts_view(vec@) =~= pts_view(before_push).push((x0 as int, y0 as int)));
        }
        if x0 == x1 && y0 == y1 {
            proof {
                assert(trace_rec(
                    x0 as int,
                    y0 as int,
                    x1 as int,
                    y1 as int,
                    dx as int,
                    dy as int,
                    sx as int,
                    sy as int,
                    err as int,
                    fuel as nat,
                ) =~= seq![(x0 as int, y0 as int)]);
                assert(trace_spec(ox, oy, x1 as int, y1 as int) =~= pts_view(vec@));
            }
            return vec;
        }
        proof {
            lemma_init_err_bounds(dx as int, dy as int);
            lemma_step_conditions(
                dx as int,
                dy as int,
                init_err(dx as int, dy as int),
                dx as int - gap(x0 as int, x1 as int),
                dy as int - gap(y0 as int, y1 as int),
                err as int,
            );
            lemma_err_bound(
                dx as int,
                dy as int,
                init_err(dx as int, dy as int),
                dx as int - gap(x0 as int, x1 as int),
                dy as int - gap(y0 as int, y1 as int),
                err as int,
            );
        }
        let ghost pre_x0 = x0 as int;
        let ghost pre_y0 = y0 as int;
        let ghost pre_err = err as int;
        let err2 = 2 * err;
        if err2 > -dx {
            err = err - dy;
            x0 = x0 + sx;
        }
        if err2 < dy {
            err = err + dx;
            y0 = y0 + sy;
        }
        proof {
            assert(err as int == (if 2 * pre_err > -(dx as int) {
                pre_err - dy as int
            } else {
                pre_err
            }) + (if 2 * pre_err < dy as int {
                dx as int
            } else {
                0
            }));
            if 2 * pre_err > -(dx as int) {
                assert(gap(x0 as int, x1 as int) == gap(pre_x0, x1 as int) - 1);
            }
            if 2 * pre_err < dy as int {
                assert(gap(y0 as int, y1 as int) == gap(pre_y0, y1 as int) - 1);
            }
            assert(err as int == init_err(dx as int, dy as int) - (dx as int - gap(
                x0 as int,
                x1 as int,
            )) * dy as int + (dy as int - gap(y0 as int, y1 as int)) * dx as int)
                by (nonlinear_arith)
                requires
                    pre_err == init_err(dx as int, dy as int) - (dx as int - gap(
                        pre_x0,
                        x1 as int,
                    )) * dy as int + (dy as int - gap(pre_y0, y1 as int)) * dx as int,
                    err as int == (if 2 * pre_err > -(dx as int) {
                        pre_err - dy as int
                    } else {
                        pre_err
                    }) + (if 2 * pre_err < dy as int {
                        dx as int
                    } else {
                        0
                    }),
                    gap(x0 as int, x1 as int) == (if 2 * pre_err > -(dx as int) {
                        gap(pre_x0, x1 as int) - 1
                    } else {
                        gap(pre_x0, x1 as int)
                    }),
                    gap(y0 as int, y1 as int) == (if 2 * pre_err < dy as int {
                        gap(pre_y0, y1 as int) - 1
                    } else {
                        gap(pre_y0, y1 as int)
                    }),
            ;
            assert(trace_rec(
                pre_x0,
                pre_y0,
                x1 as int,
                y1 as int,
                dx as int,
                dy as int,
                sx as int,
                sy as int,
                pre_err,
                fuel as nat,
            ) =~= seq![(pre_x0, pre_y0)] + trace_rec(
                x0 as int,
                y0 as int,
                x1 as int,
                y1 as int,
                dx as int,
                dy as int,
                sx as int,
                sy as int,
                err as int,
                (fuel - 1) as nat,
            ));
            fuel = fuel - 1;
            assert(trace_spec(ox, oy, x1 as int, y1 as int) =~= pts_view(vec@) + trace_rec(
                x0 as int,
                y0 as int,
                x1 as int,
                y1 as int,
                dx as int,
                dy as int,
                sx as int,
                sy as int,
                err as int,
                fuel as nat,
            ));
        }
    }
}

} // verus!
