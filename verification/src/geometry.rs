//! Rasterization geometry: integer line interpolation and the disc
//! brush footprint.
//!
//! The line walk is the classic integer error-accumulator form: from
//! `(x1, y1)` it steps one cell at a time toward `(x2, y2)`, moving in
//! x, in y, or in both, so the result is an 8-connected path without
//! gaps that includes both endpoints and has exactly
//! `1 + max(|dx|, |dy|)` points.

use vstd::math::abs;
use vstd::prelude::*;

verus! {

/// Coordinates handed to the geometry are bounded so that the error
/// accumulator arithmetic stays well inside `i32`.
pub const COORD_LIMIT: i32 = 1048576;

/// The step direction that walks `from` toward `to`.
pub open spec fn step_sign(from: int, to: int) -> int {
    if from < to {
        1
    } else {
        -1
    }
}

/// A well-formed intermediate state of the line walk toward
/// `(x2, y2)`: the walker sits between the endpoints on both axes and
/// the error term carries the exact cross-product balance.
pub open spec fn line_ok(
    x: int,
    y: int,
    err: int,
    x2: int,
    y2: int,
    dx: int,
    dy: int,
    sx: int,
    sy: int,
) -> bool {
    &&& (sx == 1 || sx == -1)
    &&& (sy == 1 || sy == -1)
    &&& dx >= 0
    &&& dy >= 0
    &&& 0 <= (x2 - x) * sx <= dx
    &&& 0 <= (y2 - y) * sy <= dy
    &&& err == dx - dy + (x2 - x) * sx * dy - (y2 - y) * sy * dx
    &&& -COORD_LIMIT <= x2 <= COORD_LIMIT
    &&& -COORD_LIMIT <= y2 <= COORD_LIMIT
    &&& dx <= 2 * COORD_LIMIT
    &&& dy <= 2 * COORD_LIMIT
}

/// The points the walk emits from state `(x, y, err)` on, endpoint
/// included.
pub open spec fn line_rec(
    x: int,
    y: int,
    err: int,
    x2: int,
    y2: int,
    dx: int,
    dy: int,
    sx: int,
    sy: int,
) -> Seq<(i32, i32)>
    decreases (x2 - x) * sx + (y2 - y) * sy
        when line_ok(x, y, err, x2, y2, dx, dy, sx, sy)
        via line_rec_decreases
{
    if x == x2 && y == y2 {
        seq![(x as i32, y as i32)]
    } else {
        let e2 = 2 * err;
        let nx = if e2 > -dy {
            x + sx
        } else {
            x
        };
        let ny = if e2 < dx {
            y + sy
        } else {
            y
        };
        let nerr = err + (if e2 > -dy {
            -dy
        } else {
            0
        }) + (if e2 < dx {
            dx
        } else {
            0
        });
        seq![(x as i32, y as i32)] + line_rec(nx, ny, nerr, x2, y2, dx, dy, sx, sy)
    }
}

/// A non-final well-formed state steps toward the endpoint on every
/// fired axis and never off it.
proof fn lemma_line_step(
    x: int,
    y: int,
    err: int,
    x2: int,
    y2: int,
    dx: int,
    dy: int,
    sx: int,
    sy: int,
)
    requires
        line_ok(x, y, err, x2, y2, dx, dy, sx, sy),
        !(x == x2 && y == y2),
    ensures
        2 * err > -dy || 2 * err < dx,
        2 * err > -dy ==> (x2 - x) * sx >= 1,
        2 * err < dx ==> (y2 - y) * sy >= 1,
        line_ok(
            if 2 * err > -dy {
                x + sx
            } else {
                x
            },
            if 2 * err < dx {
                y + sy
            } else {
                y
            },
            err + (if 2 * err > -dy {
                -dy
            } else {
                0
            }) + (if 2 * err < dx {
                dx
            } else {
                0
            }),
            x2,
            y2,
            dx,
            dy,
            sx,
            sy,
        ),
{
    let rx = (x2 - x) * sx;
    let ry = (y2 - y) * sy;
    let e2 = 2 * err;

    // The walker is not at the endpoint, so at least one axis remains.
    assert(rx > 0 || ry > 0) by {
        if rx == 0 && ry == 0 {
            assert((x2 - x) * sx == 0 && (sx == 1 || sx == -1) ==> x2 - x == 0)
                by (nonlinear_arith);
            assert((y2 - y) * sy == 0 && (sy == 1 || sy == -1) ==> y2 - y == 0)
                by (nonlinear_arith);
        }
    }

    // Progress: at least one axis fires.
    assert(e2 > -dy || e2 < dx) by {
        if !(e2 > -dy) && !(e2 < dx) {
            assert(dx <= 2 * err && 2 * err <= -dy);
            assert(dx == 0 && dy == 0);
            assert(rx == 0 && ry == 0);
        }
    }

    // No overshoot in x: if x fires, some x distance remains.
    assert(e2 > -dy ==> rx >= 1) by {
        if rx == 0 {
            if ry == 0 {
            } else {
                assert(ry >= 1 && dy >= 1);
                assert(rx * dy == 0) by (nonlinear_arith)
                    requires
                        rx == 0,
                ;
                assert(err == dx - dy - ry * dx);
                assert(2 * (dx - dy - ry * dx) <= -dy) by (nonlinear_arith)
                    requires
                        ry >= 1,
                        dy >= 1,
                        dx >= 0,
                ;
            }
        }
    }

    // No overshoot in y: if y fires, some y distance remains.
    assert(e2 < dx ==> ry >= 1) by {
        if ry == 0 {
            if rx == 0 {
            } else {
                assert(rx >= 1);
                assert(ry * dx == 0) by (nonlinear_arith)
                    requires
                        ry == 0,
                ;
                assert(err == dx - dy + rx * dy);
                assert(2 * (dx - dy + rx * dy) >= dx) by (nonlinear_arith)
                    requires
                        rx >= 1,
                        dy >= 0,
                        dx >= 0,
                ;
            }
        }
    }

    let fx = e2 > -dy;
    let fy = e2 < dx;
    let nx = if fx {
        x + sx
    } else {
        x
    };
    let ny = if fy {
        y + sy
    } else {
        y
    };
    let nrx = (x2 - nx) * sx;
    let nry = (y2 - ny) * sy;

    assert(fx ==> nrx == rx - 1) by {
        assert((x2 - (x + sx)) * sx == (x2 - x) * sx - sx * sx) by (nonlinear_arith);
        assert(sx * sx == 1) by (nonlinear_arith)
            requires
                sx == 1 || sx == -1,
        ;
    }
    assert(!fx ==> nrx == rx);
    assert(fy ==> nry == ry - 1) by {
        assert((y2 - (y + sy)) * sy == (y2 - y) * sy - sy * sy) by (nonlinear_arith);
        assert(sy * sy == 1) by (nonlinear_arith)
            requires
                sy == 1 || sy == -1,
        ;
    }
    assert(!fy ==> nry == ry);

    let nerr = err + (if fx {
        -dy
    } else {
        0
    }) + (if fy {
        dx
    } else {
        0
    });
    assert(nerr == dx - dy + nrx * dy - nry * dx) by {
        assert(fx ==> nrx * dy == rx * dy - dy) by (nonlinear_arith)
            requires
                fx ==> nrx == rx - 1,
        ;
        assert(fy ==> nry * dx == ry * dx - dx) by (nonlinear_arith)
            requires
                fy ==> nry == ry - 1,
        ;
    }
}

#[via_fn]
proof fn line_rec_decreases(
    x: int,
    y: int,
    err: int,
    x2: int,
    y2: int,
    dx: int,
    dy: int,
    sx: int,
    sy: int,
) {
    if !(x == x2 && y == y2) {
        lemma_line_step(x, y, err, x2, y2, dx, dy, sx, sy);
    }
}

/// The whole rasterized line from `(x1, y1)` to `(x2, y2)`, both
/// endpoints included.
pub open spec fn line_seq(x1: int, y1: int, x2: int, y2: int) -> Seq<(i32, i32)> {
    line_rec(
        x1,
        y1,
        (abs(x2 - x1) as int) - (abs(y2 - y1) as int),
        x2,
        y2,
        (abs(x2 - x1) as int),
        (abs(y2 - y1) as int),
        step_sign(x1, x2),
        step_sign(y1, y2),
    )
}

/// The initial walk state is well formed.
pub proof fn lemma_line_seq_ok(x1: int, y1: int, x2: int, y2: int)
    requires
        -COORD_LIMIT <= x1 <= COORD_LIMIT,
        -COORD_LIMIT <= y1 <= COORD_LIMIT,
        -COORD_LIMIT <= x2 <= COORD_LIMIT,
        -COORD_LIMIT <= y2 <= COORD_LIMIT,
    ensures
        line_ok(
            x1,
            y1,
            (abs(x2 - x1) as int) - (abs(y2 - y1) as int),
            x2,
            y2,
            (abs(x2 - x1) as int),
            (abs(y2 - y1) as int),
            step_sign(x1, x2),
            step_sign(y1, y2),
        ),
{
    let dx = (abs(x2 - x1) as int);
    let dy = (abs(y2 - y1) as int);
    let sx = step_sign(x1, x2);
    let sy = step_sign(y1, y2);
    assert((x2 - x1) * sx == dx) by (nonlinear_arith)
        requires
            sx == step_sign(x1, x2),
            dx == (abs(x2 - x1) as int),
    ;
    assert((y2 - y1) * sy == dy) by (nonlinear_arith)
        requires
            sy == step_sign(y1, y2),
            dy == (abs(y2 - y1) as int),
    ;
    assert(dx - dy + dx * dy - dy * dx == dx - dy) by (nonlinear_arith);
}

/// Two raster cells that an 8-connected path may join directly:
/// at most one step apart on each axis, and not the same cell.
pub open spec fn adjacent(a: (i32, i32), b: (i32, i32)) -> bool {
    &&& abs(b.0 - a.0) <= 1
    &&& abs(b.1 - a.1) <= 1
    &&& !(a == b)
}

/// From a well-formed state the walk is non-empty, starts at the
/// current cell, ends at the endpoint, and every step joins adjacent
/// cells: an 8-connected path with no gaps.
pub proof fn lemma_line_rec_connected(
    x: int,
    y: int,
    err: int,
    x2: int,
    y2: int,
    dx: int,
    dy: int,
    sx: int,
    sy: int,
)
    requires
        line_ok(x, y, err, x2, y2, dx, dy, sx, sy),
    ensures
        line_rec(x, y, err, x2, y2, dx, dy, sx, sy).len() >= 1,
        line_rec(x, y, err, x2, y2, dx, dy, sx, sy)[0] == (x as i32, y as i32),
        line_rec(x, y, err, x2, y2, dx, dy, sx, sy).last() == (x2 as i32, y2 as i32),
        forall|k: int|
            0 <= k < line_rec(x, y, err, x2, y2, dx, dy, sx, sy).len() - 1 ==> adjacent(
                #[trigger] line_rec(x, y, err, x2, y2, dx, dy, sx, sy)[k],
                line_rec(x, y, err, x2, y2, dx, dy, sx, sy)[k + 1],
            ),
    decreases (x2 - x) * sx + (y2 - y) * sy,
{
    let s = line_rec(x, y, err, x2, y2, dx, dy, sx, sy);
    lemma_bounded_state(x, y, err, x2, y2, dx, dy, sx, sy);
    if x == x2 && y == y2 {
    } else {
        lemma_line_step(x, y, err, x2, y2, dx, dy, sx, sy);
        let e2 = 2 * err;
        let nx = if e2 > -dy {
            x + sx
        } else {
            x
        };
        let ny = if e2 < dx {
            y + sy
        } else {
            y
        };
        let nerr = err + (if e2 > -dy {
            -dy
        } else {
            0
        }) + (if e2 < dx {
            dx
        } else {
            0
        });
        lemma_step_shrinks(x, y, nx, ny, x2, y2, sx, sy);
        lemma_line_rec_connected(nx, ny, nerr, x2, y2, dx, dy, sx, sy);
        let rest = line_rec(nx, ny, nerr, x2, y2, dx, dy, sx, sy);
        assert(s == seq![(x as i32, y as i32)] + rest);
        assert(s[0] == (x as i32, y as i32));
        assert(s.last() == rest.last());
        lemma_bounded_state(nx, ny, nerr, x2, y2, dx, dy, sx, sy);
        assert(adjacent(s[0], s[1])) by {
            assert(s[1] == rest[0]);
            assert(rest[0] == (nx as i32, ny as i32));
            assert(nx != x || ny != y);
        }
        assert forall|k: int| 0 <= k < s.len() - 1 implies adjacent(#[trigger] s[k], s[k + 1]) by {
            if k > 0 {
                assert(s[k] == rest[k - 1]);
                assert(s[k + 1] == rest[k]);
            }
        }
    }
}

/// One walk step leaves the remaining distance of each axis the same
/// or one smaller.
proof fn lemma_step_shrinks(
    x: int,
    y: int,
    nx: int,
    ny: int,
    x2: int,
    y2: int,
    sx: int,
    sy: int,
)
    requires
        sx == 1 || sx == -1,
        sy == 1 || sy == -1,
        nx == x + sx || nx == x,
        ny == y + sy || ny == y,
    ensures
        nx == x + sx ==> (x2 - nx) * sx == (x2 - x) * sx - 1,
        nx == x ==> (x2 - nx) * sx == (x2 - x) * sx,
        ny == y + sy ==> (y2 - ny) * sy == (y2 - y) * sy - 1,
        ny == y ==> (y2 - ny) * sy == (y2 - y) * sy,
{
    assert(nx == x + sx ==> (x2 - nx) * sx == (x2 - x) * sx - sx * sx) by (nonlinear_arith);
    assert(ny == y + sy ==> (y2 - ny) * sy == (y2 - y) * sy - sy * sy) by (nonlinear_arith);
    assert(sx * sx == 1 && sy * sy == 1) by (nonlinear_arith)
        requires
            sx == 1 || sx == -1,
            sy == 1 || sy == -1,
    ;
}

/// Every cell the walk emits sits within three coordinate limits of
/// the origin.
pub proof fn lemma_line_rec_box(
    x: int,
    y: int,
    err: int,
    x2: int,
    y2: int,
    dx: int,
    dy: int,
    sx: int,
    sy: int,
)
    requires
        line_ok(x, y, err, x2, y2, dx, dy, sx, sy),
    ensures
        forall|k: int|
            0 <= k < line_rec(x, y, err, x2, y2, dx, dy, sx, sy).len() ==> {
                let p = #[trigger] line_rec(x, y, err, x2, y2, dx, dy, sx, sy)[k];
                -3 * COORD_LIMIT <= p.0 as int <= 3 * COORD_LIMIT && -3 * COORD_LIMIT <= p.1 as int
                    <= 3 * COORD_LIMIT
            },
    decreases (x2 - x) * sx + (y2 - y) * sy,
{
    let s = line_rec(x, y, err, x2, y2, dx, dy, sx, sy);
    lemma_bounded_state(x, y, err, x2, y2, dx, dy, sx, sy);
    if x == x2 && y == y2 {
    } else {
        lemma_line_step(x, y, err, x2, y2, dx, dy, sx, sy);
        let e2 = 2 * err;
        let nx = if e2 > -dy {
            x + sx
        } else {
            x
        };
        let ny = if e2 < dx {
            y + sy
        } else {
            y
        };
        let nerr = err + (if e2 > -dy {
            -dy
        } else {
            0
        }) + (if e2 < dx {
            dx
        } else {
            0
        });
        lemma_step_shrinks(x, y, nx, ny, x2, y2, sx, sy);
        lemma_line_rec_box(nx, ny, nerr, x2, y2, dx, dy, sx, sy);
        let rest = line_rec(nx, ny, nerr, x2, y2, dx, dy, sx, sy);
        assert(s == seq![(x as i32, y as i32)] + rest);
        assert forall|k: int| 0 <= k < s.len() implies {
            let p = #[trigger] s[k];
            -3 * COORD_LIMIT <= p.0 as int <= 3 * COORD_LIMIT && -3 * COORD_LIMIT <= p.1 as int <= 3
                * COORD_LIMIT
        } by {
            if k > 0 {
                assert(s[k] == rest[k - 1]);
            }
        }
    }
}

/// Every well-formed state sits within three coordinate limits of the
/// origin, so its cell survives the cast to `i32` unchanged.
proof fn lemma_bounded_state(
    x: int,
    y: int,
    err: int,
    x2: int,
    y2: int,
    dx: int,
    dy: int,
    sx: int,
    sy: int,
)
    requires
        line_ok(x, y, err, x2, y2, dx, dy, sx, sy),
    ensures
        -3 * COORD_LIMIT <= x <= 3 * COORD_LIMIT,
        -3 * COORD_LIMIT <= y <= 3 * COORD_LIMIT,
        x as i32 == x,
        y as i32 == y,
{
    let rx = (x2 - x) * sx;
    let ry = (y2 - y) * sy;
    assert(x == x2 - rx * sx && (if sx == 1 {
        x2 - x == rx
    } else {
        x2 - x == -rx
    })) by (nonlinear_arith)
        requires
            rx == (x2 - x) * sx,
            sx == 1 || sx == -1,
    ;
    assert(y == y2 - ry * sy && (if sy == 1 {
        y2 - y == ry
    } else {
        y2 - y == -ry
    })) by (nonlinear_arith)
        requires
            ry == (y2 - y) * sy,
            sy == 1 || sy == -1,
    ;
}

/// When the x span dominates, the walk advances in x every step, so
/// exactly the remaining x distance plus the current cell is emitted.
proof fn lemma_line_rec_len_x(
    x: int,
    y: int,
    err: int,
    x2: int,
    y2: int,
    dx: int,
    dy: int,
    sx: int,
    sy: int,
)
    requires
        line_ok(x, y, err, x2, y2, dx, dy, sx, sy),
        dx >= dy,
        2 * err >= dx - 2 * dy,
    ensures
        line_rec(x, y, err, x2, y2, dx, dy, sx, sy).len() == (x2 - x) * sx + 1,
    decreases (x2 - x) * sx + (y2 - y) * sy,
{
    let rx = (x2 - x) * sx;
    let ry = (y2 - y) * sy;
    if x == x2 && y == y2 {
        assert(rx == 0) by (nonlinear_arith)
            requires
                rx == (x2 - x) * sx,
                x == x2,
        ;
    } else {
        lemma_line_step(x, y, err, x2, y2, dx, dy, sx, sy);
        let e2 = 2 * err;
        // x fires on every step while the x span dominates.
        assert(e2 > -dy) by {
            if !(e2 > -dy) {
                // then 2 err == -dy exactly, and dx == dy
                assert(dx == dy);
                assert(err == dy * (rx - ry)) by (nonlinear_arith)
                    requires
                        err == dx - dy + rx * dy - ry * dx,
                        dx == dy,
                        rx == (x2 - x) * sx,
                        ry == (y2 - y) * sy,
                ;
                assert(dy * (2 * (rx - ry) + 1) == 0) by (nonlinear_arith)
                    requires
                        2 * (dy * (rx - ry)) == -dy,
                ;
                assert(dy == 0) by (nonlinear_arith)
                    requires
                        dy * (2 * (rx - ry) + 1) == 0,
                ;
                assert(rx == 0 && ry == 0);
                assert(false);
            }
        }
        let nx = x + sx;
        let ny = if e2 < dx {
            y + sy
        } else {
            y
        };
        let nerr = err + -dy + (if e2 < dx {
            dx
        } else {
            0
        });
        // The dominance invariant is preserved.
        assert(2 * nerr >= dx - 2 * dy);
        lemma_step_shrinks(x, y, nx, ny, x2, y2, sx, sy);
        lemma_line_rec_len_x(nx, ny, nerr, x2, y2, dx, dy, sx, sy);
        assert((x2 - nx) * sx == rx - 1) by (nonlinear_arith)
            requires
                rx == (x2 - x) * sx,
                nx == x + sx,
                sx == 1 || sx == -1,
        ;
    }
}

/// When the y span dominates, the walk advances in y every step.
proof fn lemma_line_rec_len_y(
    x: int,
    y: int,
    err: int,
    x2: int,
    y2: int,
    dx: int,
    dy: int,
    sx: int,
    sy: int,
)
    requires
        line_ok(x, y, err, x2, y2, dx, dy, sx, sy),
        dy >= dx,
        2 * err <= 2 * dx - dy,
    ensures
        line_rec(x, y, err, x2, y2, dx, dy, sx, sy).len() == (y2 - y) * sy + 1,
    decreases (x2 - x) * sx + (y2 - y) * sy,
{
    let rx = (x2 - x) * sx;
    let ry = (y2 - y) * sy;
    if x == x2 && y == y2 {
        assert(ry == 0) by (nonlinear_arith)
            requires
                ry == (y2 - y) * sy,
                y == y2,
        ;
    } else {
        lemma_line_step(x, y, err, x2, y2, dx, dy, sx, sy);
        let e2 = 2 * err;
        // y fires on every step while the y span dominates.
        assert(e2 < dx) by {
            if !(e2 < dx) {
                // then 2 err == dx exactly, and dx == dy
                assert(dx == dy);
                assert(err == dy * (rx - ry)) by (nonlinear_arith)
                    requires
                        err == dx - dy + rx * dy - ry * dx,
                        dx == dy,
                        rx == (x2 - x) * sx,
                        ry == (y2 - y) * sy,
                ;
                assert(dy * (2 * (rx - ry) - 1) == 0) by (nonlinear_arith)
                    requires
                        2 * (dy * (rx - ry)) == dx,
                        dx == dy,
                ;
                assert(dy == 0) by (nonlinear_arith)
                    requires
                        dy * (2 * (rx - ry) - 1) == 0,
                ;
                assert(rx == 0 && ry == 0);
                assert(false);
            }
        }
        let ny = y + sy;
        let nx = if e2 > -dy {
            x + sx
        } else {
            x
        };
        let nerr = err + (if e2 > -dy {
            -dy
        } else {
            0
        }) + dx;
        // The dominance invariant is preserved.
        assert(2 * nerr <= 2 * dx - dy);
        lemma_step_shrinks(x, y, nx, ny, x2, y2, sx, sy);
        lemma_line_rec_len_y(nx, ny, nerr, x2, y2, dx, dy, sx, sy);
        assert((y2 - ny) * sy == ry - 1) by (nonlinear_arith)
            requires
                ry == (y2 - y) * sy,
                ny == y + sy,
                sy == 1 || sy == -1,
        ;
    }
}

/// The rasterized line holds exactly `1 + max(|dx|, |dy|)` points.
pub proof fn lemma_line_seq_len(x1: int, y1: int, x2: int, y2: int)
    requires
        -COORD_LIMIT <= x1 <= COORD_LIMIT,
        -COORD_LIMIT <= y1 <= COORD_LIMIT,
        -COORD_LIMIT <= x2 <= COORD_LIMIT,
        -COORD_LIMIT <= y2 <= COORD_LIMIT,
    ensures
        line_seq(x1, y1, x2, y2).len() == 1 + (if abs(x2 - x1) >= abs(y2 - y1) {
            abs(x2 - x1)
        } else {
            abs(y2 - y1)
        }),
{
    let dx = abs(x2 - x1) as int;
    let dy = abs(y2 - y1) as int;
    let sx = step_sign(x1, x2);
    let sy = step_sign(y1, y2);
    let err = dx - dy;
    lemma_line_seq_ok(x1, y1, x2, y2);
    if dx >= dy {
        lemma_line_rec_len_x(x1, y1, err, x2, y2, dx, dy, sx, sy);
    } else {
        lemma_line_rec_len_y(x1, y1, err, x2, y2, dx, dy, sx, sy);
    }
}

/// Reversing the endpoints yields a path of the same length: the walk
/// is direction-symmetric in length.
pub proof fn lemma_line_length_symmetric(x1: int, y1: int, x2: int, y2: int)
    requires
        -COORD_LIMIT <= x1 <= COORD_LIMIT,
        -COORD_LIMIT <= y1 <= COORD_LIMIT,
        -COORD_LIMIT <= x2 <= COORD_LIMIT,
        -COORD_LIMIT <= y2 <= COORD_LIMIT,
    ensures
        line_seq(x1, y1, x2, y2).len() == line_seq(x2, y2, x1, y1).len(),
{
    lemma_line_seq_len(x1, y1, x2, y2);
    lemma_line_seq_len(x2, y2, x1, y1);
}

/// Walk the rasterized line from `(x1, y1)` to `(x2, y2)`, both
/// endpoints included, in order.
pub fn line_points(x1: i32, y1: i32, x2: i32, y2: i32) -> (r: Vec<(i32, i32)>)
    requires
        -COORD_LIMIT <= x1 <= COORD_LIMIT,
        -COORD_LIMIT <= y1 <= COORD_LIMIT,
        -COORD_LIMIT <= x2 <= COORD_LIMIT,
        -COORD_LIMIT <= y2 <= COORD_LIMIT,
    ensures
        r@ == line_seq(x1 as int, y1 as int, x2 as int, y2 as int),
{
    let ghost full = line_seq(x1 as int, y1 as int, x2 as int, y2 as int);
    let dx: i32 = if x2 >= x1 {
        x2 - x1
    } else {
        x1 - x2
    };
    let dy: i32 = if y2 >= y1 {
        y2 - y1
    } else {
        y1 - y2
    };
    let sx: i32 = if x1 < x2 {
        1
    } else {
        -1
    };
    let sy: i32 = if y1 < y2 {
        1
    } else {
        -1
    };
    let mut err: i32 = dx - dy;
    let mut x = x1;
    let mut y = y1;
    let mut points: Vec<(i32, i32)> = Vec::new();
    proof {
        lemma_line_seq_ok(x1 as int, y1 as int, x2 as int, y2 as int);
        assert(full =~= points@ + line_rec(
            x as int,
            y as int,
            err as int,
            x2 as int,
            y2 as int,
            dx as int,
            dy as int,
            sx as int,
            sy as int,
        ));
    }
    while x != x2 || y != y2
        invariant
            -COORD_LIMIT <= x2 <= COORD_LIMIT,
            -COORD_LIMIT <= y2 <= COORD_LIMIT,
            0 <= dx <= 2 * COORD_LIMIT,
            0 <= dy <= 2 * COORD_LIMIT,
            line_ok(
                x as int,
                y as int,
                err as int,
                x2 as int,
                y2 as int,
                dx as int,
                dy as int,
                sx as int,
                sy as int,
            ),
            -2 * (dx as int + dy as int) <= err as int <= 2 * (dx as int + dy as int),
            full == points@ + line_rec(
                x as int,
                y as int,
                err as int,
                x2 as int,
                y2 as int,
                dx as int,
                dy as int,
                sx as int,
                sy as int,
            ),
        decreases (x2 as int - x as int) * (sx as int) + (y2 as int - y as int) * (sy as int),
    {
        proof {
            lemma_bounded_state(
                x as int,
                y as int,
                err as int,
                x2 as int,
                y2 as int,
                dx as int,
                dy as int,
                sx as int,
                sy as int,
            );
            lemma_line_step(
                x as int,
                y as int,
                err as int,
                x2 as int,
                y2 as int,
                dx as int,
                dy as int,
                sx as int,
                sy as int,
            );
        }
        points.push((x, y));
        let e2 = 2 * err;
        proof {
            lemma_step_shrinks(
                x as int,
                y as int,
                if e2 as int > -(dy as int) {
                    x as int + sx as int
                } else {
                    x as int
                },
                if (e2 as int) < dx as int {
                    y as int + sy as int
                } else {
                    y as int
                },
                x2 as int,
                y2 as int,
                sx as int,
                sy as int,
            );
        }
        if e2 > -dy {
            err = err - dy;
            x = x + sx;
        }
        if e2 < dx {
            err = err + dx;
            y = y + sy;
        }
        proof {
            assert(full =~= points@ + line_rec(
                x as int,
                y as int,
                err as int,
                x2 as int,
                y2 as int,
                dx as int,
                dy as int,
                sx as int,
                sy as int,
            ));
        }
    }
    points.push((x, y));
    proof {
        assert(points@ =~= full);
    }
    points
}

/// The rasterized line is non-empty, runs from the first endpoint to
/// the second, and every consecutive pair of cells is adjacent: an
/// 8-connected path with no gaps, whichever octant the line lies in.
pub proof fn lemma_line_seq_connected(x1: int, y1: int, x2: int, y2: int)
    requires
        -COORD_LIMIT <= x1 <= COORD_LIMIT,
        -COORD_LIMIT <= y1 <= COORD_LIMIT,
        -COORD_LIMIT <= x2 <= COORD_LIMIT,
        -COORD_LIMIT <= y2 <= COORD_LIMIT,
    ensures
        line_seq(x1, y1, x2, y2).len() >= 1,
        line_seq(x1, y1, x2, y2)[0] == (x1 as i32, y1 as i32),
        line_seq(x1, y1, x2, y2).last() == (x2 as i32, y2 as i32),
        forall|k: int|
            0 <= k < line_seq(x1, y1, x2, y2).len() - 1 ==> adjacent(
                #[trigger] line_seq(x1, y1, x2, y2)[k],
                line_seq(x1, y1, x2, y2)[k + 1],
            ),
{
    lemma_line_seq_ok(x1, y1, x2, y2);
    lemma_line_rec_connected(
        x1,
        y1,
        (abs(x2 - x1) as int) - (abs(y2 - y1) as int),
        x2,
        y2,
        (abs(x2 - x1) as int),
        (abs(y2 - y1) as int),
        step_sign(x1, x2),
        step_sign(y1, y2),
    );
}

/// A degenerate line is the single shared endpoint.
pub proof fn lemma_line_degenerate(x: int, y: int)
    requires
        -COORD_LIMIT <= x <= COORD_LIMIT,
        -COORD_LIMIT <= y <= COORD_LIMIT,
    ensures
        line_seq(x, y, x, y) =~= seq![(x as i32, y as i32)],
{
    lemma_line_seq_ok(x, y, x, y);
}

/// The offset `(ox, oy)` lies in the filled disc approximation of
/// radius `r`: inside the circle of squared radius `r*r + r`.
pub open spec fn in_disc(ox: int, oy: int, r: int) -> bool {
    ox * ox + oy * oy < r * r + r
}

/// The disc cells of column offset `ox` with row offset `oy` or
/// greater, in increasing row order.
pub open spec fn disc_row(cx: int, cy: int, r: int, ox: int, oy: int) -> Seq<(i32, i32)>
    decreases r + 1 - oy,
{
    if oy > r {
        Seq::empty()
    } else {
        (if in_disc(ox, oy, r) {
            seq![((cx + ox) as i32, (cy + oy) as i32)]
        } else {
            Seq::empty()
        }) + disc_row(cx, cy, r, ox, oy + 1)
    }
}

/// The disc cells of column offset `ox` or greater, column by column.
pub open spec fn disc_rows(cx: int, cy: int, r: int, ox: int) -> Seq<(i32, i32)>
    decreases r + 1 - ox,
{
    if ox > r {
        Seq::empty()
    } else {
        disc_row(cx, cy, r, ox, -r) + disc_rows(cx, cy, r, ox + 1)
    }
}

/// The brush footprint around `(cx, cy)`: the center alone for size 1,
/// the filled disc of radius `size - 1` otherwise, in strict
/// lexicographic cell order.
pub open spec fn footprint_spec(cx: int, cy: int, size: int) -> Seq<(i32, i32)> {
    if size <= 1 {
        seq![(cx as i32, cy as i32)]
    } else {
        disc_rows(cx, cy, size - 1, -(size - 1))
    }
}

/// What one disc column holds: cells of that column, rows strictly
/// increasing, exactly those in the disc at or after the start row.
proof fn lemma_disc_row_elems(cx: int, cy: int, r: int, ox: int, oy: int)
    requires
        -4 * COORD_LIMIT <= cx <= 4 * COORD_LIMIT,
        -4 * COORD_LIMIT <= cy <= 4 * COORD_LIMIT,
        1 <= r <= 9,
        -r <= ox <= r,
        -r <= oy,
    ensures
        forall|k: int|
            0 <= k < disc_row(cx, cy, r, ox, oy).len() ==> (#[trigger] disc_row(
                cx,
                cy,
                r,
                ox,
                oy,
            )[k]).0 as int == cx + ox,
        forall|k: int|
            0 <= k < disc_row(cx, cy, r, ox, oy).len() ==> oy <= (#[trigger] disc_row(
                cx,
                cy,
                r,
                ox,
                oy,
            )[k]).1 as int - cy <= r && in_disc(ox, disc_row(cx, cy, r, ox, oy)[k].1 as int - cy, r),
        forall|k1: int, k2: int|
            0 <= k1 < k2 < disc_row(cx, cy, r, ox, oy).len() ==> ((#[trigger] disc_row(
                cx,
                cy,
                r,
                ox,
                oy,
            )[k1]).1 as int) < ((#[trigger] disc_row(cx, cy, r, ox, oy)[k2]).1 as int),
        forall|j: int|
            oy <= j <= r && in_disc(ox, j, r) ==> exists|k: int|
                0 <= k < disc_row(cx, cy, r, ox, oy).len() && (#[trigger] disc_row(
                    cx,
                    cy,
                    r,
                    ox,
                    oy,
                )[k]).1 as int == cy + j,
    decreases r + 1 - oy,
{
    let s = disc_row(cx, cy, r, ox, oy);
    if oy > r {
    } else {
        lemma_disc_row_elems(cx, cy, r, ox, oy + 1);
        let rest = disc_row(cx, cy, r, ox, oy + 1);
        if in_disc(ox, oy, r) {
            assert(s == seq![((cx + ox) as i32, (cy + oy) as i32)] + rest);
            assert(s[0].1 as int == cy + oy);
            assert forall|k: int| 1 <= k < s.len() implies s[k] == rest[k - 1] by {}
            assert forall|j: int|
                oy <= j <= r && in_disc(ox, j, r) implies exists|k: int|
                0 <= k < s.len() && (#[trigger] s[k]).1 as int == cy + j by {
                if j == oy {
                    assert(s[0].1 as int == cy + j);
                } else {
                    let k = choose|k: int|
                        0 <= k < rest.len() && (#[trigger] rest[k]).1 as int == cy + j;
                    assert(s[k + 1].1 as int == cy + j);
                }
            }
        } else {
            assert(s =~= rest);
        }
    }
}

/// What the disc columns hold from `ox` on: exactly the disc cells,
/// in strict lexicographic order.
proof fn lemma_disc_rows_elems(cx: int, cy: int, r: int, ox: int)
    requires
        -4 * COORD_LIMIT <= cx <= 4 * COORD_LIMIT,
        -4 * COORD_LIMIT <= cy <= 4 * COORD_LIMIT,
        1 <= r <= 9,
        -r <= ox,
    ensures
        forall|k: int|
            0 <= k < disc_rows(cx, cy, r, ox).len() ==> {
                let p = #[trigger] disc_rows(cx, cy, r, ox)[k];
                ox <= p.0 as int - cx <= r && -r <= p.1 as int - cy <= r && in_disc(
                    p.0 as int - cx,
                    p.1 as int - cy,
                    r,
                )
            },
        forall|k1: int, k2: int|
            0 <= k1 < k2 < disc_rows(cx, cy, r, ox).len() ==> {
                let p1 = #[trigger] disc_rows(cx, cy, r, ox)[k1];
                let p2 = #[trigger] disc_rows(cx, cy, r, ox)[k2];
                (p1.0 as int) < (p2.0 as int) || (p1.0 as int == p2.0 as int && (p1.1 as int) < (
                p2.1 as int))
            },
        forall|i: int, j: int|
            ox <= i <= r && -r <= j <= r && #[trigger] in_disc(i, j, r) ==> exists|k: int|
                0 <= k < disc_rows(cx, cy, r, ox).len() && #[trigger] disc_rows(cx, cy, r, ox)[k]
                    == (((cx + i) as i32, (cy + j) as i32)),
    decreases r + 1 - ox,
{
    let s = disc_rows(cx, cy, r, ox);
    if ox > r {
    } else {
        lemma_disc_row_elems(cx, cy, r, ox, -r);
        lemma_disc_rows_elems(cx, cy, r, ox + 1);
        let row = disc_row(cx, cy, r, ox, -r);
        let rest = disc_rows(cx, cy, r, ox + 1);
        assert(s == row + rest);
        assert forall|k: int| 0 <= k < row.len() implies s[k] == row[k] by {}
        assert forall|k: int| row.len() <= k < s.len() implies s[k] == rest[k - row.len()] by {}
        assert forall|i: int, j: int|
            ox <= i <= r && -r <= j <= r && #[trigger] in_disc(i, j, r) implies exists|k: int|
            0 <= k < s.len() && #[trigger] s[k] == (((cx + i) as i32, (cy + j) as i32)) by {
            if i == ox {
                let k = choose|k: int| 0 <= k < row.len() && (#[trigger] row[k]).1 as int == cy + j;
                assert(s[k] == row[k]);
                assert(row[k].0 as int == cx + ox);
                assert(s[k] == (((cx + i) as i32, (cy + j) as i32)));
            } else {
                let k = choose|k: int|
                    0 <= k < rest.len() && #[trigger] rest[k] == (((cx + i) as i32, (cy
                        + j) as i32));
                assert(s[k + row.len()] == rest[k]);
            }
        }
    }
}

/// The brush footprint: never empty, never a duplicate cell, exactly
/// the center for size 1, and for larger sizes exactly the cells whose
/// offset lies in the disc.
pub proof fn lemma_footprint_props(cx: int, cy: int, size: int)
    requires
        -4 * COORD_LIMIT <= cx <= 4 * COORD_LIMIT,
        -4 * COORD_LIMIT <= cy <= 4 * COORD_LIMIT,
        1 <= size <= 10,
    ensures
        footprint_spec(cx, cy, size).len() >= 1,
        forall|k1: int, k2: int|
            0 <= k1 < k2 < footprint_spec(cx, cy, size).len() ==> #[trigger] footprint_spec(
                cx,
                cy,
                size,
            )[k1] != #[trigger] footprint_spec(cx, cy, size)[k2],
        size == 1 ==> footprint_spec(cx, cy, size) == seq![(cx as i32, cy as i32)],
        footprint_spec(cx, cy, size).contains((cx as i32, cy as i32)),
        size > 1 ==> forall|i: int, j: int|
            -size < i < size && -size < j < size ==> (#[trigger] in_disc(i, j, size - 1)
                <==> footprint_spec(cx, cy, size).contains((((cx + i) as i32, (cy + j) as i32)))),
{
    let s = footprint_spec(cx, cy, size);
    if size == 1 {
        assert(s[0] == (cx as i32, cy as i32));
    } else {
        let r = size - 1;
        lemma_disc_rows_elems(cx, cy, r, -r);
        assert(in_disc(0, 0, r)) by (nonlinear_arith)
            requires
                r >= 1,
        ;
        let k0 = choose|k: int| 0 <= k < s.len() && #[trigger] s[k] == ((cx as i32, cy as i32));
        assert(s.contains((cx as i32, cy as i32)));
        assert forall|i: int, j: int| -size < i < size && -size < j < size implies (
        #[trigger] in_disc(i, j, r) <==> s.contains((((cx + i) as i32, (cy + j) as i32)))) by {
            if in_disc(i, j, r) {
                let k = choose|k: int|
                    0 <= k < s.len() && #[trigger] s[k] == (((cx + i) as i32, (cy + j) as i32));
                assert(s.contains((((cx + i) as i32, (cy + j) as i32))));
            } else {
                if s.contains((((cx + i) as i32, (cy + j) as i32))) {
                    let k = choose|k: int|
                        0 <= k < s.len() && s[k] == (((cx + i) as i32, (cy + j) as i32));
                    let p = s[k];
                    assert(p.0 as int == cx + i && p.1 as int == cy + j);
                    assert(in_disc(p.0 as int - cx, p.1 as int - cy, r));
                }
            }
        }
    }
}

/// Collect the brush footprint around `(cx, cy)` for the given brush
/// size, in lexicographic cell order.
pub fn circle_points(cx: i32, cy: i32, size: u32) -> (res: Vec<(i32, i32)>)
    requires
        -4 * COORD_LIMIT <= cx <= 4 * COORD_LIMIT,
        -4 * COORD_LIMIT <= cy <= 4 * COORD_LIMIT,
        1 <= size <= 10,
    ensures
        res@ == footprint_spec(cx as int, cy as int, size as int),
{
    let mut pts: Vec<(i32, i32)> = Vec::new();
    if size == 1 {
        pts.push((cx, cy));
        proof {
            assert(pts@ =~= footprint_spec(cx as int, cy as int, size as int));
        }
        return pts;
    }
    let rad: i32 = (size as i32) - 1;
    let ghost full = footprint_spec(cx as int, cy as int, size as int);
    let mut ox: i32 = -rad;
    proof {
        assert(full == disc_rows(cx as int, cy as int, rad as int, ox as int));
    }
    while ox <= rad
        invariant
            -4 * COORD_LIMIT <= cx <= 4 * COORD_LIMIT,
            -4 * COORD_LIMIT <= cy <= 4 * COORD_LIMIT,
            1 <= rad <= 9,
            -rad <= ox <= rad + 1,
            full == pts@ + disc_rows(cx as int, cy as int, rad as int, ox as int),
        decreases rad + 1 - ox,
    {
        let mut oy: i32 = -rad;
        proof {
            assert(disc_rows(cx as int, cy as int, rad as int, ox as int) == disc_row(
                cx as int,
                cy as int,
                rad as int,
                ox as int,
                oy as int,
            ) + disc_rows(cx as int, cy as int, rad as int, ox as int + 1));
        }
        while oy <= rad
            invariant
                -4 * COORD_LIMIT <= cx <= 4 * COORD_LIMIT,
                -4 * COORD_LIMIT <= cy <= 4 * COORD_LIMIT,
                1 <= rad <= 9,
                -rad <= ox <= rad,
                -rad <= oy <= rad + 1,
                full == pts@ + disc_row(cx as int, cy as int, rad as int, ox as int, oy as int)
                    + disc_rows(cx as int, cy as int, rad as int, ox as int + 1),
            decreases rad + 1 - oy,
        {
            proof {
                assert(0 <= ox * ox <= 81 && 0 <= oy * oy <= 81 && 0 <= rad * rad <= 81)
                    by (nonlinear_arith)
                    requires
                        -9 <= ox <= 9,
                        -9 <= oy <= 9,
                        1 <= rad <= 9,
                ;
            }
            if ox * ox + oy * oy < rad * rad + rad {
                pts.push((cx + ox, cy + oy));
            }
            proof {
                assert(full =~= pts@ + disc_row(
                    cx as int,
                    cy as int,
                    rad as int,
                    ox as int,
                    oy as int + 1,
                ) + disc_rows(cx as int, cy as int, rad as int, ox as int + 1));
            }
            oy = oy + 1;
        }
        ox = ox + 1;
    }
    proof {
        assert(pts@ =~= full);
    }
    pts
}

} // verus!
