//! EXIF orientation of RGB pixels: which stored pixel a displayed one shows.
use vstd::prelude::*;

verus! {

/// Does an orientation swap the sides?
pub open spec fn swaps(orientation: u16) -> bool {
    5 <= orientation <= 8
}

/// The size of the displayed image.
pub open spec fn displayed_size(w: int, h: int, orientation: u16) -> (int, int) {
    if swaps(orientation) {
        (h, w)
    } else {
        (w, h)
    }
}

/// The column and the row of the stored pixel that is displayed at column
/// `x`, row `y`, of a stored image of `w` by `h`: 2 mirrors, 3 turns by
/// 180°, 4 flips, 5 transposes, 6 turns clockwise, 7 transposes the other
/// way, 8 turns counterclockwise, and everything else is as stored.
pub open spec fn stored_at(x: int, y: int, w: int, h: int, orientation: u16) -> (int, int) {
    if orientation == 2 {
        (w - 1 - x, y)
    } else if orientation == 3 {
        (w - 1 - x, h - 1 - y)
    } else if orientation == 4 {
        (x, h - 1 - y)
    } else if orientation == 5 {
        (y, x)
    } else if orientation == 6 {
        (y, h - 1 - x)
    } else if orientation == 7 {
        (w - 1 - y, h - 1 - x)
    } else if orientation == 8 {
        (w - 1 - y, x)
    } else {
        (x, y)
    }
}

/// Where the pixel of a column and a row starts, in an image of width `w`.
pub open spec fn pixel_start(x: int, y: int, w: int) -> int {
    3 * (y * w + x)
}

/// Is `out` the image `rgb` (of `w` by `h`) as it is displayed?
pub open spec fn is_displayed(
    out: Seq<u8>,
    rgb: Seq<u8>,
    w: int,
    h: int,
    orientation: u16,
) -> bool {
    let (dw, dh) = displayed_size(w, h, orientation);
    &&& out.len() == rgb.len()
    &&& forall|x: int, y: int, c: int|
        0 <= x < dw && 0 <= y < dh && 0 <= c < 3 ==> #[trigger] out[pixel_start(x, y, dw) + c] == {
            let (sx, sy) = stored_at(x, y, w, h, orientation);
            rgb[pixel_start(sx, sy, w) + c]
        }
}

proof fn lemma_pixel_inside(x: int, y: int, w: int, h: int)
    requires
        0 <= x < w,
        0 <= y < h,
    ensures
        0 <= pixel_start(x, y, w),
        pixel_start(x, y, w) + 3 <= 3 * (w * h),
        y * w + x < w * h,
        0 <= y * w + x,
{
    assert(0 <= y * w + x < w * h) by (nonlinear_arith)
        requires
            0 <= x < w,
            0 <= y < h,
    ;
}

/// Turn stored pixels (three bytes each, row by row) to display orientation.
/// Returns them with the displayed width and height.
pub fn apply_orientation(rgb: Vec<u8>, w: u32, h: u32, orientation: u16) -> (r: (
    Vec<u8>,
    u32,
    u32,
))
    requires
        rgb@.len() == 3 * (w * h),
    ensures
        is_displayed(r.0@, rgb@, w as int, h as int, orientation),
        (r.1 as int, r.2 as int) == displayed_size(w as int, h as int, orientation),
{
    if orientation < 2 || orientation > 8 {
        return (rgb, w, h);
    }
    let turned: bool = orientation >= 5;
    let (dw, dh): (u32, u32) = if turned {
        (h, w)
    } else {
        (w, h)
    };
    let n: usize = rgb.len();
    let mut out: Vec<u8> = Vec::new();
    let mut y: u32 = 0;
    proof {
        assert(w * h == h * w) by (nonlinear_arith);
        assert(0 * dw == 0) by (nonlinear_arith);
    }
    while y < dh
        invariant
            y <= dh,
            2 <= orientation <= 8,
            (dw as int, dh as int) == displayed_size(w as int, h as int, orientation),
            n == rgb@.len() == 3 * (w * h),
            w * h == h * w,
            out@.len() == 3 * (y * dw),
            forall|a: int, b: int, c: int|
                0 <= a < dw && 0 <= b < y && 0 <= c < 3 ==> #[trigger] out@[pixel_start(
                    a,
                    b,
                    dw as int,
                ) + c] == {
                    let (sx, sy) = stored_at(a, b, w as int, h as int, orientation);
                    rgb@[pixel_start(sx, sy, w as int) + c]
                },
        decreases dh - y,
    {
        let mut x: u32 = 0;
        while x < dw
            invariant
                x <= dw,
                y < dh,
                2 <= orientation <= 8,
                (dw as int, dh as int) == displayed_size(w as int, h as int, orientation),
                n == rgb@.len() == 3 * (w * h),
                w * h == h * w,
                out@.len() == 3 * (y * dw + x),
                forall|a: int, b: int, c: int|
                    0 <= a < dw && 0 <= b <= y && (b < y || a < x) && 0 <= c < 3
                        ==> #[trigger] out@[pixel_start(a, b, dw as int) + c] == {
                        let (sx, sy) = stored_at(a, b, w as int, h as int, orientation);
                        rgb@[pixel_start(sx, sy, w as int) + c]
                    },
            decreases dw - x,
        {
            let (sx, sy): (u32, u32) = match orientation {
                2 => (w - 1 - x, y),
                3 => (w - 1 - x, h - 1 - y),
                4 => (x, h - 1 - y),
                5 => (y, x),
                6 => (y, h - 1 - x),
                7 => (w - 1 - y, h - 1 - x),
                _ => (w - 1 - y, x),
            };
            assert((sx as int, sy as int) == stored_at(
                x as int,
                y as int,
                w as int,
                h as int,
                orientation,
            ));
            proof {
                lemma_pixel_inside(sx as int, sy as int, w as int, h as int);
                assert(sy * w <= n) by {
                    assert(sy * w + sx < w * h);
                }
            }
            let at: usize = 3 * (sy as usize * w as usize + sx as usize);
            let ghost had = out@;
            out.push(rgb[at]);
            out.push(rgb[at + 1]);
            out.push(rgb[at + 2]);
            proof {
                let here = pixel_start(x as int, y as int, dw as int);
                assert(here == had.len());
                assert(out@ =~= had + seq![
                    rgb@[at as int],
                    rgb@[at + 1],
                    rgb@[at + 2],
                ]);
                assert forall|a: int, b: int, c: int|
                    0 <= a < dw && 0 <= b <= y && (b < y || a < x + 1) && 0 <= c
                        < 3 implies #[trigger] out@[pixel_start(a, b, dw as int) + c] == {
                    let (qx, qy) = stored_at(a, b, w as int, h as int, orientation);
                    rgb@[pixel_start(qx, qy, w as int) + c]
                } by {
                    if b == y && a == x {
                        assert(c == 0 || c == 1 || c == 2);
                    } else {
                        assert(pixel_start(a, b, dw as int) + 3 <= here && 0 <= pixel_start(
                            a,
                            b,
                            dw as int,
                        )) by (nonlinear_arith)
                            requires
                                0 <= a < dw,
                                0 <= b <= y,
                                b < y || a < x,
                                0 <= x,
                                here == 3 * (y * dw + x),
                                pixel_start(a, b, dw as int) == 3 * (b * dw + a),
                        ;
                        assert(out@[pixel_start(a, b, dw as int) + c] == had[pixel_start(
                            a,
                            b,
                            dw as int,
                        ) + c]);
                    }
                }
            }
            x = x + 1;
        }
        assert(y * dw + dw == (y + 1) * dw) by (nonlinear_arith);
        y = y + 1;
    }
    assert(dh * dw == w * h) by (nonlinear_arith)
        requires
            (dw, dh) == (w, h) || (dw, dh) == (h, w),
    ;
    (out, dw, dh)
}

/// The orientation that undoes another.
pub open spec fn undoing(orientation: u16) -> u16 {
    if orientation == 6 {
        8
    } else if orientation == 8 {
        6
    } else {
        orientation
    }
}

/// Every orientation can be undone, and none loses a pixel: what is
/// displayed somewhere is stored somewhere, and turning back finds it again.
pub proof fn lemma_orientation_is_undone(x: int, y: int, w: int, h: int, orientation: u16)
    requires
        ({
            let (dw, dh) = displayed_size(w, h, orientation);
            0 <= x < dw && 0 <= y < dh
        }),
    ensures
        ({
            let (dw, dh) = displayed_size(w, h, orientation);
            let (sx, sy) = stored_at(x, y, w, h, orientation);
            &&& 0 <= sx < w
            &&& 0 <= sy < h
            &&& displayed_size(dw, dh, undoing(orientation)) == (w, h)
            &&& stored_at(sx, sy, dw, dh, undoing(orientation)) == (x, y)
        }),
{
}

// -------------------------------------------------------------------- laws
/// Orientation 6 turns the picture clockwise: its left edge, read from the
/// bottom, is the top of what is displayed; and 2 mirrors it from left to
/// right. All others are made of these: 3 is two turns, 8 is three, 5 turns
/// the mirrored picture three times, 4 twice and 7 once.
pub proof fn lemma_orientations_are_turns(x: int, y: int, w: int, h: int)
    ensures
        ({
            let mirror = |p: (int, int)| (w - 1 - p.0, p.1);
            let of = |o: u16| stored_at(x, y, w, h, o);
            &&& of(6) == (y, h - 1 - x)
            &&& of(2) == (w - 1 - x, y)
            &&& of(1) == (x, y)
            // What one turn displays is h by w, and what two do is w by h.
            &&& of(3) == {
                let p = stored_at(x, y, h, w, 6);
                stored_at(p.0, p.1, w, h, 6)
            }
            &&& of(8) == {
                let p = stored_at(x, y, w, h, 6);
                stored_at(p.0, p.1, w, h, 3)
            }
            &&& of(4) == mirror(of(3))
            &&& of(5) == mirror(of(8))
            &&& of(7) == mirror(of(6))
        }),
{
}

/// Turning back gives the stored pixel: 8 undoes 6, 3 and the mirrored
/// orientations undo themselves; and every displayed pixel shows a stored one.
pub proof fn lemma_orientations_undo(x: int, y: int, w: int, h: int, o: u16)
    ensures
        ({
            let (dw, dh) = displayed_size(w, h, o);
            let back: u16 = if o == 6 {
                8
            } else if o == 8 {
                6
            } else {
                o
            };
            let p = stored_at(x, y, w, h, o);
            &&& 0 <= x < dw && 0 <= y < dh ==> 0 <= p.0 < w && 0 <= p.1 < h
            &&& stored_at(p.0, p.1, dw, dh, back) == (x, y)
            &&& displayed_size(dw, dh, back) == (w, h)
            &&& (5 <= o <= 8) <==> swaps(o)
        }),
{
}

} // verus!
