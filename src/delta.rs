use vstd::prelude::*;

use crate::image::{get_bounding_rect, is_bounding_rect, transparent, Image, Pixel, Rect};

verus! {

/// The new pixel where it differs from the old one and is not transparent.
pub open spec fn changed_px(p: Pixel, n: Pixel) -> Pixel {
    if p != n && n.a != 0 {
        n
    } else {
        transparent()
    }
}

/// The old pixel where it was opaque and the new one is transparent.
pub open spec fn clear_px(p: Pixel, n: Pixel) -> Pixel {
    if p.a != 0 && n.a == 0 {
        p
    } else {
        transparent()
    }
}

/// The new pixel where old and new agree on all four channels.
pub open spec fn same_px(p: Pixel, n: Pixel) -> Pixel {
    if p == n {
        n
    } else {
        transparent()
    }
}

/// The next rendered canvas at one pixel; `in_clear` says whether the
/// pixel lies in the clear rectangle.
pub open spec fn render_px(p: Pixel, n: Pixel, in_clear: bool) -> Pixel {
    let ch = changed_px(p, n);
    let sm = same_px(p, n);
    if in_clear && ch.a == 0 {
        sm
    } else if ch.a == 0 && sm.a != 0 {
        sm
    } else {
        ch
    }
}

/// The delta tile at one pixel: what must be drawn after the erase.
pub open spec fn delta_px(p: Pixel, n: Pixel, in_clear: bool) -> Pixel {
    let ch = changed_px(p, n);
    let sm = same_px(p, n);
    if in_clear && ch.a == 0 {
        sm
    } else if ch.a != 0 {
        ch
    } else {
        transparent()
    }
}

/// `cr` is the bounding rectangle of the pixels that go from opaque in
/// `prev` to transparent in `next`.
pub open spec fn is_clear_rect(prev: Image, next: Image, cr: Rect) -> bool {
    exists|c: Image|
        {
            &&& c.wf()
            &&& c.width == prev.width
            &&& c.height == prev.height
            &&& (forall|x: int, y: int| #[trigger]
                c.in_bounds(x, y) ==> c.px(x, y) == clear_px(prev.px(x, y), next.px(x, y)))
            &&& is_bounding_rect(c, cr)
        }
}

fn changed_pixel(p: Pixel, n: Pixel) -> (r: Pixel)
    ensures
        r == changed_px(p, n),
{
    if p != n && n.a != 0 {
        n
    } else {
        Pixel::clear()
    }
}

fn same_pixel(p: Pixel, n: Pixel) -> (r: Pixel)
    ensures
        r == same_px(p, n),
{
    if p == n {
        n
    } else {
        Pixel::clear()
    }
}

fn clear_image(prev: &Image, next: &Image) -> (c: Image)
    requires
        prev.wf(),
        next.wf(),
        prev.width == next.width,
        prev.height == next.height,
    ensures
        c.wf(),
        c.width == prev.width,
        c.height == prev.height,
        forall|x: int, y: int| #[trigger]
            c.in_bounds(x, y) ==> c.px(x, y) == clear_px(prev.px(x, y), next.px(x, y)),
{
    let mut rows: Vec<Vec<Pixel>> = Vec::new();
    let mut y: u32 = 0;
    while y < prev.height
        invariant
            prev.wf(),
            next.wf(),
            prev.width == next.width,
            prev.height == next.height,
            y <= prev.height,
            rows@.len() == y,
            forall|yy: int| 0 <= yy < y ==> #[trigger] rows@[yy]@.len() == prev.width,
            forall|xx: int, yy: int|
                0 <= yy < y && 0 <= xx < prev.width ==> #[trigger] rows@[yy]@[xx] == clear_px(
                    prev.px(xx, yy),
                    next.px(xx, yy),
                ),
        decreases prev.height - y,
    {
        let mut row: Vec<Pixel> = Vec::new();
        let mut x: u32 = 0;
        while x < prev.width
            invariant
                prev.wf(),
                next.wf(),
                prev.width == next.width,
                prev.height == next.height,
                y < prev.height,
                x <= prev.width,
                row@.len() == x,
                forall|xx: int| #![trigger row@[xx]]
                    0 <= xx < x ==> row@[xx] == clear_px(prev.px(xx, y as int), next.px(xx, y as int)),
            decreases prev.width - x,
        {
            let p = prev.get_pixel(x, y);
            let n = next.get_pixel(x, y);
            if p.a != 0 && n.a == 0 {
                row.push(p);
            } else {
                row.push(Pixel::clear());
            }
            x = x + 1;
        }
        rows.push(row);
        y = y + 1;
    }
    let c = Image { width: prev.width, height: prev.height, rows };
    assert forall|x: int, y: int| #[trigger] c.in_bounds(x, y) implies c.px(x, y) == clear_px(
        prev.px(x, y),
        next.px(x, y),
    ) by {
        assert(c.rows@[y]@[x] == clear_px(prev.px(x, y), next.px(x, y)));
    }
    c
}

/// Compares the previous rendered canvas with the next input frame and
/// returns the clear rectangle, the next rendered canvas and the delta tile.
pub fn generate_frame(prev: &Image, next: &Image) -> (r: (Rect, Image, Image))
    requires
        prev.wf(),
        next.wf(),
        prev.width == next.width,
        prev.height == next.height,
    ensures
        is_clear_rect(*prev, *next, r.0),
        r.1.wf(),
        r.2.wf(),
        r.1.width == prev.width && r.1.height == prev.height,
        r.2.width == prev.width && r.2.height == prev.height,
        forall|x: int, y: int| #[trigger]
            r.1.in_bounds(x, y) ==> r.1.px(x, y) == render_px(
                prev.px(x, y),
                next.px(x, y),
                r.0.contains(x, y),
            ),
        forall|x: int, y: int| #[trigger]
            r.2.in_bounds(x, y) ==> r.2.px(x, y) == delta_px(
                prev.px(x, y),
                next.px(x, y),
                r.0.contains(x, y),
            ),
{
    let c = clear_image(prev, next);
    let cr = get_bounding_rect(&c);
    let mut render_rows: Vec<Vec<Pixel>> = Vec::new();
    let mut delta_rows: Vec<Vec<Pixel>> = Vec::new();
    let mut y: u32 = 0;
    while y < prev.height
        invariant
            prev.wf(),
            next.wf(),
            prev.width == next.width,
            prev.height == next.height,
            y <= prev.height,
            render_rows@.len() == y,
            delta_rows@.len() == y,
            forall|yy: int| 0 <= yy < y ==> #[trigger] render_rows@[yy]@.len() == prev.width,
            forall|yy: int| 0 <= yy < y ==> #[trigger] delta_rows@[yy]@.len() == prev.width,
            forall|xx: int, yy: int|
                0 <= yy < y && 0 <= xx < prev.width ==> #[trigger] render_rows@[yy]@[xx]
                    == render_px(prev.px(xx, yy), next.px(xx, yy), cr.contains(xx, yy)),
            forall|xx: int, yy: int|
                0 <= yy < y && 0 <= xx < prev.width ==> #[trigger] delta_rows@[yy]@[xx]
                    == delta_px(prev.px(xx, yy), next.px(xx, yy), cr.contains(xx, yy)),
        decreases prev.height - y,
    {
        let mut render_row: Vec<Pixel> = Vec::new();
        let mut delta_row: Vec<Pixel> = Vec::new();
        let mut x: u32 = 0;
        while x < prev.width
            invariant
                prev.wf(),
                next.wf(),
                prev.width == next.width,
                prev.height == next.height,
                y < prev.height,
                x <= prev.width,
                render_row@.len() == x,
                delta_row@.len() == x,
                forall|xx: int| #![trigger render_row@[xx]]
                    0 <= xx < x ==> render_row@[xx] == render_px(
                        prev.px(xx, y as int),
                        next.px(xx, y as int),
                        cr.contains(xx, y as int),
                    ),
                forall|xx: int| #![trigger delta_row@[xx]]
                    0 <= xx < x ==> delta_row@[xx] == delta_px(
                        prev.px(xx, y as int),
                        next.px(xx, y as int),
                        cr.contains(xx, y as int),
                    ),
            decreases prev.width - x,
        {
            let p = prev.get_pixel(x, y);
            let n = next.get_pixel(x, y);
            let ch = changed_pixel(p, n);
            let sm = same_pixel(p, n);
            let in_clear = cr.coord_in_rect(x, y);
            if in_clear && ch.a == 0 {
                render_row.push(sm);
                delta_row.push(sm);
            } else if ch.a == 0 && sm.a != 0 {
                render_row.push(sm);
                delta_row.push(Pixel::clear());
            } else {
                render_row.push(ch);
                if ch.a != 0 {
                    delta_row.push(ch);
                } else {
                    delta_row.push(Pixel::clear());
                }
            }
            x = x + 1;
        }
        render_rows.push(render_row);
        delta_rows.push(delta_row);
        y = y + 1;
    }
    let render = Image { width: prev.width, height: prev.height, rows: render_rows };
    let delta = Image { width: prev.width, height: prev.height, rows: delta_rows };
    assert forall|x: int, y: int| #[trigger] render.in_bounds(x, y) implies render.px(x, y)
        == render_px(prev.px(x, y), next.px(x, y), cr.contains(x, y)) by {
        assert(render.rows@[y]@[x] == render_px(prev.px(x, y), next.px(x, y), cr.contains(x, y)));
    }
    assert forall|x: int, y: int| #[trigger] delta.in_bounds(x, y) implies delta.px(x, y)
        == delta_px(prev.px(x, y), next.px(x, y), cr.contains(x, y)) by {
        assert(delta.rows@[y]@[x] == delta_px(prev.px(x, y), next.px(x, y), cr.contains(x, y)));
    }
    (cr, render, delta)
}

} // verus!
