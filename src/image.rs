use vstd::prelude::*;

verus! {

/// One RGBA pixel, 8 bits per channel.
#[derive(Clone, Copy, PartialEq, Eq, Structural, Debug)]
pub struct Pixel {
    pub r: u8,
    pub g: u8,
    pub b: u8,
    pub a: u8,
}

/// The all-zero pixel that fills blank canvases.
pub open spec fn transparent() -> Pixel {
    Pixel { r: 0, g: 0, b: 0, a: 0 }
}

/// What a pixel shows: every pixel with zero alpha looks the same.
pub open spec fn visible(p: Pixel) -> Pixel {
    if p.a == 0 {
        transparent()
    } else {
        p
    }
}

impl Pixel {
    pub fn clear() -> (r: Pixel)
        ensures
            r == transparent(),
    {
        Pixel { r: 0, g: 0, b: 0, a: 0 }
    }

    pub fn is_opaque(&self) -> (r: bool)
        ensures
            r == (self.a != 0),
    {
        self.a != 0
    }
}

/// A half-open pixel region `[x, x + width) x [y, y + height)`.
#[derive(Clone, Copy, PartialEq, Eq, Structural, Debug)]
pub struct Rect {
    pub x: u32,
    pub y: u32,
    pub width: u32,
    pub height: u32,
}

impl Rect {
    pub open spec fn contains(self, x: int, y: int) -> bool {
        &&& self.x <= x < self.x + self.width
        &&& self.y <= y < self.y + self.height
    }

    /// The all-zero rectangle, used to mean "nothing".
    pub open spec fn zero() -> Rect {
        Rect { x: 0, y: 0, width: 0, height: 0 }
    }

    pub fn empty() -> (r: Rect)
        ensures
            r == Rect::zero(),
    {
        Rect { x: 0, y: 0, width: 0, height: 0 }
    }

    pub fn is_empty(&self) -> (r: bool)
        ensures
            r == (*self == Rect::zero()),
    {
        self.x == 0 && self.y == 0 && self.width == 0 && self.height == 0
    }

    pub fn coord_in_rect(&self, x: u32, y: u32) -> (r: bool)
        ensures
            r == self.contains(x as int, y as int),
    {
        x >= self.x && x - self.x < self.width && y >= self.y && y - self.y < self.height
    }

    /// Whether two rectangles share at least one pixel.
    pub open spec fn overlaps(self, o: Rect) -> bool {
        &&& self.x < o.x + o.width
        &&& o.x < self.x + self.width
        &&& self.y < o.y + o.height
        &&& o.y < self.y + self.height
    }

    pub fn intersects(&self, o: &Rect) -> (r: bool)
        ensures
            r == self.overlaps(*o),
    {
        (self.x as u64) < (o.x as u64) + (o.width as u64) && (o.x as u64) < (self.x as u64)
            + (self.width as u64) && (self.y as u64) < (o.y as u64) + (o.height as u64) && (
        o.y as u64) < (self.y as u64) + (self.height as u64)
    }
}

/// An RGBA image stored as `height` rows of `width` pixels.
#[derive(Debug)]
pub struct Image {
    pub width: u32,
    pub height: u32,
    pub rows: Vec<Vec<Pixel>>,
}

impl Image {
    pub open spec fn wf(self) -> bool {
        &&& self.rows@.len() == self.height
        &&& forall|y: int| 0 <= y < self.height ==> #[trigger] self.rows@[y]@.len() == self.width
    }

    pub open spec fn px(self, x: int, y: int) -> Pixel {
        self.rows@[y]@[x]
    }

    pub open spec fn in_bounds(self, x: int, y: int) -> bool {
        0 <= x < self.width && 0 <= y < self.height
    }

    pub open spec fn opaque_at(self, x: int, y: int) -> bool {
        self.in_bounds(x, y) && self.px(x, y).a != 0
    }

    pub open spec fn has_opaque(self) -> bool {
        exists|x: int, y: int| #[trigger] self.opaque_at(x, y)
    }

    /// Same size and the same four channels at every pixel.
    pub open spec fn same(self, o: Image) -> bool {
        &&& self.width == o.width
        &&& self.height == o.height
        &&& forall|x: int, y: int| #[trigger]
            self.in_bounds(x, y) ==> self.px(x, y) == o.px(x, y)
    }

    pub open spec fn is_blank(self) -> bool {
        forall|x: int, y: int| #[trigger] self.in_bounds(x, y) ==> self.px(x, y) == transparent()
    }

    /// A fully transparent image.
    pub fn new(width: u32, height: u32) -> (r: Image)
        ensures
            r.wf(),
            r.width == width,
            r.height == height,
            r.is_blank(),
    {
        let mut rows: Vec<Vec<Pixel>> = Vec::new();
        let mut y: u32 = 0;
        while y < height
            invariant
                y <= height,
                rows@.len() == y,
                forall|yy: int| 0 <= yy < y ==> #[trigger] rows@[yy]@.len() == width,
                forall|xx: int, yy: int|
                    0 <= yy < y && 0 <= xx < width ==> #[trigger] rows@[yy]@[xx] == transparent(),
            decreases height - y,
        {
            let mut row: Vec<Pixel> = Vec::new();
            let mut x: u32 = 0;
            while x < width
                invariant
                    x <= width,
                    row@.len() == x,
                    forall|xx: int| 0 <= xx < x ==> #[trigger] row@[xx] == transparent(),
                decreases width - x,
            {
                row.push(Pixel::clear());
                x = x + 1;
            }
            rows.push(row);
            y = y + 1;
        }
        Image { width, height, rows }
    }

    pub fn get_pixel(&self, x: u32, y: u32) -> (r: Pixel)
        requires
            self.wf(),
            self.in_bounds(x as int, y as int),
        ensures
            r == self.px(x as int, y as int),
    {
        self.rows[y as usize][x as usize]
    }

    /// Overwrites one pixel; the others are kept.
    pub fn put_pixel(&mut self, x: u32, y: u32, p: Pixel)
        requires
            old(self).wf(),
            old(self).in_bounds(x as int, y as int),
        ensures
            final(self).wf(),
            final(self).width == old(self).width,
            final(self).height == old(self).height,
            final(self).px(x as int, y as int) == p,
            forall|xx: int, yy: int|
                #![trigger final(self).px(xx, yy)]
                final(self).in_bounds(xx, yy) && (xx != x || yy != y) ==> final(self).px(xx, yy)
                    == old(self).px(xx, yy),
    {
        let mut row = self.rows.remove(y as usize);
        row.set(x as usize, p);
        self.rows.insert(y as usize, row);
    }
}

/// Pixel equality of two images over all four channels.
pub fn images_equal(a: &Image, b: &Image) -> (r: bool)
    requires
        a.wf(),
        b.wf(),
    ensures
        r == a.same(*b),
{
    if a.width != b.width || a.height != b.height {
        return false;
    }
    let mut y: u32 = 0;
    while y < a.height
        invariant
            a.wf(),
            b.wf(),
            a.width == b.width,
            a.height == b.height,
            y <= a.height,
            forall|xx: int, yy: int|
                #![trigger a.px(xx, yy)]
                0 <= yy < y && 0 <= xx < a.width ==> a.px(xx, yy) == b.px(xx, yy),
        decreases a.height - y,
    {
        let mut x: u32 = 0;
        while x < a.width
            invariant
                a.wf(),
                b.wf(),
                a.width == b.width,
                a.height == b.height,
                y < a.height,
                x <= a.width,
                forall|xx: int, yy: int|
                    #![trigger a.px(xx, yy)]
                    0 <= yy < y && 0 <= xx < a.width ==> a.px(xx, yy) == b.px(xx, yy),
                forall|xx: int| #![trigger a.px(xx, y as int)]
                    0 <= xx < x ==> a.px(xx, y as int) == b.px(xx, y as int),
            decreases a.width - x,
        {
            if a.get_pixel(x, y) != b.get_pixel(x, y) {
                assert(a.in_bounds(x as int, y as int));
                return false;
            }
            x = x + 1;
        }
        y = y + 1;
    }
    proof {
        assert forall|x: int, y: int| #[trigger] a.in_bounds(x, y) implies a.px(x, y) == b.px(x, y) by {
            assert(a.px(x, y) == b.px(x, y));
        }
    }
    true
}

/// `r` is the smallest rectangle holding every pixel whose alpha is not
/// zero; the zero rectangle when there is none.
pub open spec fn is_bounding_rect(img: Image, r: Rect) -> bool {
    if !img.has_opaque() {
        r == Rect::zero()
    } else {
        &&& r.x + r.width <= img.width
        &&& r.y + r.height <= img.height
        &&& forall|x: int, y: int| #[trigger] img.opaque_at(x, y) ==> r.contains(x, y)
        &&& exists|y: int| #[trigger] img.opaque_at(r.x as int, y)
        &&& exists|x: int| #[trigger] img.opaque_at(x, r.y as int)
        &&& exists|y: int| #[trigger] img.opaque_at(r.x + r.width - 1, y)
        &&& exists|x: int| #[trigger] img.opaque_at(x, r.y + r.height - 1)
    }
}

fn column_has_opaque(img: &Image, x: u32) -> (r: bool)
    requires
        img.wf(),
        x < img.width,
    ensures
        r == exists|y: int| #[trigger] img.opaque_at(x as int, y),
{
    let mut y: u32 = 0;
    while y < img.height
        invariant
            img.wf(),
            x < img.width,
            y <= img.height,
            forall|yy: int| 0 <= yy < y ==> !#[trigger] img.opaque_at(x as int, yy),
        decreases img.height - y,
    {
        if img.get_pixel(x, y).is_opaque() {
            assert(img.opaque_at(x as int, y as int));
            return true;
        }
        y = y + 1;
    }
    false
}

fn row_has_opaque(img: &Image, y: u32) -> (r: bool)
    requires
        img.wf(),
        y < img.height,
    ensures
        r == exists|x: int| #[trigger] img.opaque_at(x, y as int),
{
    let mut x: u32 = 0;
    while x < img.width
        invariant
            img.wf(),
            y < img.height,
            x <= img.width,
            forall|xx: int| 0 <= xx < x ==> !#[trigger] img.opaque_at(xx, y as int),
        decreases img.width - x,
    {
        if img.get_pixel(x, y).is_opaque() {
            assert(img.opaque_at(x as int, y as int));
            return true;
        }
        x = x + 1;
    }
    false
}

/// The rectangle enclosing all non-transparent pixels of `img`, found by a
/// sweep from each of the four sides.
pub fn get_bounding_rect(img: &Image) -> (r: Rect)
    requires
        img.wf(),
    ensures
        is_bounding_rect(*img, r),
{
    let w = img.width;
    let h = img.height;
    let mut left: u32 = 0;
    while left < w && !column_has_opaque(img, left)
        invariant
            img.wf(),
            w == img.width,
            left <= w,
            forall|xx: int, yy: int| 0 <= xx < left ==> !#[trigger] img.opaque_at(xx, yy),
        decreases w - left,
    {
        left = left + 1;
    }
    if left == w {
        assert(!img.has_opaque());
        return Rect::empty();
    }
    let ghost yl = choose|y: int| #[trigger] img.opaque_at(left as int, y);
    let mut right: u32 = w;
    while right - 1 > left && !column_has_opaque(img, right - 1)
        invariant
            img.wf(),
            w == img.width,
            left < right <= w,
            img.opaque_at(left as int, yl),
            forall|xx: int, yy: int| right <= xx ==> !#[trigger] img.opaque_at(xx, yy),
        decreases right,
    {
        right = right - 1;
    }
    if right - 1 > left {
        assert(exists|y: int| #[trigger] img.opaque_at(right - 1, y));
    } else {
        assert(img.opaque_at(right - 1, yl));
    }
    let mut top: u32 = 0;
    while top < h && !row_has_opaque(img, top)
        invariant
            img.wf(),
            h == img.height,
            top <= h,
            img.opaque_at(left as int, yl),
            forall|xx: int, yy: int| 0 <= yy < top ==> !#[trigger] img.opaque_at(xx, yy),
        decreases h - top,
    {
        top = top + 1;
    }
    assert(top < h) by {
        if top >= h {
            assert(img.opaque_at(left as int, yl));
        }
    }
    let ghost xt = choose|x: int| #[trigger] img.opaque_at(x, top as int);
    let mut bottom: u32 = h;
    while bottom - 1 > top && !row_has_opaque(img, bottom - 1)
        invariant
            img.wf(),
            h == img.height,
            top < bottom <= h,
            img.opaque_at(xt, top as int),
            forall|xx: int, yy: int| bottom <= yy ==> !#[trigger] img.opaque_at(xx, yy),
        decreases bottom,
    {
        bottom = bottom - 1;
    }
    if bottom - 1 > top {
        assert(exists|x: int| #[trigger] img.opaque_at(x, bottom - 1));
    } else {
        assert(img.opaque_at(xt, bottom - 1));
    }
    let r = Rect { x: left, y: top, width: right - left, height: bottom - top };
    assert(img.has_opaque()) by {
        assert(img.opaque_at(left as int, yl));
    }
    assert forall|x: int, y: int| #[trigger] img.opaque_at(x, y) implies r.contains(x, y) by {
        if x < left || y < top || x >= right || y >= bottom {
            assert(!img.opaque_at(x, y));
        }
    }
    r
}

/// The sub-image of `img` covered by `r`.
pub fn crop(img: &Image, r: Rect) -> (out: Image)
    requires
        img.wf(),
        r.x + r.width <= img.width,
        r.y + r.height <= img.height,
    ensures
        out.wf(),
        out.width == r.width,
        out.height == r.height,
        forall|x: int, y: int| #[trigger]
            out.in_bounds(x, y) ==> out.px(x, y) == img.px(r.x + x, r.y + y),
{
    let mut rows: Vec<Vec<Pixel>> = Vec::new();
    let mut y: u32 = 0;
    while y < r.height
        invariant
            img.wf(),
            r.x + r.width <= img.width,
            r.y + r.height <= img.height,
            y <= r.height,
            rows@.len() == y,
            forall|yy: int| 0 <= yy < y ==> #[trigger] rows@[yy]@.len() == r.width,
            forall|xx: int, yy: int|
                0 <= yy < y && 0 <= xx < r.width ==> #[trigger] rows@[yy]@[xx] == img.px(
                    r.x + xx,
                    r.y + yy,
                ),
        decreases r.height - y,
    {
        let mut row: Vec<Pixel> = Vec::new();
        let mut x: u32 = 0;
        while x < r.width
            invariant
                img.wf(),
                r.x + r.width <= img.width,
                r.y + r.height <= img.height,
                y < r.height,
                x <= r.width,
                row@.len() == x,
                forall|xx: int| 0 <= xx < x ==> #[trigger] row@[xx] == img.px(r.x + xx, r.y + y),
            decreases r.width - x,
        {
            row.push(img.get_pixel(r.x + x, r.y + y));
            x = x + 1;
        }
        rows.push(row);
        y = y + 1;
    }
    let out = Image { width: r.width, height: r.height, rows };
    assert forall|x: int, y: int| #[trigger] out.in_bounds(x, y) implies out.px(x, y) == img.px(
        r.x + x,
        r.y + y,
    ) by {
        assert(out.rows@[y]@[x] == img.px(r.x + x, r.y + y));
    }
    out
}

} // verus!
