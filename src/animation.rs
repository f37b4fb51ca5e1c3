use vstd::prelude::*;

use crate::delta::{delta_px, generate_frame, is_clear_rect, render_px, clear_px};
use crate::image::{
    crop, get_bounding_rect, images_equal, is_bounding_rect, transparent, visible, Image, Pixel,
    Rect,
};

verus! {

/// One step of an animation: erase `cleanup_rect` (if any), then draw the
/// non-transparent pixels of `tile` with its top-left corner at the offset.
/// The step is shown for `frame_time` input frames.
#[derive(Debug)]
pub struct CompiledFrame {
    pub tile: Image,
    pub offset_x: u32,
    pub offset_y: u32,
    pub frame_time: u32,
    pub cleanup_rect: Option<Rect>,
}

/// A canvas of `h` rows of `w` transparent pixels.
pub open spec fn blank_canvas(w: nat, h: nat) -> Seq<Seq<Pixel>> {
    Seq::new(h, |y: int| Seq::new(w, |x: int| transparent()))
}

/// The pixel at `(x, y)` after frame `f` is applied to a canvas pixel `c`.
pub open spec fn draw_px(c: Pixel, f: CompiledFrame, x: int, y: int) -> Pixel {
    let erased = match f.cleanup_rect {
        Some(r) => if r.contains(x, y) {
            transparent()
        } else {
            c
        },
        None => c,
    };
    let tx = x - f.offset_x;
    let ty = y - f.offset_y;
    if f.tile.in_bounds(tx, ty) && f.tile.px(tx, ty).a != 0 {
        f.tile.px(tx, ty)
    } else {
        erased
    }
}

/// Applies frame `f` to a `w` x `h` canvas.
pub open spec fn draw(c: Seq<Seq<Pixel>>, f: CompiledFrame, w: nat, h: nat) -> Seq<Seq<Pixel>> {
    Seq::new(h, |y: int| Seq::new(w, |x: int| draw_px(c[y][x], f, x, y)))
}

/// The canvas after the first `n` frames are applied to a blank canvas.
pub open spec fn replay(frames: Seq<CompiledFrame>, n: nat, w: nat, h: nat) -> Seq<Seq<Pixel>>
    decreases n,
{
    if n == 0 {
        blank_canvas(w, h)
    } else {
        draw(replay(frames, (n - 1) as nat, w, h), frames[n - 1], w, h)
    }
}

/// The canvas looks like `img`: the pixels agree wherever either is visible.
pub open spec fn shows(c: Seq<Seq<Pixel>>, img: Image) -> bool {
    forall|x: int, y: int| #[trigger]
        img.in_bounds(x, y) ==> visible(c[y][x]) == visible(img.px(x, y))
}

/// The number of input frames that the first `j` compiled frames cover.
pub open spec fn time_before(frames: Seq<CompiledFrame>, j: nat) -> nat
    decreases j,
{
    if j == 0 {
        0
    } else {
        time_before(frames, (j - 1) as nat) + frames[j - 1].frame_time as nat
    }
}

/// Input frame `k` is shown while compiled frame `j` is the latest drawn.
pub open spec fn covers(frames: Seq<CompiledFrame>, j: int, k: int) -> bool {
    &&& 0 <= j < frames.len()
    &&& time_before(frames, j as nat) <= k < time_before(frames, (j + 1) as nat)
}

/// Replaying `frames` on a blank `w` x `h` canvas shows each input frame in
/// turn, each for its own step.
pub open spec fn reconstructs(frames: Seq<CompiledFrame>, inputs: Seq<Image>, w: nat, h: nat) -> bool {
    &&& time_before(frames, frames.len()) == inputs.len()
    &&& forall|j: int, k: int| #[trigger]
        covers(frames, j, k) ==> shows(replay(frames, (j + 1) as nat, w, h), inputs[k])
}

/// All input frames have the canvas size `w` x `h`.
pub open spec fn frames_fit(inputs: Seq<Image>, w: nat, h: nat) -> bool {
    forall|k: int|
        0 <= k < inputs.len() ==> {
            &&& #[trigger] inputs[k].wf()
            &&& inputs[k].width == w
            &&& inputs[k].height == h
        }
}

pub open spec fn draws_alike(a: CompiledFrame, b: CompiledFrame) -> bool {
    &&& a.tile == b.tile
    &&& a.offset_x == b.offset_x
    &&& a.offset_y == b.offset_y
    &&& a.cleanup_rect == b.cleanup_rect
}

proof fn lemma_replay_agree(s1: Seq<CompiledFrame>, s2: Seq<CompiledFrame>, n: nat, w: nat, h: nat)
    requires
        n <= s1.len(),
        n <= s2.len(),
        forall|i: int| 0 <= i < n ==> #[trigger] draws_alike(s1[i], s2[i]),
    ensures
        replay(s1, n, w, h) == replay(s2, n, w, h),
    decreases n,
{
    if n > 0 {
        lemma_replay_agree(s1, s2, (n - 1) as nat, w, h);
        assert(draws_alike(s1[n - 1], s2[n - 1]));
        let a = replay(s1, (n - 1) as nat, w, h);
        assert forall|x: int, y: int| draw_px(a[y][x], s1[n - 1], x, y) == draw_px(a[y][x], s2[n - 1], x, y) by {}
        assert(draw(a, s1[n - 1], w, h) =~~= draw(a, s2[n - 1], w, h));
    }
}

proof fn lemma_time_agree(s1: Seq<CompiledFrame>, s2: Seq<CompiledFrame>, n: nat)
    requires
        n <= s1.len(),
        n <= s2.len(),
        forall|i: int| 0 <= i < n ==> #[trigger] s1[i].frame_time == s2[i].frame_time,
    ensures
        time_before(s1, n) == time_before(s2, n),
    decreases n,
{
    if n > 0 {
        lemma_time_agree(s1, s2, (n - 1) as nat);
    }
}

/// Drawing a tile cropped from `img` at its bounding rectangle on a blank
/// canvas shows `img`.
proof fn lemma_first_frame(img: Image, r: Rect, f: CompiledFrame)
    requires
        img.wf(),
        is_bounding_rect(img, r),
        f.tile.wf(),
        f.tile.width == r.width,
        f.tile.height == r.height,
        forall|x: int, y: int| #[trigger]
            f.tile.in_bounds(x, y) ==> f.tile.px(x, y) == img.px(r.x + x, r.y + y),
        f.offset_x == r.x,
        f.offset_y == r.y,
        f.cleanup_rect is None,
    ensures
        shows(draw(blank_canvas(img.width as nat, img.height as nat), f, img.width as nat, img.height as nat), img),
{
    let c = draw(blank_canvas(img.width as nat, img.height as nat), f, img.width as nat, img.height as nat);
    assert forall|x: int, y: int| #[trigger] img.in_bounds(x, y) implies visible(c[y][x]) == visible(img.px(x, y)) by {
        let tx = x - r.x;
        let ty = y - r.y;
        if img.px(x, y).a != 0 {
            assert(img.opaque_at(x, y));
            assert(f.tile.in_bounds(tx, ty));
        } else if f.tile.in_bounds(tx, ty) {
            assert(f.tile.px(tx, ty) == img.px(x, y));
        }
    }
}

/// One differ step keeps the replayed canvas in line with the frames.
proof fn lemma_delta_step(
    c: Seq<Seq<Pixel>>,
    prev: Image,
    next: Image,
    cr: Rect,
    render: Image,
    delta: Image,
    r: Rect,
    f: CompiledFrame,
)
    requires
        prev.wf(),
        next.wf(),
        prev.width == next.width,
        prev.height == next.height,
        c.len() == prev.height,
        forall|y: int| 0 <= y < prev.height ==> #[trigger] c[y].len() == prev.width,
        shows(c, prev),
        is_clear_rect(prev, next, cr),
        render.wf(),
        delta.wf(),
        render.width == prev.width && render.height == prev.height,
        delta.width == prev.width && delta.height == prev.height,
        forall|x: int, y: int| #[trigger]
            render.in_bounds(x, y) ==> render.px(x, y) == render_px(prev.px(x, y), next.px(x, y), cr.contains(x, y)),
        forall|x: int, y: int| #[trigger]
            delta.in_bounds(x, y) ==> delta.px(x, y) == delta_px(prev.px(x, y), next.px(x, y), cr.contains(x, y)),
        is_bounding_rect(delta, r),
        f.tile.wf(),
        f.tile.width == r.width,
        f.tile.height == r.height,
        forall|x: int, y: int| #[trigger]
            f.tile.in_bounds(x, y) ==> f.tile.px(x, y) == delta.px(r.x + x, r.y + y),
        f.offset_x == r.x,
        f.offset_y == r.y,
        f.cleanup_rect == (if cr == Rect::zero() { None::<Rect> } else { Some(cr) }),
    ensures
        shows(draw(c, f, prev.width as nat, prev.height as nat), next),
        shows(draw(c, f, prev.width as nat, prev.height as nat), render),
{
    let w = prev.width as nat;
    let h = prev.height as nat;
    let d = draw(c, f, w, h);
    let cimg = choose|ci: Image|
        {
            &&& ci.wf()
            &&& ci.width == prev.width
            &&& ci.height == prev.height
            &&& (forall|x: int, y: int| #[trigger]
                ci.in_bounds(x, y) ==> ci.px(x, y) == clear_px(prev.px(x, y), next.px(x, y)))
            &&& is_bounding_rect(ci, cr)
        };
    assert forall|x: int, y: int| #[trigger] next.in_bounds(x, y) implies visible(d[y][x])
        == visible(next.px(x, y)) && visible(d[y][x]) == visible(render.px(x, y)) by {
        let p = prev.px(x, y);
        let n = next.px(x, y);
        assert(prev.in_bounds(x, y));
        assert(delta.in_bounds(x, y));
        assert(render.in_bounds(x, y));
        let tx = x - r.x;
        let ty = y - r.y;
        let dp = delta.px(x, y);
        if dp.a != 0 {
            assert(delta.opaque_at(x, y));
            assert(f.tile.in_bounds(tx, ty));
        } else if f.tile.in_bounds(tx, ty) {
            assert(f.tile.px(tx, ty) == dp);
        }
        assert(d[y][x] == draw_px(c[y][x], f, x, y));
        if p.a != 0 && n.a == 0 {
            assert(cimg.in_bounds(x, y));
            assert(cimg.opaque_at(x, y));
            assert(cr.contains(x, y));
        }
    }
    assert forall|x: int, y: int| #[trigger] render.in_bounds(x, y) implies visible(d[y][x])
        == visible(render.px(x, y)) by {
        assert(next.in_bounds(x, y));
    }
}

/// A tile cut from `img` along its bounding rectangle `r` is tight: its
/// own bounding rectangle is all of it.
proof fn lemma_crop_tight(img: Image, r: Rect, t: Image)
    requires
        img.wf(),
        t.wf(),
        is_bounding_rect(img, r),
        t.width == r.width,
        t.height == r.height,
        forall|x: int, y: int| #[trigger] t.in_bounds(x, y) ==> t.px(x, y) == img.px(r.x + x, r.y + y),
    ensures
        is_bounding_rect(t, Rect { x: 0, y: 0, width: t.width, height: t.height }),
{
    let full = Rect { x: 0, y: 0, width: t.width, height: t.height };
    if img.has_opaque() {
        let y0 = choose|y: int| #[trigger] img.opaque_at(r.x as int, y);
        let x1 = choose|x: int| #[trigger] img.opaque_at(x, r.y as int);
        let y2 = choose|y: int| #[trigger] img.opaque_at(r.x + r.width - 1, y);
        let x3 = choose|x: int| #[trigger] img.opaque_at(x, r.y + r.height - 1);
        assert(r.contains(r.x as int, y0));
        assert(t.in_bounds(0, y0 - r.y));
        assert(t.px(0, y0 - r.y) == img.px(r.x + 0, r.y + (y0 - r.y)));
        assert(t.opaque_at(0, y0 - r.y));
        assert(r.contains(x1, r.y as int));
        assert(t.in_bounds(x1 - r.x, 0));
        assert(t.px(x1 - r.x, 0) == img.px(r.x + (x1 - r.x), r.y + 0));
        assert(t.opaque_at(x1 - r.x, 0));
        assert(r.contains(r.x + r.width - 1, y2));
        assert(t.in_bounds(r.width - 1, y2 - r.y));
        assert(t.px(r.width - 1, y2 - r.y) == img.px(r.x + (r.width - 1), r.y + (y2 - r.y)));
        assert(t.opaque_at(r.width - 1, y2 - r.y));
        assert(r.contains(x3, r.y + r.height - 1));
        assert(t.in_bounds(x3 - r.x, r.height - 1));
        assert(t.px(x3 - r.x, r.height - 1) == img.px(r.x + (x3 - r.x), r.y + (r.height - 1)));
        assert(t.opaque_at(x3 - r.x, r.height - 1));
        assert(t.has_opaque());
        assert forall|x: int, y: int| #[trigger] t.opaque_at(x, y) implies full.contains(x, y) by {}
    } else {
        assert(r == Rect::zero());
        if t.has_opaque() {
            let (x, y) = choose|x: int, y: int| #[trigger] t.opaque_at(x, y);
            assert(t.in_bounds(x, y));
        }
    }
}

/// The first step: `img` cropped to its bounding rectangle, drawn at that
/// rectangle's corner, with nothing to erase.
pub open spec fn first_step(f: CompiledFrame, img: Image) -> bool {
    &&& f.cleanup_rect is None
    &&& exists|r: Rect|
        {
            &&& is_bounding_rect(img, r)
            &&& f.offset_x == r.x
            &&& f.offset_y == r.y
            &&& f.tile.width == r.width
            &&& f.tile.height == r.height
            &&& forall|x: int, y: int| #[trigger] f.tile.in_bounds(x, y) ==> f.tile.px(x, y) == img.px(r.x + x, r.y + y)
        }
}

/// A step of a `w` x `h` animation: its tile lies on the canvas, and an
/// erase area, if any, is never the zero rectangle.
pub open spec fn step_in_canvas(f: CompiledFrame, w: nat, h: nat) -> bool {
    &&& is_bounding_rect(f.tile, Rect { x: 0, y: 0, width: f.tile.width, height: f.tile.height })
    &&& f.offset_x + f.tile.width <= w
    &&& f.offset_y + f.tile.height <= h
    &&& f.cleanup_rect != Some(Rect::zero())
}

/// Every pixel of `img` with zero alpha is the all-zero pixel.
pub open spec fn is_clean(img: Image) -> bool {
    forall|x: int, y: int| #[trigger] img.in_bounds(x, y) && img.px(x, y).a == 0 ==> img.px(x, y) == transparent()
}

/// Step `f` is what the differ makes of `prev` and `next`: the erase area
/// is the clear rectangle (none when it is zero) and the tile is the delta
/// tile cropped to its bounding rectangle, drawn at that rectangle's corner.
pub open spec fn differ_step(prev: Image, next: Image, f: CompiledFrame) -> bool {
    exists|cr: Rect, delta: Image, r: Rect|
        {
            &&& is_clear_rect(prev, next, cr)
            &&& delta.width == prev.width
            &&& delta.height == prev.height
            &&& (forall|x: int, y: int| #[trigger]
                delta.in_bounds(x, y) ==> delta.px(x, y) == delta_px(prev.px(x, y), next.px(x, y), cr.contains(x, y)))
            &&& is_bounding_rect(delta, r)
            &&& f.offset_x == r.x
            &&& f.offset_y == r.y
            &&& f.tile.width == r.width
            &&& f.tile.height == r.height
            &&& (forall|x: int, y: int| #[trigger]
                f.tile.in_bounds(x, y) ==> f.tile.px(x, y) == delta.px(r.x + x, r.y + y))
            &&& f.cleanup_rect == (if cr == Rect::zero() { None::<Rect> } else { Some(cr) })
        }
}

proof fn lemma_differ_step_alike(prev: Image, next: Image, f: CompiledFrame, g: CompiledFrame)
    requires
        differ_step(prev, next, f),
        draws_alike(f, g),
    ensures
        differ_step(prev, next, g),
{
    let (cr, delta, r) = choose|cr: Rect, delta: Image, r: Rect|
        {
            &&& is_clear_rect(prev, next, cr)
            &&& delta.width == prev.width
            &&& delta.height == prev.height
            &&& (forall|x: int, y: int| #[trigger]
                delta.in_bounds(x, y) ==> delta.px(x, y) == delta_px(prev.px(x, y), next.px(x, y), cr.contains(x, y)))
            &&& is_bounding_rect(delta, r)
            &&& f.offset_x == r.x
            &&& f.offset_y == r.y
            &&& f.tile.width == r.width
            &&& f.tile.height == r.height
            &&& (forall|x: int, y: int| #[trigger]
                f.tile.in_bounds(x, y) ==> f.tile.px(x, y) == delta.px(r.x + x, r.y + y))
            &&& f.cleanup_rect == (if cr == Rect::zero() { None::<Rect> } else { Some(cr) })
        };
    assert(g.tile == f.tile);
}

/// Every later step is the differ step of its input and the one before it,
/// where that one is clean.
pub open spec fn steps_follow_differ(out: Seq<CompiledFrame>, inputs: Seq<Image>) -> bool {
    forall|j: int|
        0 < j < out.len() && is_clean(inputs[time_before(out, j as nat) - 1]) ==> differ_step(
            inputs[time_before(out, j as nat) - 1],
            inputs[time_before(out, j as nat) as int],
            #[trigger] out[j],
        )
}

proof fn lemma_steps_extend(old: Seq<CompiledFrame>, out: Seq<CompiledFrame>, inputs: Seq<Image>)
    requires
        old.len() >= 1,
        out.len() == old.len(),
        forall|t: int| 0 <= t < old.len() - 1 ==> #[trigger] out[t] == old[t],
        draws_alike(out[old.len() - 1], old[old.len() - 1]),
        steps_follow_differ(old, inputs),
    ensures
        steps_follow_differ(out, inputs),
{
    let n = old.len();
    assert forall|j: int|
        0 < j < out.len() && is_clean(inputs[time_before(out, j as nat) - 1]) implies differ_step(
            inputs[time_before(out, j as nat) - 1],
            inputs[time_before(out, j as nat) as int],
            #[trigger] out[j],
        ) by {
        assert forall|t: int| 0 <= t < j implies #[trigger] out[t].frame_time == old[t].frame_time by {
            assert(out[t] == old[t]);
        }
        lemma_time_agree(out, old, j as nat);
        if j == n - 1 {
            lemma_differ_step_alike(inputs[time_before(old, j as nat) - 1], inputs[time_before(old, j as nat) as int], old[j], out[j]);
        } else {
            assert(out[j] == old[j]);
        }
    }
}

proof fn lemma_steps_push(old: Seq<CompiledFrame>, out: Seq<CompiledFrame>, inputs: Seq<Image>, f: CompiledFrame, i: int)
    requires
        out == old.push(f),
        time_before(old, old.len()) == i,
        old.len() > 0 && is_clean(inputs[i - 1]) ==> differ_step(inputs[i - 1], inputs[i], f),
        steps_follow_differ(old, inputs),
    ensures
        steps_follow_differ(out, inputs),
{
    let n = old.len();
    assert forall|j: int|
        0 < j < out.len() && is_clean(inputs[time_before(out, j as nat) - 1]) implies differ_step(
            inputs[time_before(out, j as nat) - 1],
            inputs[time_before(out, j as nat) as int],
            #[trigger] out[j],
        ) by {
        assert forall|t: int| 0 <= t < j implies #[trigger] out[t].frame_time == old[t].frame_time by {
            assert(out[t] == old[t]);
        }
        lemma_time_agree(out, old, j as nat);
        if j < n {
            assert(out[j] == old[j]);
        }
    }
}

/// What the differ makes of the rendered canvas it makes of any image
/// equal to it.
proof fn lemma_differ_on_equal(
    rendered: Image,
    prev: Image,
    next: Image,
    cr: Rect,
    delta: Image,
    r: Rect,
    f: CompiledFrame,
)
    requires
        rendered.same(prev),
        is_clear_rect(rendered, next, cr),
        delta.width == rendered.width && delta.height == rendered.height,
        forall|x: int, y: int| #[trigger]
            delta.in_bounds(x, y) ==> delta.px(x, y) == delta_px(rendered.px(x, y), next.px(x, y), cr.contains(x, y)),
        is_bounding_rect(delta, r),
        f.offset_x == r.x,
        f.offset_y == r.y,
        f.tile.width == r.width,
        f.tile.height == r.height,
        forall|x: int, y: int| #[trigger]
            f.tile.in_bounds(x, y) ==> f.tile.px(x, y) == delta.px(r.x + x, r.y + y),
        f.cleanup_rect == (if cr == Rect::zero() { None::<Rect> } else { Some(cr) }),
    ensures
        differ_step(prev, next, f),
{
    let c = choose|ci: Image|
        {
            &&& ci.wf()
            &&& ci.width == rendered.width
            &&& ci.height == rendered.height
            &&& (forall|x: int, y: int| #[trigger]
                ci.in_bounds(x, y) ==> ci.px(x, y) == clear_px(rendered.px(x, y), next.px(x, y)))
            &&& is_bounding_rect(ci, cr)
        };
    assert forall|x: int, y: int| #[trigger] c.in_bounds(x, y) implies c.px(x, y) == clear_px(prev.px(x, y), next.px(x, y)) by {
        assert(rendered.in_bounds(x, y));
    }
    assert(is_clear_rect(prev, next, cr));
    assert forall|x: int, y: int| #[trigger] delta.in_bounds(x, y) implies delta.px(x, y) == delta_px(
        prev.px(x, y),
        next.px(x, y),
        cr.contains(x, y),
    ) by {
        assert(rendered.in_bounds(x, y));
    }
}

/// The two images have one size and show the same thing.
pub open spec fn looks_same(a: Image, b: Image) -> bool {
    &&& a.width == b.width
    &&& a.height == b.height
    &&& forall|x: int, y: int| #[trigger] a.in_bounds(x, y) ==> visible(a.px(x, y)) == visible(b.px(x, y))
}

proof fn lemma_time_mono(s: Seq<CompiledFrame>, a: nat, b: nat)
    requires
        a <= b,
    ensures
        time_before(s, a) <= time_before(s, b),
    decreases b - a,
{
    if a < b {
        lemma_time_mono(s, a, (b - 1) as nat);
    }
}

/// After the last step is lengthened to cover input `i`, the earlier inputs
/// keep their steps and input `i` belongs to the last step alone.
proof fn lemma_covers_extend(old: Seq<CompiledFrame>, out: Seq<CompiledFrame>, i: nat)
    requires
        old.len() >= 1,
        out.len() == old.len(),
        forall|t: int| 0 <= t < old.len() - 1 ==> #[trigger] out[t].frame_time == old[t].frame_time,
        out[old.len() - 1].frame_time == old[old.len() - 1].frame_time + 1,
        old[old.len() - 1].frame_time >= 1,
        time_before(old, old.len()) == i,
    ensures
        forall|j: int, k: int| k < i ==> (covers(out, j, k) <==> covers(old, j, k)),
        covers(out, old.len() - 1, i as int),
        forall|j: int| #[trigger] covers(out, j, i as int) ==> j == old.len() - 1,
{
    let n = old.len();
    assert forall|j: int, k: int| k < i implies (covers(out, j, k) <==> covers(old, j, k)) by {
        if 0 <= j < n - 1 {
            lemma_time_agree(out, old, j as nat);
            lemma_time_agree(out, old, (j + 1) as nat);
        } else if j == n - 1 {
            lemma_time_agree(out, old, j as nat);
        }
    }
    lemma_time_agree(out, old, (n - 1) as nat);
    assert forall|j: int| #[trigger] covers(out, j, i as int) implies j == n - 1 by {
        if j < n - 1 {
            lemma_time_mono(out, (j + 1) as nat, (n - 1) as nat);
        }
    }
}

/// After a step is added for input `i`, the earlier inputs keep their steps
/// and input `i` belongs to the new step alone.
proof fn lemma_covers_push(old: Seq<CompiledFrame>, out: Seq<CompiledFrame>, i: nat)
    requires
        out.len() == old.len() + 1,
        forall|t: int| 0 <= t < old.len() ==> #[trigger] out[t].frame_time == old[t].frame_time,
        out[old.len() as int].frame_time == 1,
        time_before(old, old.len()) == i,
    ensures
        forall|j: int, k: int| k < i ==> (covers(out, j, k) <==> covers(old, j, k)),
        covers(out, old.len() as int, i as int),
        forall|j: int| #[trigger] covers(out, j, i as int) ==> j == old.len(),
{
    let n = old.len();
    assert forall|j: int, k: int| k < i implies (covers(out, j, k) <==> covers(old, j, k)) by {
        if 0 <= j < n {
            lemma_time_agree(out, old, j as nat);
            lemma_time_agree(out, old, (j + 1) as nat);
        } else if j == n {
            lemma_time_agree(out, old, n);
        }
    }
    lemma_time_agree(out, old, n);
    assert forall|j: int| #[trigger] covers(out, j, i as int) implies j == n by {
        if j < n {
            lemma_time_mono(out, (j + 1) as nat, n);
        }
    }
}

/// Steps start exactly where the input changes look, once input `i` has
/// joined step `jn`.
proof fn lemma_runs_kept(old: Seq<CompiledFrame>, out: Seq<CompiledFrame>, inputs: Seq<Image>, i: nat, jn: int)
    requires
        forall|j: int, k: int| k < i ==> (covers(out, j, k) <==> covers(old, j, k)),
        forall|j: int| #[trigger] covers(out, j, i as int) ==> j == jn,
        time_before(out, out.len()) == i + 1,
        i > 0 ==> (covers(out, jn, i - 1) <==> looks_same(inputs[i as int], inputs[i - 1])),
        forall|j: int, k: int| #[trigger]
            covers(old, j, k) && 0 < k ==> (covers(old, j, k - 1) <==> looks_same(inputs[k], inputs[k - 1])),
    ensures
        forall|j: int, k: int| #[trigger]
            covers(out, j, k) && 0 < k ==> (covers(out, j, k - 1) <==> looks_same(inputs[k], inputs[k - 1])),
{
    assert forall|j: int, k: int| #[trigger] covers(out, j, k) && 0 < k implies (covers(out, j, k - 1) <==> looks_same(inputs[k], inputs[k - 1])) by {
        lemma_time_mono(out, (j + 1) as nat, out.len());
        if k < i {
            assert(covers(old, j, k));
            assert(covers(out, j, k - 1) <==> covers(old, j, k - 1));
        } else {
            assert(k == i);
            assert(j == jn);
        }
    }
}

/// A differ step with nothing to erase and no visible pixel to draw only
/// follows an input that looks the same.
proof fn lemma_quiet_step(prev: Image, next: Image, cr: Rect, delta: Image)
    requires
        prev.wf(),
        next.wf(),
        prev.width == next.width,
        prev.height == next.height,
        is_clear_rect(prev, next, cr),
        cr == Rect::zero(),
        delta.width == prev.width && delta.height == prev.height,
        forall|x: int, y: int| #[trigger]
            delta.in_bounds(x, y) ==> delta.px(x, y) == delta_px(prev.px(x, y), next.px(x, y), cr.contains(x, y)),
        !delta.has_opaque(),
    ensures
        looks_same(next, prev),
{
    let c = choose|ci: Image|
        {
            &&& ci.wf()
            &&& ci.width == prev.width
            &&& ci.height == prev.height
            &&& (forall|x: int, y: int| #[trigger]
                ci.in_bounds(x, y) ==> ci.px(x, y) == clear_px(prev.px(x, y), next.px(x, y)))
            &&& is_bounding_rect(ci, cr)
        };
    assert forall|x: int, y: int| #[trigger] next.in_bounds(x, y) implies visible(next.px(x, y)) == visible(prev.px(x, y)) by {
        assert(delta.in_bounds(x, y));
        assert(!delta.opaque_at(x, y));
        assert(c.in_bounds(x, y));
        if c.opaque_at(x, y) {
            assert(c.has_opaque());
        }
    }
}

/// A differ step that erases or draws something follows an input that
/// looks different.
proof fn lemma_loud_step(prev: Image, next: Image, cr: Rect, delta: Image, r: Rect)
    requires
        prev.wf(),
        next.wf(),
        prev.width == next.width,
        prev.height == next.height,
        is_clear_rect(prev, next, cr),
        delta.width == prev.width && delta.height == prev.height,
        forall|x: int, y: int| #[trigger]
            delta.in_bounds(x, y) ==> delta.px(x, y) == delta_px(prev.px(x, y), next.px(x, y), cr.contains(x, y)),
        is_bounding_rect(delta, r),
        r.width > 0 || cr != Rect::zero(),
    ensures
        !looks_same(next, prev),
{
    let c = choose|ci: Image|
        {
            &&& ci.wf()
            &&& ci.width == prev.width
            &&& ci.height == prev.height
            &&& (forall|x: int, y: int| #[trigger]
                ci.in_bounds(x, y) ==> ci.px(x, y) == clear_px(prev.px(x, y), next.px(x, y)))
            &&& is_bounding_rect(ci, cr)
        };
    if cr != Rect::zero() {
        let (x, y) = choose|x: int, y: int| #[trigger] c.opaque_at(x, y);
        assert(c.opaque_at(x, y));
        assert(next.in_bounds(x, y));
        assert(visible(next.px(x, y)) != visible(prev.px(x, y)));
    } else {
        let (x, y) = choose|x: int, y: int| #[trigger] delta.opaque_at(x, y);
        assert(delta.opaque_at(x, y));
        assert(next.in_bounds(x, y));
        assert(visible(next.px(x, y)) != visible(prev.px(x, y)));
    }
}

/// Showing one more input frame with the last step, by lengthening it.
proof fn lemma_extend_last(
    old_out: Seq<CompiledFrame>,
    out: Seq<CompiledFrame>,
    inputs: Seq<Image>,
    i: nat,
    w: nat,
    h: nat,
)
    requires
        old_out.len() >= 1,
        out.len() == old_out.len(),
        forall|t: int| 0 <= t < old_out.len() - 1 ==> #[trigger] out[t] == old_out[t],
        draws_alike(out[old_out.len() - 1], old_out[old_out.len() - 1]),
        out[old_out.len() - 1].frame_time == old_out[old_out.len() - 1].frame_time + 1,
        i < inputs.len(),
        time_before(old_out, old_out.len()) == i,
        forall|j: int, k: int| #[trigger]
            covers(old_out, j, k) ==> shows(replay(old_out, (j + 1) as nat, w, h), inputs[k]),
        shows(replay(old_out, old_out.len(), w, h), inputs[i as int]),
    ensures
        time_before(out, out.len()) == i + 1,
        forall|j: int, k: int| #[trigger]
            covers(out, j, k) ==> shows(replay(out, (j + 1) as nat, w, h), inputs[k]),
        replay(out, out.len(), w, h) == replay(old_out, old_out.len(), w, h),
{
    let n = old_out.len();
    assert forall|t: int| 0 <= t < n implies #[trigger] draws_alike(out[t], old_out[t]) by {}
    lemma_replay_agree(out, old_out, n, w, h);
    assert forall|t: int| 0 <= t < n - 1 implies #[trigger] out[t].frame_time == old_out[t].frame_time by {}
    lemma_time_agree(out, old_out, (n - 1) as nat);
    assert(time_before(out, n) == time_before(old_out, n) + 1);
    assert forall|j: int, k: int| #[trigger]
        covers(out, j, k) implies shows(replay(out, (j + 1) as nat, w, h), inputs[k]) by {
        lemma_replay_agree(out, old_out, (j + 1) as nat, w, h);
        if j < n - 1 {
            lemma_time_agree(out, old_out, (j + 1) as nat);
            assert(covers(old_out, j, k));
        } else if k < i {
            assert(covers(old_out, j, k));
        }
    }
}

/// Compiles the frames of one animation, in order, into the steps that
/// rebuild them: the first frame cropped to its content, then for each
/// frame that differs from the canvas so far a delta tile and an optional
/// area to erase; a frame equal to the canvas lengthens the last step.
#[verifier::rlimit(100)]
pub fn compile_animation(inputs: &Vec<Image>) -> (out: Vec<CompiledFrame>)
    requires
        inputs@.len() <= u32::MAX,
        inputs@.len() > 0 ==> frames_fit(inputs@, inputs@[0].width as nat, inputs@[0].height as nat),
    ensures
        out@.len() > 0 <==> inputs@.len() > 0,
        forall|j: int| 0 <= j < out@.len() ==> #[trigger] out@[j].frame_time >= 1,
        forall|j: int| 0 <= j < out@.len() ==> #[trigger] out@[j].tile.wf(),
        forall|j: int| 0 < j < out@.len() ==> #[trigger] out@[j].tile.width > 0 || out@[j].cleanup_rect is Some,
        inputs@.len() > 0 ==> first_step(out@[0], inputs@[0]),
        steps_follow_differ(out@, inputs@),
        forall|j: int, k: int| #[trigger]
            covers(out@, j, k) && 0 < k ==> (covers(out@, j, k - 1) <==> looks_same(inputs@[k], inputs@[k - 1])),
        inputs@.len() > 0 ==> forall|j: int|
            0 <= j < out@.len() ==> step_in_canvas(#[trigger] out@[j], inputs@[0].width as nat, inputs@[0].height as nat),
        inputs@.len() > 0 ==> reconstructs(out@, inputs@, inputs@[0].width as nat, inputs@[0].height as nat),
        inputs@.len() > 0 ==> shows(
            draw(blank_canvas(inputs@[0].width as nat, inputs@[0].height as nat), out@[0], inputs@[0].width as nat, inputs@[0].height as nat),
            inputs@[0],
        ),
        inputs@.len() > 0 && (forall|k: int| 0 <= k < inputs@.len() ==> #[trigger] inputs@[k].same(inputs@[0]))
            ==> out@.len() == 1 && out@[0].frame_time == inputs@.len(),
{
    let mut out: Vec<CompiledFrame> = Vec::new();
    if inputs.len() == 0 {
        return out;
    }
    let w = inputs[0].width;
    let h = inputs[0].height;
    let ghost wn = w as nat;
    let ghost hn = h as nat;
    let mut rendered = Image::new(w, h);
    let mut i: usize = 0;
    while i < inputs.len()
        invariant
            inputs@.len() <= u32::MAX,
            frames_fit(inputs@, wn, hn),
            wn == w && hn == h,
            i <= inputs@.len(),
            out@.len() > 0 <==> i > 0,
            rendered.wf(),
            rendered.width == w,
            rendered.height == h,
            forall|j: int| 0 <= j < out@.len() ==> #[trigger] out@[j].frame_time >= 1,
            forall|j: int| 0 <= j < out@.len() ==> #[trigger] out@[j].tile.wf(),
            forall|j: int| 0 < j < out@.len() ==> #[trigger] out@[j].tile.width > 0 || out@[j].cleanup_rect is Some,
            i > 0 ==> first_step(out@[0], inputs@[0]),
            i > 0 ==> looks_same(rendered, inputs@[i - 1]),
            i > 0 && is_clean(inputs@[i - 1]) ==> rendered.same(inputs@[i - 1]),
            steps_follow_differ(out@, inputs@),
            i > 0 ==> covers(out@, out@.len() - 1, i - 1),
            forall|j: int, k: int| #[trigger]
                covers(out@, j, k) && 0 < k ==> (covers(out@, j, k - 1) <==> looks_same(inputs@[k], inputs@[k - 1])),
            forall|j: int| 0 <= j < out@.len() ==> step_in_canvas(#[trigger] out@[j], wn, hn),
            time_before(out@, out@.len()) == i,
            forall|j: int, k: int| #[trigger]
                covers(out@, j, k) ==> shows(replay(out@, (j + 1) as nat, wn, hn), inputs@[k]),
            i > 0 ==> shows(replay(out@, out@.len(), wn, hn), rendered),
            i > 0 && (forall|k: int| 0 <= k < i ==> #[trigger] inputs@[k].same(inputs@[0])) ==> out@.len() == 1
                && rendered.same(inputs@[0]),
        decreases inputs@.len() - i,
    {
        let img = &inputs[i];
        assert(inputs@[i as int].wf());
        let ghost old_out = out@;
        let ghost old_rendered = rendered;
        assert(i > 0 ==> looks_same(old_rendered, inputs@[i - 1]));
        if out.len() == 0 {
            let r = get_bounding_rect(img);
            let frame = CompiledFrame {
                tile: crop(img, r),
                offset_x: r.x,
                offset_y: r.y,
                frame_time: 1,
                cleanup_rect: None,
            };
            proof {
                lemma_crop_tight(*img, r, frame.tile);
                lemma_first_frame(*img, r, frame);
                assert(seq![frame][0] == frame);
                assert(replay(seq![frame], 0, wn, hn) == blank_canvas(wn, hn));
                assert(replay(seq![frame], 1, wn, hn) == draw(blank_canvas(wn, hn), frame, wn, hn));
            }
            rendered = crop(img, Rect { x: 0, y: 0, width: w, height: h });
            out.push(frame);
            proof {
                assert(out@ == seq![frame]);
                assert(out@[0].frame_time == 1);
                assert(time_before(out@, 0) == 0);
                assert(time_before(out@, 1) == time_before(out@, 0) + out@[0].frame_time);
                assert forall|j: int, k: int| #[trigger]
                    covers(out@, j, k) implies shows(replay(out@, (j + 1) as nat, wn, hn), inputs@[k]) by {
                    assert(j == 0 && k == 0);
                }
                assert forall|x: int, y: int| #[trigger] rendered.in_bounds(x, y)
                    implies visible(replay(out@, 1, wn, hn)[y][x]) == visible(rendered.px(x, y)) by {
                    assert(img.in_bounds(x, y));
                }
                assert forall|x: int, y: int| #[trigger] rendered.in_bounds(x, y)
                    implies rendered.px(x, y) == inputs@[0].px(x, y) by {}
                assert(looks_same(rendered, inputs@[0]));
                assert forall|j: int, k: int| #[trigger] covers(out@, j, k) && 0 < k
                    implies (covers(out@, j, k - 1) <==> looks_same(inputs@[k], inputs@[k - 1])) by {
                    assert(j == 0 && k == 0);
                }
            }
        } else if images_equal(img, &rendered) {
            let mut last = out.pop().unwrap();
            proof {
                assert(last.frame_time <= time_before(old_out, old_out.len()));
            }
            last.frame_time = last.frame_time + 1;
            out.push(last);
            proof {
                let n = old_out.len();
                assert forall|x: int, y: int| #[trigger] inputs@[i as int].in_bounds(x, y)
                    implies visible(replay(old_out, n, wn, hn)[y][x]) == visible(inputs@[i as int].px(x, y)) by {
                    assert(rendered.in_bounds(x, y));
                }
                lemma_extend_last(old_out, out@, inputs@, i as nat, wn, hn);
                if forall|k: int| 0 <= k < i + 1 ==> #[trigger] inputs@[k].same(inputs@[0]) {
                    assert(inputs@[0].same(inputs@[0]));
                }
                assert forall|x: int, y: int| #[trigger] img.in_bounds(x, y)
                    implies visible(img.px(x, y)) == visible(inputs@[i - 1].px(x, y)) by {
                    assert(rendered.in_bounds(x, y));
                }
                assert forall|x: int, y: int| #[trigger] rendered.in_bounds(x, y)
                    implies visible(rendered.px(x, y)) == visible(img.px(x, y)) by {
                    assert(img.in_bounds(x, y));
                }
                lemma_covers_extend(old_out, out@, i as nat);
                assert(covers(old_out, n - 1, i - 1));
                lemma_runs_kept(old_out, out@, inputs@, i as nat, n - 1);
                assert forall|t: int| 0 <= t < n - 1 implies #[trigger] out@[t] == old_out[t] by {}
                lemma_steps_extend(old_out, out@, inputs@);
                assert forall|x: int, y: int| #[trigger] rendered.in_bounds(x, y)
                    implies rendered.px(x, y) == img.px(x, y) by {
                    assert(img.in_bounds(x, y));
                }
            }
        } else {
            proof {
                if forall|k: int| 0 <= k < i + 1 ==> #[trigger] inputs@[k].same(inputs@[0]) {
                    assert(inputs@[i as int].same(inputs@[0]));
                    assert forall|x: int, y: int| #[trigger] img.in_bounds(x, y)
                        implies img.px(x, y) == old_rendered.px(x, y) by {
                        assert(inputs@[0].in_bounds(x, y));
                        assert(old_rendered.in_bounds(x, y));
                    }
                    assert(img.same(old_rendered));
                }
            }
            let (cr, render, delta) = generate_frame(&rendered, img);
            let r = get_bounding_rect(&delta);
            let frame = CompiledFrame {
                tile: crop(&delta, r),
                offset_x: r.x,
                offset_y: r.y,
                frame_time: 1,
                cleanup_rect: if cr.is_empty() {
                    None
                } else {
                    Some(cr)
                },
            };
            proof {
                lemma_crop_tight(delta, r, frame.tile);
                lemma_delta_step(replay(old_out, old_out.len(), wn, hn), rendered, *img, cr, render, delta, r, frame);
            }
            if frame.tile.width == 0 && frame.cleanup_rect.is_none() {
                // Nothing to erase or draw: the last step stays on screen longer.
                let mut last = out.pop().unwrap();
                proof {
                    assert(last.frame_time <= time_before(old_out, old_out.len()));
                }
                last.frame_time = last.frame_time + 1;
                out.push(last);
                proof {
                    let n = old_out.len();
                    let c = replay(old_out, n, wn, hn);
                    assert forall|x: int, y: int| #[trigger] inputs@[i as int].in_bounds(x, y)
                        implies visible(c[y][x]) == visible(inputs@[i as int].px(x, y)) by {
                        assert(draw(c, frame, wn, hn)[y][x] == c[y][x]);
                    }
                    assert forall|x: int, y: int| #[trigger] render.in_bounds(x, y)
                        implies visible(c[y][x]) == visible(render.px(x, y)) by {
                        assert(draw(c, frame, wn, hn)[y][x] == c[y][x]);
                    }
                    lemma_extend_last(old_out, out@, inputs@, i as nat, wn, hn);
                    lemma_replay_agree(out@, old_out, n, wn, hn);
                    assert(r == Rect::zero());
                    lemma_quiet_step(old_rendered, *img, cr, delta);
                    assert forall|x: int, y: int| #[trigger] img.in_bounds(x, y)
                        implies visible(img.px(x, y)) == visible(inputs@[i - 1].px(x, y)) by {
                        assert(old_rendered.in_bounds(x, y));
                    }
                    lemma_covers_extend(old_out, out@, i as nat);
                    assert(covers(old_out, n - 1, i - 1));
                    lemma_runs_kept(old_out, out@, inputs@, i as nat, n - 1);
                    assert forall|t: int| 0 <= t < n - 1 implies #[trigger] out@[t] == old_out[t] by {}
                    lemma_steps_extend(old_out, out@, inputs@);
                }
                rendered = render;
                proof {
                    if is_clean(*img) {
                        assert forall|x: int, y: int| #[trigger] rendered.in_bounds(x, y)
                            implies rendered.px(x, y) == img.px(x, y) by {
                            assert(img.in_bounds(x, y));
                        }
                    }
                    assert forall|x: int, y: int| #[trigger] rendered.in_bounds(x, y)
                        implies visible(rendered.px(x, y)) == visible(img.px(x, y)) by {
                        assert(img.in_bounds(x, y));
                    }
                }
            } else {
                rendered = render;
                out.push(frame);
                proof {
                    let n = old_out.len();
                    assert(out@ == old_out.push(frame));
                    assert forall|t: int| 0 <= t < n implies #[trigger] draws_alike(out@[t], old_out[t]) by {}
                    assert forall|t: int| 0 <= t < n implies #[trigger] out@[t].frame_time == old_out[t].frame_time by {}
                    lemma_replay_agree(out@, old_out, n, wn, hn);
                    lemma_time_agree(out@, old_out, n);
                    assert(time_before(out@, n + 1) == i + 1);
                    assert forall|j: int, k: int| #[trigger]
                        covers(out@, j, k) implies shows(replay(out@, (j + 1) as nat, wn, hn), inputs@[k]) by {
                        if j < n {
                            lemma_replay_agree(out@, old_out, (j + 1) as nat, wn, hn);
                            lemma_time_agree(out@, old_out, (j + 1) as nat);
                            assert(covers(old_out, j, k));
                        } else {
                            assert(k == i);
                        }
                    }
                    lemma_loud_step(old_rendered, *img, cr, delta, r);
                    if looks_same(inputs@[i as int], inputs@[i - 1]) {
                        assert forall|x: int, y: int| #[trigger] img.in_bounds(x, y)
                            implies visible(img.px(x, y)) == visible(old_rendered.px(x, y)) by {
                            assert(inputs@[i - 1].in_bounds(x, y));
                            assert(old_rendered.in_bounds(x, y));
                            assert(visible(old_rendered.px(x, y)) == visible(inputs@[i - 1].px(x, y)));
                        }
                    }
                    if is_clean(inputs@[i - 1]) {
                        lemma_differ_on_equal(old_rendered, inputs@[i - 1], *img, cr, delta, r, frame);
                    }
                    lemma_steps_push(old_out, out@, inputs@, frame, i as int);
                    if is_clean(*img) {
                        assert forall|x: int, y: int| #[trigger] rendered.in_bounds(x, y)
                            implies rendered.px(x, y) == img.px(x, y) by {
                            assert(img.in_bounds(x, y));
                        }
                    }
                    lemma_covers_push(old_out, out@, i as nat);
                    assert(!covers(out@, n as int, i - 1));
                    lemma_runs_kept(old_out, out@, inputs@, i as nat, n as int);
                    assert forall|x: int, y: int| #[trigger] rendered.in_bounds(x, y)
                        implies visible(rendered.px(x, y)) == visible(img.px(x, y)) by {
                        assert(img.in_bounds(x, y));
                    }
                }
            }
        }
        i = i + 1;
    }
    proof {
        assert(time_before(out@, 0) == 0);
        assert(time_before(out@, 1) == time_before(out@, 0) + out@[0].frame_time);
        assert(covers(out@, 0, 0));
        assert(replay(out@, 0, wn, hn) == blank_canvas(wn, hn));
        if out@.len() == 1 {
            assert(time_before(out@, 1) == time_before(out@, 0) + out@[0].frame_time);
        }
    }
    out
}

} // verus!
