use vstd::prelude::*;

use crate::animation::CompiledFrame;
use crate::image::{images_equal, transparent, Image, Pixel, Rect};
use texture_packer::{TexturePacker, TexturePackerConfig};

verus! {

/// A named animation and its compiled frames.
#[derive(Debug)]
pub struct Animation {
    pub name: String,
    pub frames: Vec<CompiledFrame>,
}

/// The tile of frame `f` of animation `a`.
pub open spec fn tile_at(anims: Seq<Animation>, a: int, f: int) -> Image {
    anims[a].frames@[f].tile
}

pub open spec fn is_frame(anims: Seq<Animation>, a: int, f: int) -> bool {
    0 <= a < anims.len() && 0 <= f < anims[a].frames@.len()
}

pub open spec fn tiles_wf(anims: Seq<Animation>) -> bool {
    forall|a: int, f: int| is_frame(anims, a, f) ==> #[trigger] tile_at(anims, a, f).wf()
}

/// The tiles that `unique` names, one per slot, are pairwise different,
/// and `slots` sends every frame to the slot holding an equal tile.
pub open spec fn is_dedup(anims: Seq<Animation>, unique: Seq<(usize, usize)>, slots: Seq<Vec<usize>>) -> bool {
    &&& forall|u: int| 0 <= u < unique.len() ==> #[trigger] is_frame(anims, unique[u].0 as int, unique[u].1 as int)
    &&& forall|u: int, v: int|
        0 <= u < unique.len() && 0 <= v < unique.len() && u != v ==> !#[trigger] tile_at(anims, unique[u].0 as int, unique[u].1 as int).same(
            #[trigger] tile_at(anims, unique[v].0 as int, unique[v].1 as int),
        )
    &&& slots.len() == anims.len()
    &&& forall|a: int| 0 <= a < anims.len() ==> #[trigger] slots[a]@.len() == anims[a].frames@.len()
    &&& forall|a: int, f: int| #[trigger] is_frame(anims, a, f) ==> {
        let s = slots[a]@[f] as int;
        &&& 0 <= s < unique.len()
        &&& tile_at(anims, unique[s].0 as int, unique[s].1 as int).same(tile_at(anims, a, f))
    }
}

pub proof fn lemma_same_symmetric(a: Image, b: Image)
    requires
        a.same(b),
    ensures
        b.same(a),
{
    assert forall|x: int, y: int| #[trigger] b.in_bounds(x, y) implies b.px(x, y) == a.px(x, y) by {
        assert(a.in_bounds(x, y));
    }
}

pub proof fn lemma_same_transitive(a: Image, b: Image, c: Image)
    requires
        a.same(b),
        b.same(c),
    ensures
        a.same(c),
{
    assert forall|x: int, y: int| #[trigger] a.in_bounds(x, y) implies a.px(x, y) == c.px(x, y) by {
        assert(b.in_bounds(x, y));
    }
}

/// The slot among `unique` whose tile equals `tile`, if there is one.
fn find_tile(anims: &Vec<Animation>, unique: &Vec<(usize, usize)>, tile: &Image) -> (r: Option<usize>)
    requires
        tiles_wf(anims@),
        tile.wf(),
        forall|u: int| 0 <= u < unique@.len() ==> #[trigger] is_frame(anims@, unique@[u].0 as int, unique@[u].1 as int),
    ensures
        match r {
            Some(k) => k < unique@.len() && tile_at(anims@, unique@[k as int].0 as int, unique@[k as int].1 as int).same(*tile),
            None => forall|u: int| 0 <= u < unique@.len() ==> !#[trigger] tile_at(anims@, unique@[u].0 as int, unique@[u].1 as int).same(*tile),
        },
{
    let mut k: usize = 0;
    while k < unique.len()
        invariant
            tiles_wf(anims@),
            tile.wf(),
            forall|u: int| 0 <= u < unique@.len() ==> #[trigger] is_frame(anims@, unique@[u].0 as int, unique@[u].1 as int),
            k <= unique@.len(),
            forall|u: int| 0 <= u < k ==> !#[trigger] tile_at(anims@, unique@[u].0 as int, unique@[u].1 as int).same(*tile),
        decreases unique@.len() - k,
    {
        let (a, f) = unique[k];
        assert(is_frame(anims@, a as int, f as int));
        assert(tile_at(anims@, a as int, f as int).wf());
        if images_equal(&anims[a].frames[f].tile, tile) {
            return Some(k);
        }
        k = k + 1;
    }
    None
}

/// Frame `(a1, f1)` comes before frame `(a2, f2)` in the walk over
/// animations in order and each one's frames in order.
pub open spec fn walk_before(a1: int, f1: int, a2: int, f2: int) -> bool {
    a1 < a2 || (a1 == a2 && f1 < f2)
}

/// The slots follow the walk, and each slot's frame is the first frame of
/// the walk with that tile content.
pub open spec fn first_occurrences(anims: Seq<Animation>, unique: Seq<(usize, usize)>) -> bool {
    &&& forall|u: int, v: int|
        0 <= u < v < unique.len() ==> walk_before(
            (#[trigger] unique[u]).0 as int,
            unique[u].1 as int,
            (#[trigger] unique[v]).0 as int,
            unique[v].1 as int,
        )
    &&& forall|u: int, a: int, f: int|
        #![trigger is_frame(anims, a, f), unique[u]]
        0 <= u < unique.len() && is_frame(anims, a, f) && walk_before(a, f, unique[u].0 as int, unique[u].1 as int)
            ==> !tile_at(anims, a, f).same(slot_tile(anims, unique, u))
}

/// Walks the animations in order, and each one's frames in order, and keeps
/// the first frame of each distinct tile content. Returns those frames, one
/// per slot, and the slot of every frame.
pub fn deduplicate(anims: &Vec<Animation>) -> (r: (Vec<(usize, usize)>, Vec<Vec<usize>>))
    requires
        tiles_wf(anims@),
    ensures
        is_dedup(anims@, r.0@, r.1@),
        first_occurrences(anims@, r.0@),
{
    let mut unique: Vec<(usize, usize)> = Vec::new();
    let mut slots: Vec<Vec<usize>> = Vec::new();
    let mut a: usize = 0;
    while a < anims.len()
        invariant
            tiles_wf(anims@),
            a <= anims@.len(),
            slots@.len() == a,
            first_occurrences(anims@, unique@),
            forall|u: int| 0 <= u < unique@.len() ==> (#[trigger] unique@[u]).0 < a,
            forall|u: int| 0 <= u < unique@.len() ==> #[trigger] is_frame(anims@, unique@[u].0 as int, unique@[u].1 as int),
            forall|u: int, v: int|
                0 <= u < unique@.len() && 0 <= v < unique@.len() && u != v ==> !#[trigger] tile_at(anims@, unique@[u].0 as int, unique@[u].1 as int).same(
                    #[trigger] tile_at(anims@, unique@[v].0 as int, unique@[v].1 as int),
                ),
            forall|aa: int| 0 <= aa < a ==> #[trigger] slots@[aa]@.len() == anims@[aa].frames@.len(),
            forall|aa: int, f: int| 0 <= aa < a && #[trigger] is_frame(anims@, aa, f) ==> {
                let s = slots@[aa]@[f] as int;
                &&& 0 <= s < unique@.len()
                &&& tile_at(anims@, unique@[s].0 as int, unique@[s].1 as int).same(tile_at(anims@, aa, f))
            },
        decreases anims@.len() - a,
    {
        let mut row: Vec<usize> = Vec::new();
        let mut f: usize = 0;
        while f < anims[a].frames.len()
            invariant
                tiles_wf(anims@),
                a < anims@.len(),
                slots@.len() == a,
                f <= anims@[a as int].frames@.len(),
                row@.len() == f,
                first_occurrences(anims@, unique@),
                forall|u: int| 0 <= u < unique@.len() ==> walk_before((#[trigger] unique@[u]).0 as int, unique@[u].1 as int, a as int, f as int),
                forall|u: int| 0 <= u < unique@.len() ==> #[trigger] is_frame(anims@, unique@[u].0 as int, unique@[u].1 as int),
                forall|u: int, v: int|
                    0 <= u < unique@.len() && 0 <= v < unique@.len() && u != v ==> !#[trigger] tile_at(anims@, unique@[u].0 as int, unique@[u].1 as int).same(
                        #[trigger] tile_at(anims@, unique@[v].0 as int, unique@[v].1 as int),
                    ),
                forall|aa: int| 0 <= aa < a ==> #[trigger] slots@[aa]@.len() == anims@[aa].frames@.len(),
                forall|aa: int, ff: int| 0 <= aa < a && #[trigger] is_frame(anims@, aa, ff) ==> {
                    let s = slots@[aa]@[ff] as int;
                    &&& 0 <= s < unique@.len()
                    &&& tile_at(anims@, unique@[s].0 as int, unique@[s].1 as int).same(tile_at(anims@, aa, ff))
                },
                forall|ff: int| 0 <= ff < f ==> {
                    let s = #[trigger] row@[ff] as int;
                    &&& 0 <= s < unique@.len()
                    &&& tile_at(anims@, unique@[s].0 as int, unique@[s].1 as int).same(tile_at(anims@, a as int, ff))
                },
            decreases anims@[a as int].frames@.len() - f,
        {
            assert(is_frame(anims@, a as int, f as int));
            assert(tile_at(anims@, a as int, f as int).wf());
            let tile = &anims[a].frames[f].tile;
            match find_tile(anims, &unique, tile) {
                Some(k) => {
                    row.push(k);
                },
                None => {
                    let ghost old_unique = unique@;
                    unique.push((a, f));
                    proof {
                        assert forall|u: int, v: int|
                            0 <= u < unique@.len() && 0 <= v < unique@.len() && u != v implies !#[trigger] tile_at(anims@, unique@[u].0 as int, unique@[u].1 as int).same(
                                #[trigger] tile_at(anims@, unique@[v].0 as int, unique@[v].1 as int),
                            ) by {
                            if u == old_unique.len() {
                                if tile_at(anims@, unique@[u].0 as int, unique@[u].1 as int).same(tile_at(anims@, unique@[v].0 as int, unique@[v].1 as int)) {
                                    lemma_same_symmetric(tile_at(anims@, unique@[u].0 as int, unique@[u].1 as int), tile_at(anims@, unique@[v].0 as int, unique@[v].1 as int));
                                }
                            }
                        }
                        let t = tile_at(anims@, a as int, f as int);
                        assert forall|x: int, y: int| #[trigger] t.in_bounds(x, y) implies t.px(x, y) == t.px(x, y) by {}
                        assert(t.same(t));
                        let n = old_unique.len() as int;
                        assert(unique@[n] == (a, f));
                        assert forall|u: int, aa: int, ff: int|
                            #![trigger is_frame(anims@, aa, ff), unique@[u]]
                            0 <= u < unique@.len() && is_frame(anims@, aa, ff) && walk_before(aa, ff, unique@[u].0 as int, unique@[u].1 as int)
                                implies !tile_at(anims@, aa, ff).same(slot_tile(anims@, unique@, u)) by {
                            if u == n {
                                if tile_at(anims@, aa, ff).same(t) {
                                    let sl = if aa < a { slots@[aa]@[ff] as int } else { row@[ff] as int };
                                    assert(slot_tile(anims@, old_unique, sl).same(tile_at(anims@, aa, ff)));
                                    lemma_same_transitive(slot_tile(anims@, old_unique, sl), tile_at(anims@, aa, ff), t);
                                    assert(!tile_at(anims@, old_unique[sl].0 as int, old_unique[sl].1 as int).same(*tile));
                                }
                            } else {
                                assert(unique@[u] == old_unique[u]);
                                assert(slot_tile(anims@, unique@, u) == slot_tile(anims@, old_unique, u));
                            }
                        }
                        assert forall|u: int, v: int|
                            0 <= u < v < unique@.len() implies walk_before(
                                (#[trigger] unique@[u]).0 as int,
                                unique@[u].1 as int,
                                (#[trigger] unique@[v]).0 as int,
                                unique@[v].1 as int,
                            ) by {
                            if v < n {
                                assert(unique@[u] == old_unique[u] && unique@[v] == old_unique[v]);
                            } else {
                                assert(unique@[u] == old_unique[u]);
                            }
                        }
                    }
                    row.push(unique.len() - 1);
                },
            }
            f = f + 1;
        }
        slots.push(row);
        a = a + 1;
    }
    (unique, slots)
}

/// Why tiles could not be laid out in an atlas.
#[derive(Clone, Copy, PartialEq, Eq, Structural, Debug)]
pub enum PackError {
    /// The atlas side would not fit in 32 bits.
    AtlasTooLarge,
    /// The packer could not place every tile in the square atlas.
    PackFailed,
}

/// Twice the total area of the first `n` sizes.
pub open spec fn area_sum(sizes: Seq<(u32, u32)>, n: nat) -> nat
    decreases n,
{
    if n == 0 {
        0
    } else {
        area_sum(sizes, (n - 1) as nat) + 2 * (sizes[n - 1].0 as nat) * (sizes[n - 1].1 as nat)
    }
}

/// `s` is the square root of `total` rounded to the nearest integer
/// (halves rounded up): `(s - 1/2)^2 <= total < (s + 1/2)^2`.
pub open spec fn is_rounded_sqrt(total: nat, s: nat) -> bool {
    &&& total <= s * (s + 1)
    &&& s == 0 || (s - 1) * s < total
}

/// The largest total area whose rounded square root fits in 32 bits.
pub const MAX_AREA_SUM: u64 = 18446744069414584320;

/// A buffer of 4 bytes per pixel of this size is addressable.
pub open spec fn size_fits(sz: (u32, u32)) -> bool {
    4 * (sz.0 as nat) * (sz.1 as nat) <= usize::MAX
}

pub open spec fn sizes_fit(sizes: Seq<(u32, u32)>) -> bool {
    forall|k: int| 0 <= k < sizes.len() ==> size_fits(#[trigger] sizes[k])
}

pub open spec fn is_empty_size(sz: (u32, u32)) -> bool {
    sz.0 == 0 || sz.1 == 0
}

/// Rectangle `k` has the size `sizes[k]`, empty sizes sit at the origin,
/// and no two rectangles share a pixel.
pub open spec fn valid_layout(sizes: Seq<(u32, u32)>, rects: Seq<Rect>) -> bool {
    &&& rects.len() == sizes.len()
    &&& forall|k: int| 0 <= k < rects.len() ==> {
        &&& #[trigger] rects[k].width == sizes[k].0
        &&& rects[k].height == sizes[k].1
        &&& is_empty_size(sizes[k]) ==> rects[k].x == 0 && rects[k].y == 0
    }
    &&& forall|k: int, l: int|
        0 <= k < rects.len() && 0 <= l < rects.len() && k != l ==> !#[trigger] rects[k].overlaps(
            #[trigger] rects[l],
        )
}

pub open spec fn within(r: Rect, side: nat) -> bool {
    r.x + r.width <= side && r.y + r.height <= side
}

/// What the packer handed back is a full, sound placement of `sizes` in a
/// `side` x `side` square.
pub open spec fn placement_ok(sizes: Seq<(u32, u32)>, side: nat, packed: Option<Seq<Option<Rect>>>) -> bool {
    &&& packed is Some
    &&& packed->Some_0.len() == sizes.len()
    &&& forall|k: int| 0 <= k < sizes.len() ==> {
        let p = #[trigger] packed->Some_0[k];
        &&& p is Some
        &&& p->Some_0.width == sizes[k].0
        &&& p->Some_0.height == sizes[k].1
        &&& within(p->Some_0, side)
    }
    &&& forall|k: int, l: int|
        0 <= k < sizes.len() && 0 <= l < sizes.len() && k != l ==> !(#[trigger] packed->Some_0[k])->Some_0.overlaps(
            (#[trigger] packed->Some_0[l])->Some_0,
        )
}

pub open spec fn opt_view(packed: Option<Vec<Option<Rect>>>) -> Option<Seq<Option<Rect>>> {
    match packed {
        Some(v) => Some(v@),
        None => None,
    }
}

/// What the skyline packer returns for these sizes in a square of this
/// side: one entry per size, the rectangle chosen or nothing.
pub uninterp spec fn skyline_of(sizes: Seq<(u32, u32)>, side: nat) -> Option<Seq<Option<Rect>>>;

/// Every size fits in 32-bit coordinates next to a skyline of this side.
pub open spec fn fits_side(sizes: Seq<(u32, u32)>, side: nat) -> bool {
    forall|k: int| 0 <= k < sizes.len() ==> (#[trigger] sizes[k]).0 + side <= 4294967296 && sizes[k].1 + side
        <= 4294967296
}

/// Relies on texture_packer's skyline packer (`TexturePacker::new_skyline`,
/// `pack_own`, `get_frames`) with no rotation, padding or trimming: the
/// result holds, for each size, the rectangle the packer chose for a blank
/// texture of that size, or nothing where it found no room. Placement
/// depends on the sizes and the side alone (the skyline is a `Vec`, the
/// frames map is only looked up by key), so blank textures stand for the
/// tiles and the result is a function of the arguments.
#[verifier::external_body]
fn skyline_pack(sizes: &Vec<(u32, u32)>, side: u32) -> (r: Option<Vec<Option<Rect>>>)
    requires
        side > 0,
        forall|k: int| 0 <= k < sizes@.len() ==> !is_empty_size(#[trigger] sizes@[k]),
        sizes_fit(sizes@),
        fits_side(sizes@, side as nat),
    ensures
        opt_view(r) == skyline_of(sizes@, side as nat),
{
    let config = TexturePackerConfig {
        max_width: side, max_height: side, allow_rotation: false, texture_padding: 0, trim: false,
        force_max_dimensions: false, ..Default::default()
    };
    let mut packer = TexturePacker::new_skyline(config);
    for (i, &(w, h)) in sizes.iter().enumerate() {
        packer.pack_own(i, ::image::RgbaImage::new(w, h)).ok()?;
    }
    let frames = packer.get_frames();
    let at = |i: usize| frames.get(&i).map(|f| Rect { x: f.frame.x, y: f.frame.y, width: f.frame.w, height: f.frame.h });
    Some((0..sizes.len()).map(at).collect())
}

/// Checks what the packer returned and keeps it only if it places every
/// size, unrotated, inside the square, with no two rectangles overlapping.
pub fn check_placement(sizes: &Vec<(u32, u32)>, side: u32, packed: Option<Vec<Option<Rect>>>) -> (r: Result<Vec<Rect>, PackError>)
    ensures
        r is Ok <==> placement_ok(sizes@, side as nat, opt_view(packed)),
        r matches Ok(v) ==> v@.len() == sizes@.len() && forall|k: int|
            0 <= k < sizes@.len() ==> #[trigger] v@[k] == opt_view(packed)->Some_0[k]->Some_0,
        r matches Err(e) ==> e == PackError::PackFailed,
{
    let p = match packed {
        Some(p) => p,
        None => return Err(PackError::PackFailed),
    };
    if p.len() != sizes.len() {
        return Err(PackError::PackFailed);
    }
    let mut out: Vec<Rect> = Vec::new();
    let mut k: usize = 0;
    while k < p.len()
        invariant
            packed == Some(p),
            p@.len() == sizes@.len(),
            k <= p@.len(),
            out@.len() == k,
            forall|i: int| 0 <= i < k ==> {
                let q = #[trigger] p@[i];
                &&& q is Some
                &&& q->Some_0.width == sizes@[i].0
                &&& q->Some_0.height == sizes@[i].1
                &&& within(q->Some_0, side as nat)
                &&& out@[i] == q->Some_0
            },
        decreases p@.len() - k,
    {
        match p[k] {
            Some(rect) => {
                if rect.width != sizes[k].0 || rect.height != sizes[k].1 || rect.x > side
                    || side - rect.x < rect.width || rect.y > side || side - rect.y < rect.height {
                    return Err(PackError::PackFailed);
                }
                out.push(rect);
            },
            None => {
                return Err(PackError::PackFailed);
            },
        }
        k = k + 1;
    }
    let mut i: usize = 0;
    while i < out.len()
        invariant
            packed == Some(p),
            p@.len() == sizes@.len(),
            out@.len() == p@.len(),
            forall|j: int| 0 <= j < out@.len() ==> (#[trigger] p@[j]) is Some && out@[j] == p@[j]->Some_0,
            i <= out@.len(),
            forall|a: int, b: int|
                0 <= a < i && 0 <= b < out@.len() && a != b ==> !#[trigger] out@[a].overlaps(#[trigger] out@[b]),
        decreases out@.len() - i,
    {
        let mut j: usize = 0;
        while j < out.len()
            invariant
                packed == Some(p),
                p@.len() == sizes@.len(),
                out@.len() == p@.len(),
                forall|jj: int| 0 <= jj < out@.len() ==> (#[trigger] p@[jj]) is Some && out@[jj] == p@[jj]->Some_0,
                i < out@.len(),
                j <= out@.len(),
                forall|a: int, b: int|
                    0 <= a < i && 0 <= b < out@.len() && a != b ==> !#[trigger] out@[a].overlaps(#[trigger] out@[b]),
                forall|b: int| 0 <= b < j && i != b ==> !out@[i as int].overlaps(#[trigger] out@[b]),
            decreases out@.len() - j,
        {
            if i != j && out[i].intersects(&out[j]) {
                proof {
                    assert(p@[i as int]->Some_0.overlaps(p@[j as int]->Some_0));
                }
                return Err(PackError::PackFailed);
            }
            j = j + 1;
        }
        i = i + 1;
    }
    proof {
        assert forall|a: int, b: int|
            0 <= a < sizes@.len() && 0 <= b < sizes@.len() && a != b implies !(#[trigger] p@[a])->Some_0.overlaps(
                (#[trigger] p@[b])->Some_0) by {
            assert(!out@[a].overlaps(out@[b]));
        }
    }
    Ok(out)
}

/// How many of the first `n` sizes are not empty.
pub open spec fn count_nonempty(sizes: Seq<(u32, u32)>, n: nat) -> nat
    decreases n,
{
    if n == 0 {
        0
    } else {
        count_nonempty(sizes, (n - 1) as nat) + if is_empty_size(sizes[n - 1]) {
            0nat
        } else {
            1nat
        }
    }
}

proof fn lemma_count_mono(sizes: Seq<(u32, u32)>, a: nat, b: nat)
    requires
        a <= b,
    ensures
        count_nonempty(sizes, a) <= count_nonempty(sizes, b),
    decreases b - a,
{
    if a < b {
        lemma_count_mono(sizes, a, (b - 1) as nat);
    }
}

proof fn lemma_area_mono(sizes: Seq<(u32, u32)>, a: nat, b: nat)
    requires
        a <= b,
    ensures
        area_sum(sizes, a) <= area_sum(sizes, b),
    decreases b - a,
{
    if a < b {
        lemma_area_mono(sizes, a, (b - 1) as nat);
    }
}

/// Rectangle `r` of slot `i`: the size of slot `i`, inside the square, at
/// the origin when empty, else the packer's rectangle for it.
pub open spec fn slot_rect_ok(sizes: Seq<(u32, u32)>, placed: Seq<Rect>, side: nat, i: int, r: Rect) -> bool {
    &&& r.width == sizes[i].0
    &&& r.height == sizes[i].1
    &&& !is_empty_size(sizes[i]) ==> within(r, side)
    &&& is_empty_size(sizes[i]) ==> r.x == 0 && r.y == 0
    &&& !is_empty_size(sizes[i]) ==> r == placed[count_nonempty(sizes, i as nat) as int]
}

/// The rounded square root of `total`, or `None` when it exceeds 32 bits.
fn atlas_side(total: u64) -> (r: Option<u32>)
    ensures
        r matches Some(s) ==> is_rounded_sqrt(total as nat, s as nat),
        r is None <==> total > MAX_AREA_SUM,
{
    if total > MAX_AREA_SUM {
        return None;
    }
    let t = total as u128;
    let mut s: u128 = 0;
    while s * (s + 1) < t
        invariant
            t == total,
            total <= MAX_AREA_SUM,
            s <= 4294967295,
            s * (s + 1) <= 18446744069414584320u128,
            s == 0 || (s - 1) * s < t,
        decreases 4294967296 - s,
    {
        assert(s + 1 <= 4294967295) by (nonlinear_arith)
            requires s * (s + 1) < t, t <= 18446744069414584320u128, s <= 4294967295;
        s = s + 1;
        assert(s * (s + 1) <= 18446744069414584320u128) by (nonlinear_arith)
            requires s <= 4294967295;
    }
    Some(s as u32)
}

/// The non-empty sizes among the first `n`, in order.
pub open spec fn nonempty_of(sizes: Seq<(u32, u32)>, n: nat) -> Seq<(u32, u32)>
    decreases n,
{
    if n == 0 {
        Seq::empty()
    } else if is_empty_size(sizes[n - 1]) {
        nonempty_of(sizes, (n - 1) as nat)
    } else {
        nonempty_of(sizes, (n - 1) as nat).push(sizes[n - 1])
    }
}

/// The packer places every size soundly in a square of this side.
pub open spec fn attempt_ok(sizes: Seq<(u32, u32)>, side: nat) -> bool {
    &&& 0 < side <= u32::MAX
    &&& fits_side(sizes, side)
    &&& placement_ok(sizes, side, skyline_of(sizes, side))
}

/// The first of `side`, `2 * side`, `4 * side`, ... (within 32 bits) at
/// which the packer places every size.
pub open spec fn search(sizes: Seq<(u32, u32)>, side: nat) -> Option<nat>
    decreases 4294967296 - side,
{
    if side == 0 || side > u32::MAX {
        None
    } else if attempt_ok(sizes, side) {
        Some(side)
    } else if 2 * side > u32::MAX {
        None
    } else {
        search(sizes, 2 * side)
    }
}

proof fn lemma_rounded_sqrt_unique(total: nat, a: nat, b: nat)
    requires
        is_rounded_sqrt(total, a),
        is_rounded_sqrt(total, b),
    ensures
        a == b,
{
    if a < b {
        assert(a * (a + 1) <= (b - 1) * b) by (nonlinear_arith)
            requires a + 1 <= b;
    } else if b < a {
        assert(b * (b + 1) <= (a - 1) * a) by (nonlinear_arith)
            requires b + 1 <= a;
    }
}

fn check_fits_side(sizes: &Vec<(u32, u32)>, side: u32) -> (r: bool)
    ensures
        r == fits_side(sizes@, side as nat),
{
    let mut k: usize = 0;
    while k < sizes.len()
        invariant
            k <= sizes@.len(),
            forall|i: int| 0 <= i < k ==> (#[trigger] sizes@[i]).0 + side <= 4294967296 && sizes@[i].1 + side
                <= 4294967296,
        decreases sizes@.len() - k,
    {
        let (w, h) = sizes[k];
        if w as u64 + side as u64 > 4294967296 || h as u64 + side as u64 > 4294967296 {
            assert(!fits_side(sizes@, side as nat)) by {
                assert(sizes@[k as int] == (w, h));
            }
            return false;
        }
        k = k + 1;
    }
    true
}

/// `side` is the side `layout` settles on for these sizes: the rounded
/// square root of twice the total area, doubled until the packer places
/// every non-empty size.
pub open spec fn layout_side(sizes: Seq<(u32, u32)>, side: nat) -> bool {
    &&& nonempty_of(sizes, sizes.len()).len() == 0 ==> is_rounded_sqrt(area_sum(sizes, sizes.len()), side)
    &&& nonempty_of(sizes, sizes.len()).len() > 0 ==> exists|s0: nat|
        is_rounded_sqrt(area_sum(sizes, sizes.len()), s0) && search(nonempty_of(sizes, sizes.len()), s0) == Some(side)
}

/// The rectangle `layout` gives slot `u` at this side: the origin for an
/// empty size, else what the packer chose for it among the non-empty ones.
pub open spec fn layout_rect(sizes: Seq<(u32, u32)>, side: nat, u: int) -> Rect {
    if is_empty_size(sizes[u]) {
        Rect { x: 0, y: 0, width: sizes[u].0, height: sizes[u].1 }
    } else {
        skyline_of(nonempty_of(sizes, sizes.len()), side)->Some_0[count_nonempty(sizes, u as nat) as int]->Some_0
    }
}

/// Every frame sits at the layout rectangle of the slot holding its tile.
pub open spec fn placed_at_layout(
    anims: Seq<Animation>,
    unique: Seq<(usize, usize)>,
    out: Seq<PlacedAnimation>,
    side: nat,
) -> bool {
    forall|a: int, f: int, u: int|
        #![trigger location_of(out, a, f), slot_tile(anims, unique, u)]
        is_frame(anims, a, f) && 0 <= u < unique.len() && slot_tile(anims, unique, u).same(tile_at(anims, a, f))
            ==> location_of(out, a, f) == layout_rect(slot_sizes(anims, unique), side, u)
}

/// Every tile either has pixels or is 0 x 0.
pub open spec fn all_tiles_proper(anims: Seq<Animation>) -> bool {
    forall|a: int, f: int| #[trigger] is_frame(anims, a, f) ==> (tile_at(anims, a, f).width == 0 <==> tile_at(anims, a, f).height == 0)
}

/// `layout` succeeds on these sizes: the area and buffers fit, and unless
/// no size is non-empty, some doubling of the first side lets the packer
/// place them all.
pub open spec fn layout_ok(sizes: Seq<(u32, u32)>) -> bool {
    &&& area_sum(sizes, sizes.len()) <= MAX_AREA_SUM
    &&& sizes_fit(sizes)
    &&& (nonempty_of(sizes, sizes.len()).len() == 0 || exists|s0: nat|
        is_rounded_sqrt(area_sum(sizes, sizes.len()), s0) && search(nonempty_of(sizes, sizes.len()), s0) is Some)
}

/// Places tiles of the given sizes in a square atlas. The first side tried
/// is the rounded square root of twice their total area; while the packer
/// cannot place every tile, the side is doubled. Empty sizes are not
/// packed and sit at the origin.
#[verifier::rlimit(50)]
pub fn layout(sizes: &Vec<(u32, u32)>) -> (r: Result<(u32, Vec<Rect>), PackError>)
    ensures
        r is Ok <==> layout_ok(sizes@),
        r matches Ok((side, rects)) ==> {
            &&& layout_side(sizes@, side as nat)
            &&& forall|i: int| 0 <= i < rects@.len() && !is_empty_size(sizes@[i]) ==> #[trigger] rects@[i]
                == skyline_of(nonempty_of(sizes@, sizes@.len()), side as nat)->Some_0[count_nonempty(sizes@, i as nat) as int]->Some_0
            &&& valid_layout(sizes@, rects@)
            &&& forall|k: int| 0 <= k < rects@.len() && !is_empty_size(sizes@[k]) ==> within(#[trigger] rects@[k], side as nat)
        },
        r == Err::<(u32, Vec<Rect>), PackError>(PackError::AtlasTooLarge) <==> area_sum(sizes@, sizes@.len()) > MAX_AREA_SUM
            || !sizes_fit(sizes@),
{
    let mut total: u64 = 0;
    let mut nonempty: Vec<(u32, u32)> = Vec::new();
    let mut k: usize = 0;
    while k < sizes.len()
        invariant
            k <= sizes@.len(),
            total == area_sum(sizes@, k as nat),
            total <= MAX_AREA_SUM,
            forall|i: int| 0 <= i < k ==> size_fits(#[trigger] sizes@[i]),
            sizes_fit(nonempty@),
            nonempty@ == nonempty_of(sizes@, k as nat),
            nonempty@.len() == count_nonempty(sizes@, k as nat),
            forall|i: int| 0 <= i < k && !is_empty_size(sizes@[i]) ==> nonempty@[count_nonempty(sizes@, i as nat) as int] == #[trigger] sizes@[i],
            forall|c: int| 0 <= c < nonempty@.len() ==> !is_empty_size(#[trigger] nonempty@[c]),
        decreases sizes@.len() - k,
    {
        let (w, h) = sizes[k];
        assert((w as u128) * (h as u128) <= 4294967295u128 * 4294967295u128) by (nonlinear_arith)
            requires w <= 4294967295u32, h <= 4294967295u32;
        let term: u128 = 2 * ((w as u128) * (h as u128));
        if 2 * term > usize::MAX as u128 {
            proof {
                assert(!size_fits(sizes@[k as int])) by (nonlinear_arith)
                    requires term == 2 * ((w as u128) * (h as u128)), 2 * term > usize::MAX as u128,
                        sizes@[k as int] == (w, h);
            }
            return Err(PackError::AtlasTooLarge);
        }
        assert(size_fits(sizes@[k as int])) by (nonlinear_arith)
            requires term == 2 * ((w as u128) * (h as u128)), 2 * term <= usize::MAX as u128,
                sizes@[k as int] == (w, h);
        let sum: u128 = total as u128 + term;
        proof {
            assert(term == 2 * (w as nat) * (h as nat)) by (nonlinear_arith)
                requires term == 2 * ((w as u128) * (h as u128));
            assert(area_sum(sizes@, (k + 1) as nat) == area_sum(sizes@, k as nat) + 2 * (w as nat) * (h as nat));
        }
        if sum > MAX_AREA_SUM as u128 {
            proof {
                lemma_area_mono(sizes@, (k + 1) as nat, sizes@.len());
            }
            return Err(PackError::AtlasTooLarge);
        }
        total = sum as u64;
        let ghost old_nonempty = nonempty@;
        if w != 0 && h != 0 {
            nonempty.push((w, h));
        }
        proof {
            assert(count_nonempty(sizes@, (k + 1) as nat) == count_nonempty(sizes@, k as nat) + if is_empty_size(sizes@[k as int]) {
                0nat
            } else {
                1nat
            });
            assert(area_sum(sizes@, (k + 1) as nat) == area_sum(sizes@, k as nat) + 2 * (w as nat) * (h as nat));
            assert forall|i: int| 0 <= i < k + 1 && !is_empty_size(sizes@[i]) implies nonempty@[count_nonempty(sizes@, i as nat) as int] == #[trigger] sizes@[i] by {
                if i < k {
                    lemma_count_mono(sizes@, (i + 1) as nat, k as nat);
                    assert(count_nonempty(sizes@, (i + 1) as nat) == count_nonempty(sizes@, i as nat) + 1);
                    assert(nonempty@[count_nonempty(sizes@, i as nat) as int] == old_nonempty[count_nonempty(sizes@, i as nat) as int]);
                }
            }
        }
        k = k + 1;
    }
    let mut side = match atlas_side(total) {
        Some(s) => s,
        None => return Err(PackError::AtlasTooLarge),
    };
    let s0 = side;
    let ghost ne = nonempty@;
    let mut placed: Vec<Rect> = Vec::new();
    if nonempty.len() > 0 {
        if side == 0 {
            return Err(PackError::PackFailed);
        }
        loop
            invariant
                ne == nonempty@,
                ne == nonempty_of(sizes@, sizes@.len()),
                ne.len() > 0,
                is_rounded_sqrt(total as nat, s0 as nat),
                side >= 1,
                search(ne, s0 as nat) == search(ne, side as nat),
                total == area_sum(sizes@, sizes@.len()),
                total <= MAX_AREA_SUM,
                sizes_fit(sizes@),
                sizes_fit(nonempty@),
                forall|c: int| 0 <= c < nonempty@.len() ==> !is_empty_size(#[trigger] nonempty@[c]),
            ensures
                search(ne, s0 as nat) == Some(side as nat),
                placed@.len() == nonempty@.len(),
                forall|q: int| 0 <= q < placed@.len() ==> {
                    &&& (#[trigger] placed@[q]).width == nonempty@[q].0
                    &&& placed@[q].height == nonempty@[q].1
                    &&& within(placed@[q], side as nat)
                    &&& placed@[q] == skyline_of(ne, side as nat)->Some_0[q]->Some_0
                },
                forall|q: int, u: int|
                    0 <= q < placed@.len() && 0 <= u < placed@.len() && q != u ==> !#[trigger] placed@[q].overlaps(#[trigger] placed@[u]),
            decreases u32::MAX - side,
        {
            let attempt: Option<Vec<Rect>> = if check_fits_side(&nonempty, side) {
                let packed = skyline_pack(&nonempty, side);
                match check_placement(&nonempty, side, packed) {
                    Ok(v) => Some(v),
                    Err(_) => None,
                }
            } else {
                None
            };
            match attempt {
                Some(v) => {
                    placed = v;
                    break;
                },
                None => {
                    assert(!attempt_ok(ne, side as nat));
                    if side > u32::MAX / 2 {
                        proof {
                            assert(search(ne, side as nat) is None);
                            assert forall|t: nat| is_rounded_sqrt(area_sum(sizes@, sizes@.len()), t) implies !(search(ne, t) is Some) by {
                                lemma_rounded_sqrt_unique(total as nat, t, s0 as nat);
                            }
                        }
                        return Err(PackError::PackFailed);
                    }
                    side = side * 2;
                },
            }
        }
    }
    let mut rects: Vec<Rect> = Vec::new();
    let mut c: usize = 0;
    let mut k: usize = 0;
    while k < sizes.len()
        invariant
            k <= sizes@.len(),
            placed@.len() == nonempty@.len(),
            nonempty@.len() == count_nonempty(sizes@, sizes@.len()),
            c == count_nonempty(sizes@, k as nat),
            rects@.len() == k,
            forall|i: int| 0 <= i < sizes@.len() && !is_empty_size(sizes@[i]) ==> nonempty@[count_nonempty(sizes@, i as nat) as int] == #[trigger] sizes@[i],
            forall|q: int| 0 <= q < placed@.len() ==> {
                &&& (#[trigger] placed@[q]).width == nonempty@[q].0
                &&& placed@[q].height == nonempty@[q].1
                &&& within(placed@[q], side as nat)
            },
            forall|q: int, u: int|
                0 <= q < placed@.len() && 0 <= u < placed@.len() && q != u ==> !#[trigger] placed@[q].overlaps(#[trigger] placed@[u]),
            forall|i: int| 0 <= i < k ==> slot_rect_ok(sizes@, placed@, side as nat, i, #[trigger] rects@[i]),
        decreases sizes@.len() - k,
    {
        let (w, h) = sizes[k];
        proof {
            lemma_count_mono(sizes@, (k + 1) as nat, sizes@.len());
            assert(count_nonempty(sizes@, (k + 1) as nat) == count_nonempty(sizes@, k as nat) + if is_empty_size(sizes@[k as int]) {
                0nat
            } else {
                1nat
            });
        }
        if w == 0 || h == 0 {
            rects.push(Rect { x: 0, y: 0, width: w, height: h });
        } else {
            assert(nonempty@[c as int] == sizes@[k as int]);
            assert(placed@[c as int].width == nonempty@[c as int].0);
            assert(within(placed@[c as int], side as nat));
            rects.push(placed[c]);
            c = c + 1;
        }
        assert(slot_rect_ok(sizes@, placed@, side as nat, k as int, rects@[k as int]));
        k = k + 1;
    }
    proof {
        assert forall|i: int, j: int|
            0 <= i < rects@.len() && 0 <= j < rects@.len() && i != j implies !#[trigger] rects@[i].overlaps(#[trigger] rects@[j]) by {
            assert(slot_rect_ok(sizes@, placed@, side as nat, i, rects@[i]));
            assert(slot_rect_ok(sizes@, placed@, side as nat, j, rects@[j]));
            if !is_empty_size(sizes@[i]) && !is_empty_size(sizes@[j]) {
                let ci = count_nonempty(sizes@, i as nat);
                let cj = count_nonempty(sizes@, j as nat);
                lemma_count_mono(sizes@, (i + 1) as nat, sizes@.len());
                lemma_count_mono(sizes@, (j + 1) as nat, sizes@.len());
                assert(count_nonempty(sizes@, (i + 1) as nat) == ci + 1);
                assert(count_nonempty(sizes@, (j + 1) as nat) == cj + 1);
                if i < j {
                    lemma_count_mono(sizes@, (i + 1) as nat, j as nat);
                } else {
                    lemma_count_mono(sizes@, (j + 1) as nat, i as nat);
                }
                assert(!placed@[ci as int].overlaps(placed@[cj as int]));
            }
        }
        assert forall|i: int| 0 <= i < rects@.len() && !is_empty_size(sizes@[i]) implies within(#[trigger] rects@[i], side as nat) by {
            assert(slot_rect_ok(sizes@, placed@, side as nat, i, rects@[i]));
        }
        assert forall|i: int| 0 <= i < rects@.len() implies {
            &&& #[trigger] rects@[i].width == sizes@[i].0
            &&& rects@[i].height == sizes@[i].1
            &&& is_empty_size(sizes@[i]) ==> rects@[i].x == 0 && rects@[i].y == 0
        } by {
            assert(slot_rect_ok(sizes@, placed@, side as nat, i, rects@[i]));
        }
    }
    proof {
        assert(is_rounded_sqrt(area_sum(sizes@, sizes@.len()), s0 as nat));
        assert forall|i: int| 0 <= i < rects@.len() && !is_empty_size(sizes@[i]) implies #[trigger] rects@[i]
            == skyline_of(nonempty_of(sizes@, sizes@.len()), side as nat)->Some_0[count_nonempty(sizes@, i as nat) as int]->Some_0 by {
            assert(slot_rect_ok(sizes@, placed@, side as nat, i, rects@[i]));
            lemma_count_mono(sizes@, (i + 1) as nat, sizes@.len());
            assert(count_nonempty(sizes@, (i + 1) as nat) == count_nonempty(sizes@, i as nat) + 1);
        }
    }
    Ok((side, rects))
}

/// The tile of slot `u`.
pub open spec fn slot_tile(anims: Seq<Animation>, unique: Seq<(usize, usize)>, u: int) -> Image {
    tile_at(anims, unique[u].0 as int, unique[u].1 as int)
}

/// The atlas pixel `p` at `(x, y)`: the pixel of the tile whose rectangle
/// holds the point, transparent where none does.
pub open spec fn atlas_pixel_ok(
    anims: Seq<Animation>,
    unique: Seq<(usize, usize)>,
    rects: Seq<Rect>,
    x: int,
    y: int,
    p: Pixel,
) -> bool {
    &&& forall|u: int|
        0 <= u < rects.len() && #[trigger] rects[u].contains(x, y) ==> p == slot_tile(anims, unique, u).px(
            x - rects[u].x,
            y - rects[u].y,
        )
    &&& (forall|u: int| 0 <= u < rects.len() ==> !#[trigger] rects[u].contains(x, y)) ==> p == transparent()
}

fn find_rect(rects: &Vec<Rect>, x: u32, y: u32) -> (r: Option<usize>)
    ensures
        r matches Some(k) ==> k < rects@.len() && rects@[k as int].contains(x as int, y as int),
        r is None ==> forall|u: int| 0 <= u < rects@.len() ==> !#[trigger] rects@[u].contains(x as int, y as int),
{
    let mut k: usize = 0;
    while k < rects.len()
        invariant
            k <= rects@.len(),
            forall|u: int| 0 <= u < k ==> !#[trigger] rects@[u].contains(x as int, y as int),
        decreases rects@.len() - k,
    {
        if rects[k].coord_in_rect(x, y) {
            return Some(k);
        }
        k = k + 1;
    }
    None
}

pub open spec fn slots_placed(anims: Seq<Animation>, unique: Seq<(usize, usize)>, rects: Seq<Rect>) -> bool {
    &&& tiles_wf(anims)
    &&& rects.len() == unique.len()
    &&& forall|u: int| 0 <= u < unique.len() ==> #[trigger] is_frame(anims, unique[u].0 as int, unique[u].1 as int)
    &&& forall|u: int| 0 <= u < rects.len() ==> {
        &&& (#[trigger] rects[u]).width == slot_tile(anims, unique, u).width
        &&& rects[u].height == slot_tile(anims, unique, u).height
        &&& rects[u].x + rects[u].width <= u32::MAX
        &&& rects[u].y + rects[u].height <= u32::MAX
    }
    &&& forall|u: int, v: int|
        0 <= u < rects.len() && 0 <= v < rects.len() && u != v ==> !#[trigger] rects[u].overlaps(#[trigger] rects[v])
}

fn atlas_pixel(anims: &Vec<Animation>, unique: &Vec<(usize, usize)>, rects: &Vec<Rect>, x: u32, y: u32) -> (p: Pixel)
    requires
        slots_placed(anims@, unique@, rects@),
    ensures
        atlas_pixel_ok(anims@, unique@, rects@, x as int, y as int, p),
{
    match find_rect(rects, x, y) {
        Some(k) => {
            let (a, f) = unique[k];
            assert(is_frame(anims@, a as int, f as int));
            assert(tile_at(anims@, a as int, f as int).wf());
            let r = rects[k];
            let p = anims[a].frames[f].tile.get_pixel(x - r.x, y - r.y);
            proof {
                assert forall|u: int|
                    0 <= u < rects@.len() && #[trigger] rects@[u].contains(x as int, y as int) implies p
                        == slot_tile(anims@, unique@, u).px(x - rects@[u].x, y - rects@[u].y) by {
                    if u != k {
                        assert(!rects@[u].overlaps(rects@[k as int]));
                    }
                }
            }
            p
        },
        None => Pixel::clear(),
    }
}

/// Draws every slot's tile at its rectangle on a transparent canvas just
/// large enough to hold all rectangles.
pub fn compose_atlas(anims: &Vec<Animation>, unique: &Vec<(usize, usize)>, rects: &Vec<Rect>) -> (img: Image)
    requires
        slots_placed(anims@, unique@, rects@),
    ensures
        img.wf(),
        forall|u: int| 0 <= u < rects@.len() ==> #[trigger] rects@[u].x + rects@[u].width <= img.width
            && rects@[u].y + rects@[u].height <= img.height,
        img.width == 0 || exists|u: int| 0 <= u < rects@.len() && #[trigger] rects@[u].x + rects@[u].width == img.width,
        img.height == 0 || exists|u: int| 0 <= u < rects@.len() && #[trigger] rects@[u].y + rects@[u].height == img.height,
        forall|x: int, y: int| #[trigger]
            img.in_bounds(x, y) ==> atlas_pixel_ok(anims@, unique@, rects@, x, y, img.px(x, y)),
{
    let mut width: u32 = 0;
    let mut height: u32 = 0;
    let mut k: usize = 0;
    while k < rects.len()
        invariant
            slots_placed(anims@, unique@, rects@),
            k <= rects@.len(),
            forall|u: int| 0 <= u < k ==> #[trigger] rects@[u].x + rects@[u].width <= width
                && rects@[u].y + rects@[u].height <= height,
            width == 0 || exists|u: int| 0 <= u < k && #[trigger] rects@[u].x + rects@[u].width == width,
            height == 0 || exists|u: int| 0 <= u < k && #[trigger] rects@[u].y + rects@[u].height == height,
        decreases rects@.len() - k,
    {
        let r = rects[k];
        assert(r.x + r.width <= u32::MAX && r.y + r.height <= u32::MAX);
        if r.x + r.width > width {
            width = r.x + r.width;
        }
        if r.y + r.height > height {
            height = r.y + r.height;
        }
        k = k + 1;
    }
    let mut rows: Vec<Vec<Pixel>> = Vec::new();
    let mut y: u32 = 0;
    while y < height
        invariant
            slots_placed(anims@, unique@, rects@),
            y <= height,
            rows@.len() == y,
            forall|yy: int| 0 <= yy < y ==> #[trigger] rows@[yy]@.len() == width,
            forall|xx: int, yy: int|
                0 <= yy < y && 0 <= xx < width ==> atlas_pixel_ok(anims@, unique@, rects@, xx, yy, #[trigger] rows@[yy]@[xx]),
        decreases height - y,
    {
        let mut row: Vec<Pixel> = Vec::new();
        let mut x: u32 = 0;
        while x < width
            invariant
                slots_placed(anims@, unique@, rects@),
                y < height,
                x <= width,
                row@.len() == x,
                forall|xx: int| 0 <= xx < x ==> atlas_pixel_ok(anims@, unique@, rects@, xx, y as int, #[trigger] row@[xx]),
            decreases width - x,
        {
            row.push(atlas_pixel(anims, unique, rects, x, y));
            x = x + 1;
        }
        rows.push(row);
        y = y + 1;
    }
    let img = Image { width, height, rows };
    assert forall|x: int, y: int| #[trigger] img.in_bounds(x, y) implies atlas_pixel_ok(anims@, unique@, rects@, x, y, img.px(x, y)) by {
        assert(atlas_pixel_ok(anims@, unique@, rects@, x, y, img.rows@[y]@[x]));
    }
    img
}

/// A compiled frame whose tile is replaced by its rectangle in the atlas.
#[derive(Clone, Copy, PartialEq, Eq, Structural, Debug)]
pub struct PlacedFrame {
    pub location: Rect,
    pub offset_x: u32,
    pub offset_y: u32,
    pub frame_time: u32,
    pub cleanup_rect: Option<Rect>,
}

#[derive(Debug)]
pub struct PlacedAnimation {
    pub name: String,
    pub frames: Vec<PlacedFrame>,
}

/// The atlas image and, per animation, its frames placed in it.
#[derive(Debug)]
pub struct PackedAtlas {
    /// The side of the square the tiles were packed in.
    pub side: u32,
    pub image: Image,
    pub animations: Vec<PlacedAnimation>,
}

pub open spec fn placed_frame(f: CompiledFrame, location: Rect) -> PlacedFrame {
    PlacedFrame {
        location,
        offset_x: f.offset_x,
        offset_y: f.offset_y,
        frame_time: f.frame_time,
        cleanup_rect: f.cleanup_rect,
    }
}

pub open spec fn location_of(out: Seq<PlacedAnimation>, a: int, f: int) -> Rect {
    out[a].frames@[f].location
}

/// `out` lists the animations of `anims` with the same names and frames,
/// each frame keeping its offset, time and clear rectangle, with a
/// location of its tile's size.
pub open spec fn placed_from(anims: Seq<Animation>, out: Seq<PlacedAnimation>) -> bool {
    &&& out.len() == anims.len()
    &&& forall|a: int| 0 <= a < anims.len() ==> {
        &&& (#[trigger] out[a]).name@ == anims[a].name@
        &&& out[a].frames@.len() == anims[a].frames@.len()
    }
    &&& forall|a: int, f: int| #[trigger] is_frame(anims, a, f) ==> {
        let l = location_of(out, a, f);
        &&& out[a].frames@[f] == placed_frame(anims[a].frames@[f], l)
        &&& l.width == tile_at(anims, a, f).width
        &&& l.height == tile_at(anims, a, f).height
    }
}

/// Frames with pixel-identical tiles share one location.
pub open spec fn shares_locations(anims: Seq<Animation>, out: Seq<PlacedAnimation>) -> bool {
    forall|a1: int, f1: int, a2: int, f2: int|
        #![trigger location_of(out, a1, f1), location_of(out, a2, f2)]
        is_frame(anims, a1, f1) && is_frame(anims, a2, f2) && tile_at(anims, a1, f1).same(tile_at(anims, a2, f2))
            ==> location_of(out, a1, f1) == location_of(out, a2, f2)
}

/// Two locations are either the same rectangle or share no pixel.
pub open spec fn locations_disjoint(anims: Seq<Animation>, out: Seq<PlacedAnimation>) -> bool {
    forall|a1: int, f1: int, a2: int, f2: int|
        #![trigger location_of(out, a1, f1), location_of(out, a2, f2)]
        is_frame(anims, a1, f1) && is_frame(anims, a2, f2) ==> location_of(out, a1, f1) == location_of(out, a2, f2)
            || !location_of(out, a1, f1).overlaps(location_of(out, a2, f2))
}

/// Every tile can be read back from the atlas at its location.
pub open spec fn atlas_holds_tiles(anims: Seq<Animation>, out: Seq<PlacedAnimation>, img: Image) -> bool {
    forall|a: int, f: int, x: int, y: int|
        #![trigger is_frame(anims, a, f), tile_at(anims, a, f).px(x, y)]
        is_frame(anims, a, f) && tile_at(anims, a, f).in_bounds(x, y) ==> {
            let l = location_of(out, a, f);
            &&& img.in_bounds(l.x + x, l.y + y)
            &&& img.px(l.x + x, l.y + y) == tile_at(anims, a, f).px(x, y)
        }
}

/// Frames with different tile content get different locations.
pub open spec fn distinct_locations(anims: Seq<Animation>, out: Seq<PlacedAnimation>) -> bool {
    forall|a1: int, f1: int, a2: int, f2: int|
        #![trigger location_of(out, a1, f1), location_of(out, a2, f2)]
        is_frame(anims, a1, f1) && is_frame(anims, a2, f2) && !tile_at(anims, a1, f1).same(tile_at(anims, a2, f2))
            ==> location_of(out, a1, f1) != location_of(out, a2, f2)
}

/// Every location lies inside the atlas; a tile without pixels sits at the
/// origin.
pub open spec fn locations_in_atlas(anims: Seq<Animation>, out: Seq<PlacedAnimation>, img: Image) -> bool {
    forall|a: int, f: int| #[trigger] is_frame(anims, a, f) ==> {
        let l = location_of(out, a, f);
        &&& l.x + l.width <= img.width
        &&& l.y + l.height <= img.height
        &&& (tile_at(anims, a, f).width == 0 || tile_at(anims, a, f).height == 0) ==> l.x == 0 && l.y == 0
    }
}

/// The sizes of the slots' tiles.
pub open spec fn slot_sizes(anims: Seq<Animation>, unique: Seq<(usize, usize)>) -> Seq<(u32, u32)> {
    Seq::new(unique.len(), |u: int| (slot_tile(anims, unique, u).width, slot_tile(anims, unique, u).height))
}

/// `unique` names one frame per distinct tile content, covering all frames.
pub open spec fn distinct_tiles(anims: Seq<Animation>, unique: Seq<(usize, usize)>) -> bool {
    &&& forall|u: int| 0 <= u < unique.len() ==> #[trigger] is_frame(anims, unique[u].0 as int, unique[u].1 as int)
    &&& forall|u: int, v: int|
        0 <= u < unique.len() && 0 <= v < unique.len() && u != v ==> !#[trigger] slot_tile(anims, unique, u).same(
            #[trigger] slot_tile(anims, unique, v),
        )
    &&& forall|a: int, f: int| #[trigger]
        is_frame(anims, a, f) ==> exists|u: int| 0 <= u < unique.len() && #[trigger] slot_tile(anims, unique, u).same(tile_at(anims, a, f))
}

proof fn lemma_placement_laws(
    anims: Seq<Animation>,
    unique: Seq<(usize, usize)>,
    slots: Seq<Vec<usize>>,
    rects: Seq<Rect>,
    out: Seq<PlacedAnimation>,
    img: Image,
)
    requires
        is_dedup(anims, unique, slots),
        slots_placed(anims, unique, rects),
        forall|a: int, f: int| #[trigger] is_frame(anims, a, f) ==> location_of(out, a, f) == rects[slots[a]@[f] as int],
        img.wf(),
        forall|u: int| 0 <= u < rects.len() ==> #[trigger] rects[u].x + rects[u].width <= img.width
            && rects[u].y + rects[u].height <= img.height,
        forall|x: int, y: int| #[trigger]
            img.in_bounds(x, y) ==> atlas_pixel_ok(anims, unique, rects, x, y, img.px(x, y)),
        valid_layout(slot_sizes(anims, unique), rects),
    ensures
        distinct_locations(anims, out),
        locations_in_atlas(anims, out, img),
        shares_locations(anims, out),
        locations_disjoint(anims, out),
        atlas_holds_tiles(anims, out, img),
{
    assert forall|a1: int, f1: int, a2: int, f2: int|
        is_frame(anims, a1, f1) && is_frame(anims, a2, f2) && tile_at(anims, a1, f1).same(tile_at(anims, a2, f2))
            implies #[trigger] location_of(out, a1, f1) == #[trigger] location_of(out, a2, f2) by {
        let s1 = slots[a1]@[f1] as int;
        let s2 = slots[a2]@[f2] as int;
        let t1 = tile_at(anims, a1, f1);
        let t2 = tile_at(anims, a2, f2);
        lemma_same_transitive(slot_tile(anims, unique, s1), t1, t2);
        lemma_same_symmetric(slot_tile(anims, unique, s2), t2);
        lemma_same_transitive(slot_tile(anims, unique, s1), t2, slot_tile(anims, unique, s2));
        if s1 != s2 {
            assert(!slot_tile(anims, unique, s1).same(slot_tile(anims, unique, s2)));
        }
    }
    let sz = slot_sizes(anims, unique);
    assert forall|a: int, f: int| #[trigger] is_frame(anims, a, f) implies {
        let l = location_of(out, a, f);
        &&& l.x + l.width <= img.width
        &&& l.y + l.height <= img.height
        &&& (tile_at(anims, a, f).width == 0 || tile_at(anims, a, f).height == 0) ==> l.x == 0 && l.y == 0
    } by {
        let sl = slots[a]@[f] as int;
        assert(slot_tile(anims, unique, sl).same(tile_at(anims, a, f)));
        assert(rects[sl].width == sz[sl].0);
    }
    assert forall|a1: int, f1: int, a2: int, f2: int|
        is_frame(anims, a1, f1) && is_frame(anims, a2, f2) && !tile_at(anims, a1, f1).same(tile_at(anims, a2, f2))
            implies #[trigger] location_of(out, a1, f1) != #[trigger] location_of(out, a2, f2) by {
        let s1 = slots[a1]@[f1] as int;
        let s2 = slots[a2]@[f2] as int;
        let t1 = tile_at(anims, a1, f1);
        let t2 = tile_at(anims, a2, f2);
        let st1 = slot_tile(anims, unique, s1);
        let st2 = slot_tile(anims, unique, s2);
        if location_of(out, a1, f1) == location_of(out, a2, f2) {
            lemma_same_symmetric(st1, t1);
            if s1 == s2 {
                lemma_same_transitive(t1, st1, t2);
            } else {
                assert(rects[s1] == rects[s2]);
                assert(rects[s1].width == sz[s1].0 && rects[s2].width == sz[s2].0);
                if is_empty_size(sz[s1]) {
                    assert forall|x: int, y: int| #[trigger] st1.in_bounds(x, y) implies st1.px(x, y) == st2.px(x, y) by {}
                    assert(st1.same(st2));
                } else {
                    assert(rects[s1].overlaps(rects[s2]));
                }
            }
        }
    }
    assert forall|a1: int, f1: int, a2: int, f2: int|
        is_frame(anims, a1, f1) && is_frame(anims, a2, f2) implies #[trigger] location_of(out, a1, f1)
            == #[trigger] location_of(out, a2, f2) || !location_of(out, a1, f1).overlaps(location_of(out, a2, f2)) by {
        let s1 = slots[a1]@[f1] as int;
        let s2 = slots[a2]@[f2] as int;
        if s1 != s2 {
            assert(!rects[s1].overlaps(rects[s2]));
        }
    }
    assert forall|a: int, f: int, x: int, y: int|
        #[trigger] is_frame(anims, a, f) && tile_at(anims, a, f).in_bounds(x, y) implies {
            let l = location_of(out, a, f);
            &&& img.in_bounds(l.x + x, l.y + y)
            &&& img.px(l.x + x, l.y + y) == #[trigger] tile_at(anims, a, f).px(x, y)
        } by {
        let s = slots[a]@[f] as int;
        let t = tile_at(anims, a, f);
        let st = slot_tile(anims, unique, s);
        let l = rects[s];
        assert(st.same(t));
        assert(st.in_bounds(x, y));
        assert(rects[s].x + rects[s].width <= img.width);
        assert(img.in_bounds(l.x + x, l.y + y));
        assert(l.contains(l.x + x, l.y + y));
        assert(atlas_pixel_ok(anims, unique, rects, l.x + x, l.y + y, img.px(l.x + x, l.y + y)));
    }
}

/// Deduplicates the tiles of all animations, lays the distinct ones out in
/// one square atlas, draws the atlas, and gives every frame its tile's
/// location in it.
#[verifier::rlimit(100)]
pub fn pack_animations(anims: &Vec<Animation>) -> (r: Result<PackedAtlas, PackError>)
    requires
        tiles_wf(anims@),
    ensures
        r matches Ok(pa) ==> {
            &&& pa.image.wf()
            &&& placed_from(anims@, pa.animations@)
            &&& shares_locations(anims@, pa.animations@)
            &&& locations_disjoint(anims@, pa.animations@)
            &&& atlas_holds_tiles(anims@, pa.animations@, pa.image)
            &&& distinct_locations(anims@, pa.animations@)
            &&& locations_in_atlas(anims@, pa.animations@, pa.image)
        },
        exists|unique: Seq<(usize, usize)>|
            distinct_tiles(anims@, unique) && first_occurrences(anims@, unique) && (r is Ok <==> layout_ok(
                slot_sizes(anims@, unique),
            )) && (r matches Ok(pa) ==> layout_side(slot_sizes(anims@, unique), pa.side as nat) && placed_at_layout(
                anims@,
                unique,
                pa.animations@,
                pa.side as nat,
            )),
        r matches Ok(pa) ==> all_tiles_proper(anims@) ==> pa.image.width <= pa.side && pa.image.height <= pa.side,
{
    let (unique, slots) = deduplicate(anims);
    let mut sizes: Vec<(u32, u32)> = Vec::new();
    let mut u: usize = 0;
    while u < unique.len()
        invariant
            is_dedup(anims@, unique@, slots@),
            tiles_wf(anims@),
            u <= unique@.len(),
            sizes@.len() == u,
            forall|v: int| 0 <= v < u ==> #[trigger] sizes@[v] == (slot_tile(anims@, unique@, v).width, slot_tile(anims@, unique@, v).height),
        decreases unique@.len() - u,
    {
        let (a, f) = unique[u];
        assert(is_frame(anims@, a as int, f as int));
        let t = &anims[a].frames[f].tile;
        sizes.push((t.width, t.height));
        u = u + 1;
    }
    proof {
        assert(sizes@ =~= slot_sizes(anims@, unique@));
        assert forall|a: int, f: int| #[trigger] is_frame(anims@, a, f) implies exists|u: int|
            0 <= u < unique@.len() && #[trigger] slot_tile(anims@, unique@, u).same(tile_at(anims@, a, f)) by {
            let sl = slots@[a]@[f] as int;
            assert(slot_tile(anims@, unique@, sl).same(tile_at(anims@, a, f)));
        }
        assert(distinct_tiles(anims@, unique@));
    }
    let (side, rects) = match layout(&sizes) {
        Ok(v) => v,
        Err(e) => return Err(e),
    };
    assert(slots_placed(anims@, unique@, rects@)) by {
        assert forall|v: int| 0 <= v < rects@.len() implies {
            &&& (#[trigger] rects@[v]).x + rects@[v].width <= u32::MAX
            &&& rects@[v].y + rects@[v].height <= u32::MAX
        } by {
            assert(rects@[v].width == sizes@[v].0);
            if !is_empty_size(sizes@[v]) {
                assert(within(rects@[v], side as nat));
            }
        }
    }
    let image = compose_atlas(anims, &unique, &rects);
    let mut out: Vec<PlacedAnimation> = Vec::new();
    let mut a: usize = 0;
    while a < anims.len()
        invariant
            is_dedup(anims@, unique@, slots@),
            slots_placed(anims@, unique@, rects@),
            a <= anims@.len(),
            out@.len() == a,
            forall|aa: int| 0 <= aa < a ==> {
                &&& (#[trigger] out@[aa]).name@ == anims@[aa].name@
                &&& out@[aa].frames@.len() == anims@[aa].frames@.len()
            },
            forall|aa: int, f: int| 0 <= aa < a && #[trigger] is_frame(anims@, aa, f) ==> out@[aa].frames@[f]
                == placed_frame(anims@[aa].frames@[f], rects@[slots@[aa]@[f] as int]),
        decreases anims@.len() - a,
    {
        let mut frames: Vec<PlacedFrame> = Vec::new();
        let mut f: usize = 0;
        while f < anims[a].frames.len()
            invariant
                is_dedup(anims@, unique@, slots@),
                slots_placed(anims@, unique@, rects@),
                a < anims@.len(),
                f <= anims@[a as int].frames@.len(),
                frames@.len() == f,
                forall|ff: int| 0 <= ff < f ==> #[trigger] frames@[ff]
                    == placed_frame(anims@[a as int].frames@[ff], rects@[slots@[a as int]@[ff] as int]),
            decreases anims@[a as int].frames@.len() - f,
        {
            assert(is_frame(anims@, a as int, f as int));
            let cf = &anims[a].frames[f];
            let s = slots[a][f];
            frames.push(PlacedFrame {
                location: rects[s],
                offset_x: cf.offset_x,
                offset_y: cf.offset_y,
                frame_time: cf.frame_time,
                cleanup_rect: cf.cleanup_rect,
            });
            f = f + 1;
        }
        out.push(PlacedAnimation { name: anims[a].name.clone(), frames });
        a = a + 1;
    }
    proof {
        assert forall|aa: int, f: int| #[trigger] is_frame(anims@, aa, f) implies location_of(out@, aa, f)
            == rects@[slots@[aa]@[f] as int] by {
            assert(out@[aa].frames@[f] == placed_frame(anims@[aa].frames@[f], rects@[slots@[aa]@[f] as int]));
        }
        assert forall|aa: int, f: int| #[trigger] is_frame(anims@, aa, f) implies {
            let l = location_of(out@, aa, f);
            &&& out@[aa].frames@[f] == placed_frame(anims@[aa].frames@[f], l)
            &&& l.width == tile_at(anims@, aa, f).width
            &&& l.height == tile_at(anims@, aa, f).height
        } by {
            let sl = slots@[aa]@[f] as int;
            assert(slot_tile(anims@, unique@, sl).same(tile_at(anims@, aa, f)));
            assert(rects@[sl].width == slot_tile(anims@, unique@, sl).width);
        }
        lemma_placement_laws(anims@, unique@, slots@, rects@, out@, image);
    }
    proof {
        assert forall|u: int| 0 <= u < rects@.len() && !is_empty_size(sizes@[u]) implies rects@[u].x + rects@[u].width <= side
            && rects@[u].y + rects@[u].height <= side by {
            assert(within(rects@[u], side as nat));
        }
        assert forall|a: int, f: int, u: int|
            #![trigger location_of(out@, a, f), slot_tile(anims@, unique@, u)]
            is_frame(anims@, a, f) && 0 <= u < unique@.len() && slot_tile(anims@, unique@, u).same(tile_at(anims@, a, f))
                implies location_of(out@, a, f) == layout_rect(slot_sizes(anims@, unique@), side as nat, u) by {
            let sl = slots@[a]@[f] as int;
            let st = slot_tile(anims@, unique@, sl);
            assert(st.same(tile_at(anims@, a, f)));
            if sl != u {
                lemma_same_symmetric(st, tile_at(anims@, a, f));
                lemma_same_transitive(slot_tile(anims@, unique@, u), tile_at(anims@, a, f), st);
                assert(false);
            }
            assert(location_of(out@, a, f) == rects@[u]);
            assert(rects@[u].width == sizes@[u].0);
        }
        if all_tiles_proper(anims@) {
            if image.width > 0 {
                let u = choose|u: int| 0 <= u < rects@.len() && #[trigger] rects@[u].x + rects@[u].width == image.width;
                assert(rects@[u].width == sizes@[u].0);
                assert(is_frame(anims@, unique@[u].0 as int, unique@[u].1 as int));
            }
            if image.height > 0 {
                let u = choose|u: int| 0 <= u < rects@.len() && #[trigger] rects@[u].y + rects@[u].height == image.height;
                assert(rects@[u].width == sizes@[u].0);
                assert(is_frame(anims@, unique@[u].0 as int, unique@[u].1 as int));
            }
        }
    }
    Ok(PackedAtlas { side, image, animations: out })
}

} // verus!
