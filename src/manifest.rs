use vstd::prelude::*;
use vstd::string::StrSliceExecFns;

use crate::atlas::{PlacedAnimation, PlacedFrame};
use crate::image::Rect;

verus! {

pub open spec fn digit_char(d: int) -> char {
    if d == 0 {
        '0'
    } else if d == 1 {
        '1'
    } else if d == 2 {
        '2'
    } else if d == 3 {
        '3'
    } else if d == 4 {
        '4'
    } else if d == 5 {
        '5'
    } else if d == 6 {
        '6'
    } else if d == 7 {
        '7'
    } else if d == 8 {
        '8'
    } else if d == 9 {
        '9'
    } else if d == 10 {
        'a'
    } else if d == 11 {
        'b'
    } else if d == 12 {
        'c'
    } else if d == 13 {
        'd'
    } else if d == 14 {
        'e'
    } else {
        'f'
    }
}

/// The decimal digits of `n`, without leading zeros.
pub open spec fn dec(n: nat) -> Seq<char>
    decreases n,
{
    if n < 10 {
        seq![digit_char(n as int)]
    } else {
        dec(n / 10).push(digit_char((n % 10) as int))
    }
}

/// A character as it stands inside a JSON string.
pub open spec fn escape_char(c: char) -> Seq<char> {
    if c == '"' {
        seq!['\\', '"']
    } else if c == '\\' {
        seq!['\\', '\\']
    } else if (c as u32) < 32 {
        seq!['\\', 'u', '0', '0', digit_char((c as u32) as int / 16), digit_char((c as u32) as int % 16)]
    } else {
        seq![c]
    }
}

pub open spec fn escape(s: Seq<char>) -> Seq<char>
    decreases s.len(),
{
    if s.len() == 0 {
        Seq::empty()
    } else {
        escape(s.drop_last()) + escape_char(s.last())
    }
}

pub open spec fn rect_json(r: Rect) -> Seq<char> {
    "{\"x\":"@ + dec(r.x as nat) + ",\"y\":"@ + dec(r.y as nat) + ",\"width\":"@ + dec(r.width as nat)
        + ",\"height\":"@ + dec(r.height as nat) + "}"@
}

pub open spec fn clear_json(c: Option<Rect>) -> Seq<char> {
    match c {
        Some(r) => rect_json(r),
        None => "null"@,
    }
}

pub open spec fn frame_json(f: PlacedFrame) -> Seq<char> {
    "{\"location\":"@ + rect_json(f.location) + ",\"position\":{\"x\":"@ + dec(f.offset_x as nat)
        + ",\"y\":"@ + dec(f.offset_y as nat) + "},\"duration\":"@ + dec(f.frame_time as nat)
        + ",\"clear_rect\":"@ + clear_json(f.cleanup_rect) + "}"@
}

/// The first `n` frames, separated by commas.
pub open spec fn frames_json(fs: Seq<PlacedFrame>, n: nat) -> Seq<char>
    decreases n,
{
    if n == 0 {
        Seq::empty()
    } else if n == 1 {
        frame_json(fs[0])
    } else {
        frames_json(fs, (n - 1) as nat) + ","@ + frame_json(fs[n - 1])
    }
}

pub open spec fn animation_json(a: PlacedAnimation, size: (u32, u32)) -> Seq<char> {
    "\""@ + escape(a.name@) + "\":{\"frames\":["@ + frames_json(a.frames@, a.frames@.len()) + "],\"frame_rate\":24,\"width\":"@
        + dec(size.0 as nat) + ",\"height\":"@ + dec(size.1 as nat) + "}"@
}

pub open spec fn animations_json(anims: Seq<PlacedAnimation>, sizes: Seq<(u32, u32)>, n: nat) -> Seq<char>
    decreases n,
{
    if n == 0 {
        Seq::empty()
    } else if n == 1 {
        animation_json(anims[0], sizes[0])
    } else {
        animations_json(anims, sizes, (n - 1) as nat) + ","@ + animation_json(anims[n - 1], sizes[n - 1])
    }
}

/// The manifest: each animation under its name, with its placed frames,
/// a frame rate of 24 and its canvas size.
pub open spec fn manifest_json(anims: Seq<PlacedAnimation>, sizes: Seq<(u32, u32)>) -> Seq<char> {
    "{\"animations\":{"@ + animations_json(anims, sizes, anims.len()) + "}}"@
}

fn digit(d: u32) -> (c: char)
    requires
        d < 16,
    ensures
        c == digit_char(d as int),
{
    if d == 0 {
        '0'
    } else if d == 1 {
        '1'
    } else if d == 2 {
        '2'
    } else if d == 3 {
        '3'
    } else if d == 4 {
        '4'
    } else if d == 5 {
        '5'
    } else if d == 6 {
        '6'
    } else if d == 7 {
        '7'
    } else if d == 8 {
        '8'
    } else if d == 9 {
        '9'
    } else if d == 10 {
        'a'
    } else if d == 11 {
        'b'
    } else if d == 12 {
        'c'
    } else if d == 13 {
        'd'
    } else if d == 14 {
        'e'
    } else {
        'f'
    }
}

fn push_lit(out: &mut Vec<char>, s: &str)
    ensures
        final(out)@ == old(out)@ + s@,
{
    let n = s.unicode_len();
    let mut i: usize = 0;
    while i < n
        invariant
            n == s@.len(),
            i <= n,
            out@ == old(out)@ + s@.subrange(0, i as int),
        decreases n - i,
    {
        out.push(s.get_char(i));
        i = i + 1;
        assert(out@ =~= old(out)@ + s@.subrange(0, i as int));
    }
    assert(s@.subrange(0, n as int) =~= s@);
}

fn push_decimal(out: &mut Vec<char>, n: u32)
    ensures
        final(out)@ == old(out)@ + dec(n as nat),
    decreases n,
{
    if n >= 10 {
        push_decimal(out, n / 10);
    }
    out.push(digit(n % 10));
    assert(final(out)@ =~= old(out)@ + dec(n as nat));
}

fn push_escaped(out: &mut Vec<char>, s: &str)
    ensures
        final(out)@ == old(out)@ + escape(s@),
{
    let n = s.unicode_len();
    let mut i: usize = 0;
    while i < n
        invariant
            n == s@.len(),
            i <= n,
            out@ == old(out)@ + escape(s@.subrange(0, i as int)),
        decreases n - i,
    {
        let c = s.get_char(i);
        if c == '"' {
            out.push('\\');
            out.push('"');
        } else if c == '\\' {
            out.push('\\');
            out.push('\\');
        } else if (c as u32) < 32 {
            out.push('\\');
            out.push('u');
            out.push('0');
            out.push('0');
            out.push(digit((c as u32) / 16));
            out.push(digit((c as u32) % 16));
        } else {
            out.push(c);
        }
        proof {
            let t = s@.subrange(0, i + 1);
            assert(t.drop_last() =~= s@.subrange(0, i as int));
            assert(t.last() == c);
        }
        i = i + 1;
        assert(out@ =~= old(out)@ + escape(s@.subrange(0, i as int)));
    }
    assert(s@.subrange(0, n as int) =~= s@);
}

fn push_rect(out: &mut Vec<char>, r: Rect)
    ensures
        final(out)@ == old(out)@ + rect_json(r),
{
    push_lit(out, "{\"x\":");
    push_decimal(out, r.x);
    push_lit(out, ",\"y\":");
    push_decimal(out, r.y);
    push_lit(out, ",\"width\":");
    push_decimal(out, r.width);
    push_lit(out, ",\"height\":");
    push_decimal(out, r.height);
    push_lit(out, "}");
    assert(final(out)@ =~= old(out)@ + rect_json(r));
}

fn push_frame(out: &mut Vec<char>, f: &PlacedFrame)
    ensures
        final(out)@ == old(out)@ + frame_json(*f),
{
    push_lit(out, "{\"location\":");
    push_rect(out, f.location);
    push_lit(out, ",\"position\":{\"x\":");
    push_decimal(out, f.offset_x);
    push_lit(out, ",\"y\":");
    push_decimal(out, f.offset_y);
    push_lit(out, "},\"duration\":");
    push_decimal(out, f.frame_time);
    push_lit(out, ",\"clear_rect\":");
    let ghost mid = out@;
    match f.cleanup_rect {
        Some(r) => push_rect(out, r),
        None => push_lit(out, "null"),
    }
    assert(out@ == mid + clear_json(f.cleanup_rect));
    push_lit(out, "}");
    assert(final(out)@ =~= old(out)@ + frame_json(*f));
}

fn push_animation(out: &mut Vec<char>, a: &PlacedAnimation, size: (u32, u32))
    ensures
        final(out)@ == old(out)@ + animation_json(*a, size),
{
    push_lit(out, "\"");
    push_escaped(out, a.name.as_str());
    push_lit(out, "\":{\"frames\":[");
    let ghost start = out@;
    let mut i: usize = 0;
    while i < a.frames.len()
        invariant
            i <= a.frames@.len(),
            out@ == start + frames_json(a.frames@, i as nat),
        decreases a.frames@.len() - i,
    {
        if i > 0 {
            push_lit(out, ",");
        }
        push_frame(out, &a.frames[i]);
        i = i + 1;
        assert(out@ =~= start + frames_json(a.frames@, i as nat));
    }
    push_lit(out, "],\"frame_rate\":24,\"width\":");
    push_decimal(out, size.0);
    push_lit(out, ",\"height\":");
    push_decimal(out, size.1);
    push_lit(out, "}");
    assert(final(out)@ =~= old(out)@ + animation_json(*a, size));
}

/// The JSON manifest of the placed animations, each with the canvas size
/// at the same index of `sizes`.
pub fn write_manifest(anims: &Vec<PlacedAnimation>, sizes: &Vec<(u32, u32)>) -> (r: Vec<char>)
    requires
        sizes@.len() == anims@.len(),
    ensures
        r@ == manifest_json(anims@, sizes@),
{
    let mut out: Vec<char> = Vec::new();
    push_lit(&mut out, "{\"animations\":{");
    let ghost start = out@;
    let mut i: usize = 0;
    while i < anims.len()
        invariant
            sizes@.len() == anims@.len(),
            i <= anims@.len(),
            out@ == start + animations_json(anims@, sizes@, i as nat),
        decreases anims@.len() - i,
    {
        if i > 0 {
            push_lit(&mut out, ",");
        }
        push_animation(&mut out, &anims[i], sizes[i]);
        i = i + 1;
        assert(out@ =~= start + animations_json(anims@, sizes@, i as nat));
    }
    push_lit(&mut out, "}}");
    assert(out@ =~= manifest_json(anims@, sizes@));
    out
}

} // verus!
