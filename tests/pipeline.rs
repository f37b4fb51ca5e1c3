use sprite_delta::animation::{compile_animation, CompiledFrame};
use sprite_delta::atlas::{check_placement, layout, pack_animations, Animation, PackError};
use sprite_delta::delta::generate_frame;
use sprite_delta::image::{crop, get_bounding_rect, images_equal, Image, Pixel, Rect};
use sprite_delta::manifest::write_manifest;

const RED: Pixel = Pixel { r: 255, g: 0, b: 0, a: 255 };
const BLUE: Pixel = Pixel { r: 0, g: 0, b: 255, a: 255 };
const CLEAR: Pixel = Pixel { r: 0, g: 0, b: 0, a: 0 };

fn rect(x: u32, y: u32, width: u32, height: u32) -> Rect {
    Rect { x, y, width, height }
}

fn image_with(width: u32, height: u32, pixels: &[(u32, u32, Pixel)]) -> Image {
    let mut img = Image::new(width, height);
    for &(x, y, p) in pixels {
        img.put_pixel(x, y, p);
    }
    img
}

fn filled(width: u32, height: u32, p: Pixel) -> Image {
    let mut img = Image::new(width, height);
    for y in 0..height {
        for x in 0..width {
            img.put_pixel(x, y, p);
        }
    }
    img
}

fn patterned(width: u32, height: u32) -> Image {
    let mut img = Image::new(width, height);
    for y in 0..height {
        for x in 0..width {
            let p = Pixel { r: (x * 30) as u8, g: (y * 30) as u8, b: 7, a: 255 };
            img.put_pixel(x, y, p);
        }
    }
    img
}

fn visible(p: Pixel) -> Pixel {
    if p.a == 0 {
        CLEAR
    } else {
        p
    }
}

/// Replays compiled frames on a blank canvas: erase, then draw the opaque
/// pixels of the tile at its offset.
fn replay(frames: &[CompiledFrame], n: usize, width: u32, height: u32) -> Vec<Vec<Pixel>> {
    let mut canvas = vec![vec![CLEAR; width as usize]; height as usize];
    for f in &frames[..n] {
        if let Some(r) = f.cleanup_rect {
            for y in r.y..r.y + r.height {
                for x in r.x..r.x + r.width {
                    canvas[y as usize][x as usize] = CLEAR;
                }
            }
        }
        for y in 0..f.tile.height {
            for x in 0..f.tile.width {
                let p = f.tile.get_pixel(x, y);
                if p.a != 0 {
                    canvas[(f.offset_y + y) as usize][(f.offset_x + x) as usize] = p;
                }
            }
        }
    }
    canvas
}

fn shows(canvas: &[Vec<Pixel>], img: &Image) -> bool {
    (0..img.height).all(|y| {
        (0..img.width).all(|x| visible(canvas[y as usize][x as usize]) == visible(img.get_pixel(x, y)))
    })
}

fn assert_reconstructs(inputs: &[Image], frames: &[CompiledFrame]) {
    let (w, h) = (inputs[0].width, inputs[0].height);
    let mut k = 0usize;
    for j in 0..frames.len() {
        let canvas = replay(frames, j + 1, w, h);
        for _ in 0..frames[j].frame_time {
            assert!(shows(&canvas, &inputs[k]), "input {} not shown by step {}", k, j);
            k += 1;
        }
    }
    assert_eq!(k, inputs.len());
}

fn manifest_string(chars: Vec<char>) -> String {
    chars.into_iter().collect()
}

#[test]
fn bounding_rect_of_transparent_image_is_empty() {
    let img = Image::new(5, 3);
    assert_eq!(get_bounding_rect(&img), rect(0, 0, 0, 0));
    assert_eq!(get_bounding_rect(&Image::new(0, 0)), rect(0, 0, 0, 0));
}

#[test]
fn bounding_rect_encloses_opaque_pixels() {
    let img = image_with(6, 5, &[(1, 3, RED), (4, 1, BLUE), (2, 2, RED)]);
    assert_eq!(get_bounding_rect(&img), rect(1, 1, 4, 3));
    let one = image_with(3, 3, &[(2, 2, RED)]);
    assert_eq!(get_bounding_rect(&one), rect(2, 2, 1, 1));
    let full = filled(4, 2, BLUE);
    assert_eq!(get_bounding_rect(&full), rect(0, 0, 4, 2));
}

#[test]
fn bounding_rect_ignores_colour_of_zero_alpha() {
    let ghost = Pixel { r: 9, g: 9, b: 9, a: 0 };
    let img = image_with(4, 4, &[(0, 0, ghost), (3, 3, ghost), (2, 1, RED)]);
    assert_eq!(get_bounding_rect(&img), rect(2, 1, 1, 1));
}

#[test]
fn crop_copies_the_region() {
    let img = patterned(5, 4);
    let c = crop(&img, rect(1, 2, 3, 2));
    assert_eq!((c.width, c.height), (3, 2));
    assert_eq!(c.get_pixel(0, 0), img.get_pixel(1, 2));
    assert_eq!(c.get_pixel(2, 1), img.get_pixel(3, 3));
}

#[test]
fn images_equal_compares_all_channels() {
    let a = patterned(3, 3);
    let b = patterned(3, 3);
    assert!(images_equal(&a, &b));
    let mut c = patterned(3, 3);
    c.put_pixel(1, 1, Pixel { r: 30, g: 30, b: 7, a: 254 });
    assert!(!images_equal(&a, &c));
    assert!(!images_equal(&a, &patterned(3, 2)));
}

#[test]
fn coord_in_rect_is_half_open() {
    let r = rect(1, 1, 2, 2);
    assert!(r.coord_in_rect(1, 1));
    assert!(r.coord_in_rect(2, 2));
    assert!(!r.coord_in_rect(3, 1));
    assert!(!r.coord_in_rect(0, 1));
    assert!(!rect(0, 0, 0, 0).coord_in_rect(0, 0));
    let far = rect(u32::MAX - 1, 0, 5, 1);
    assert!(far.coord_in_rect(u32::MAX, 0));
}

#[test]
fn differ_keeps_unchanged_pixels_inside_clear_rect() {
    // Pixel (0,0) disappears, (1,0) stays, (2,0) appears.
    let prev = image_with(3, 1, &[(0, 0, RED), (1, 0, BLUE)]);
    let next = image_with(3, 1, &[(1, 0, BLUE), (2, 0, RED)]);
    let (clear, render, delta) = generate_frame(&prev, &next);
    assert_eq!(clear, rect(0, 0, 1, 1));
    assert_eq!(render.get_pixel(0, 0), CLEAR);
    assert_eq!(render.get_pixel(1, 0), BLUE);
    assert_eq!(render.get_pixel(2, 0), RED);
    assert_eq!(delta.get_pixel(0, 0), CLEAR);
    assert_eq!(delta.get_pixel(1, 0), CLEAR);
    assert_eq!(delta.get_pixel(2, 0), RED);
}

#[test]
fn differ_reships_same_pixels_that_the_erase_covers() {
    // (0,0) and (2,0) vanish, so the clear rect spans (1,0), which stays.
    let prev = image_with(3, 1, &[(0, 0, RED), (1, 0, BLUE), (2, 0, RED)]);
    let next = image_with(3, 1, &[(1, 0, BLUE)]);
    let (clear, render, delta) = generate_frame(&prev, &next);
    assert_eq!(clear, rect(0, 0, 3, 1));
    assert_eq!(delta.get_pixel(1, 0), BLUE);
    assert_eq!(render.get_pixel(1, 0), BLUE);
    assert_eq!(delta.get_pixel(0, 0), CLEAR);
    assert_eq!(render.get_pixel(2, 0), CLEAR);
}

#[test]
fn static_animation() {
    let inputs = vec![filled(4, 4, RED), filled(4, 4, RED), filled(4, 4, RED)];
    let frames = compile_animation(&inputs);
    assert_eq!(frames.len(), 1);
    assert_eq!(frames[0].frame_time, 3);
    assert_eq!(frames[0].cleanup_rect, None);
    assert_eq!((frames[0].tile.width, frames[0].tile.height), (4, 4));
    let anims = vec![Animation { name: "idle".to_string(), frames }];
    let packed = pack_animations(&anims).unwrap();
    assert_eq!((packed.image.width, packed.image.height), (4, 4));
    assert_eq!(packed.animations[0].frames[0].location, rect(0, 0, 4, 4));
    let json = manifest_string(write_manifest(&packed.animations, &vec![(4, 4)]));
    assert_eq!(
        json,
        "{\"animations\":{\"idle\":{\"frames\":[{\"location\":{\"x\":0,\"y\":0,\"width\":4,\"height\":4},\"position\":{\"x\":0,\"y\":0},\"duration\":3,\"clear_rect\":null}],\"frame_rate\":24,\"width\":4,\"height\":4}}}"
    );
}

#[test]
fn pure_move() {
    let inputs = vec![image_with(2, 1, &[(0, 0, RED)]), image_with(2, 1, &[(1, 0, RED)])];
    let frames = compile_animation(&inputs);
    assert_eq!(frames.len(), 2);
    assert_eq!(frames[1].cleanup_rect, Some(rect(0, 0, 1, 1)));
    assert_eq!((frames[1].tile.width, frames[1].tile.height), (1, 1));
    assert_eq!(frames[1].tile.get_pixel(0, 0), RED);
    assert_eq!((frames[1].offset_x, frames[1].offset_y), (1, 0));
    assert_reconstructs(&inputs, &frames);
}

#[test]
fn appear() {
    let inputs = vec![Image::new(2, 2), image_with(2, 2, &[(1, 1, BLUE)])];
    let frames = compile_animation(&inputs);
    assert_eq!(frames.len(), 2);
    assert_eq!((frames[0].tile.width, frames[0].tile.height), (0, 0));
    assert_eq!(frames[0].cleanup_rect, None);
    assert_eq!((frames[1].tile.width, frames[1].tile.height), (1, 1));
    assert_eq!((frames[1].offset_x, frames[1].offset_y), (1, 1));
    assert_eq!(frames[1].cleanup_rect, None);
    assert_reconstructs(&inputs, &frames);
    let anims = vec![Animation { name: "pop".to_string(), frames }];
    let packed = pack_animations(&anims).unwrap();
    assert_eq!(packed.animations[0].frames[0].location, rect(0, 0, 0, 0));
    assert_eq!(packed.animations[0].frames[1].location, rect(0, 0, 1, 1));
    assert_eq!(packed.image.get_pixel(0, 0), BLUE);
}

#[test]
fn disappear() {
    let inputs = vec![image_with(2, 2, &[(0, 0, RED)]), Image::new(2, 2)];
    let frames = compile_animation(&inputs);
    assert_eq!(frames.len(), 2);
    assert_eq!(frames[1].cleanup_rect, Some(rect(0, 0, 1, 1)));
    assert_eq!((frames[1].tile.width, frames[1].tile.height), (0, 0));
    assert_reconstructs(&inputs, &frames);
}

#[test]
fn cross_animation_dedup() {
    let a = compile_animation(&vec![patterned(8, 8)]);
    let b = compile_animation(&vec![patterned(8, 8)]);
    let anims = vec![
        Animation { name: "a".to_string(), frames: a },
        Animation { name: "b".to_string(), frames: b },
    ];
    let packed = pack_animations(&anims).unwrap();
    assert_eq!((packed.image.width, packed.image.height), (8, 8));
    let la = packed.animations[0].frames[0].location;
    let lb = packed.animations[1].frames[0].location;
    assert_eq!(la, lb);
    assert_eq!(la, rect(0, 0, 8, 8));
    assert_eq!(packed.image.get_pixel(3, 5), patterned(8, 8).get_pixel(3, 5));
}

#[test]
fn first_frame_is_reproduced() {
    let first = image_with(5, 4, &[(1, 1, RED), (3, 2, BLUE), (2, 3, RED)]);
    let frames = compile_animation(&vec![first]);
    let first = image_with(5, 4, &[(1, 1, RED), (3, 2, BLUE), (2, 3, RED)]);
    assert_eq!((frames[0].offset_x, frames[0].offset_y), (1, 1));
    assert!(shows(&replay(&frames, 1, 5, 4), &first));
}

#[test]
fn reconstruction_of_a_longer_animation() {
    let inputs = vec![
        image_with(4, 3, &[(0, 0, RED), (1, 0, RED)]),
        image_with(4, 3, &[(0, 0, RED), (1, 0, RED)]),
        image_with(4, 3, &[(1, 1, RED), (2, 1, BLUE)]),
        image_with(4, 3, &[(1, 1, RED), (3, 2, BLUE)]),
        Image::new(4, 3),
        Image::new(4, 3),
        image_with(4, 3, &[(0, 0, RED), (1, 1, RED), (2, 2, RED), (3, 0, BLUE)]),
    ];
    let frames = compile_animation(&inputs);
    assert_eq!(frames.len(), 5);
    assert_eq!(frames.iter().map(|f| f.frame_time).collect::<Vec<_>>(), vec![2, 1, 1, 2, 1]);
    assert!(frames.iter().all(|f| f.frame_time >= 1));
    assert_reconstructs(&inputs, &frames);
}

#[test]
fn identical_frames_coalesce() {
    let inputs: Vec<Image> = (0..5).map(|_| patterned(3, 2)).collect();
    let frames = compile_animation(&inputs);
    assert_eq!(frames.len(), 1);
    assert_eq!(frames[0].frame_time, 5);
    assert!(compile_animation(&Vec::new()).is_empty());
}

#[test]
fn shared_tiles_share_a_location_and_others_do_not_overlap() {
    let walk = compile_animation(&vec![
        image_with(4, 4, &[(0, 0, RED)]),
        image_with(4, 4, &[(1, 0, RED)]),
        image_with(4, 4, &[(0, 0, RED)]),
    ]);
    let run = compile_animation(&vec![filled(3, 3, BLUE), image_with(3, 3, &[(0, 0, RED)])]);
    let anims = vec![
        Animation { name: "walk".to_string(), frames: walk },
        Animation { name: "run".to_string(), frames: run },
    ];
    let packed = pack_animations(&anims).unwrap();
    let mut all = Vec::new();
    for (a, anim) in anims.iter().enumerate() {
        for (f, frame) in anim.frames.iter().enumerate() {
            let placed = packed.animations[a].frames[f];
            assert_eq!(placed.location.width, frame.tile.width);
            assert_eq!(placed.location.height, frame.tile.height);
            assert_eq!(placed.frame_time, frame.frame_time);
            assert_eq!(placed.cleanup_rect, frame.cleanup_rect);
            all.push((&frame.tile, placed.location));
        }
    }
    for (i, (ti, li)) in all.iter().enumerate() {
        for (tj, lj) in all.iter().skip(i + 1) {
            if images_equal(ti, tj) {
                assert_eq!(li, lj);
            } else if li != lj {
                let apart = li.x + li.width <= lj.x
                    || lj.x + lj.width <= li.x
                    || li.y + li.height <= lj.y
                    || lj.y + lj.height <= li.y;
                assert!(apart, "{:?} overlaps {:?}", li, lj);
            }
        }
    }
    // The single red pixel of the first frames of both animations is one tile.
    assert_eq!(packed.animations[0].frames[0].location, packed.animations[1].frames[1].location);
}

#[test]
fn layout_uses_rounded_square_root_side() {
    let (side, rects) = layout(&vec![(4, 4)]).unwrap();
    assert_eq!(side, 6);
    assert_eq!(rects, vec![rect(0, 0, 4, 4)]);
    let (side, rects) = layout(&vec![(2, 2), (2, 2)]).unwrap();
    assert_eq!(side, 4);
    assert_eq!(rects, vec![rect(0, 0, 2, 2), rect(2, 0, 2, 2)]);
    // Side 1 leaves no room below the tile, so the side is doubled.
    let (side, rects) = layout(&vec![(0, 0), (1, 1)]).unwrap();
    assert_eq!(side, 2);
    assert_eq!(rects, vec![rect(0, 0, 0, 0), rect(0, 0, 1, 1)]);
    let (side, rects) = layout(&Vec::new()).unwrap();
    assert_eq!((side, rects.len()), (0, 0));
}

#[test]
fn layout_doubles_the_side_until_tiles_fit() {
    // 2 * 1 * 10 = 20 gives side 4; a 1x10 tile first fits at side 16.
    let (side, rects) = layout(&vec![(1, 10)]).unwrap();
    assert_eq!(side, 16);
    assert_eq!(rects, vec![rect(0, 0, 1, 10)]);
}

#[test]
fn layout_rejects_an_atlas_side_beyond_32_bits() {
    assert_eq!(layout(&vec![(u32::MAX, u32::MAX)]), Err(PackError::AtlasTooLarge));
}

#[test]
fn check_placement_rejects_bad_packer_output() {
    let sizes = vec![(2, 2), (2, 2)];
    assert_eq!(check_placement(&sizes, 4, None), Err(PackError::PackFailed));
    let missing = Some(vec![Some(rect(0, 0, 2, 2)), None]);
    assert_eq!(check_placement(&sizes, 4, missing), Err(PackError::PackFailed));
    let overlapping = Some(vec![Some(rect(0, 0, 2, 2)), Some(rect(1, 1, 2, 2))]);
    assert_eq!(check_placement(&sizes, 4, overlapping), Err(PackError::PackFailed));
    let outside = Some(vec![Some(rect(0, 0, 2, 2)), Some(rect(3, 0, 2, 2))]);
    assert_eq!(check_placement(&sizes, 4, outside), Err(PackError::PackFailed));
    let rotated = Some(vec![Some(rect(0, 0, 2, 2)), Some(rect(2, 0, 1, 4))]);
    assert_eq!(check_placement(&sizes, 4, rotated), Err(PackError::PackFailed));
    let good = Some(vec![Some(rect(0, 0, 2, 2)), Some(rect(2, 2, 2, 2))]);
    assert_eq!(check_placement(&sizes, 4, good), Ok(vec![rect(0, 0, 2, 2), rect(2, 2, 2, 2)]));
}

#[test]
fn manifest_escapes_names_and_joins_entries() {
    let anims = vec![
        Animation { name: "a\"b".to_string(), frames: compile_animation(&vec![filled(1, 1, RED)]) },
        Animation {
            name: "c\\d".to_string(),
            frames: compile_animation(&vec![image_with(2, 1, &[(0, 0, RED)]), image_with(2, 1, &[(1, 0, RED)])]),
        },
    ];
    let packed = pack_animations(&anims).unwrap();
    let json = manifest_string(write_manifest(&packed.animations, &vec![(1, 1), (2, 1)]));
    assert!(json.starts_with("{\"animations\":{\"a\\\"b\":{\"frames\":[{\"location\":{\"x\":0,\"y\":0,\"width\":1,\"height\":1}"));
    assert!(json.contains("},\"c\\\\d\":{\"frames\":["));
    assert!(json.contains("\"duration\":1,\"clear_rect\":{\"x\":0,\"y\":0,\"width\":1,\"height\":1}}"));
    assert!(json.ends_with("],\"frame_rate\":24,\"width\":2,\"height\":1}}}"));
    let empty = manifest_string(write_manifest(&Vec::new(), &Vec::new()));
    assert_eq!(empty, "{\"animations\":{}}");
}

#[test]
fn manifest_writes_multi_digit_numbers_and_control_characters() {
    let anims = vec![Animation { name: "x\ny".to_string(), frames: compile_animation(&vec![filled(12, 105, BLUE)]) }];
    let packed = pack_animations(&anims).unwrap();
    let json = manifest_string(write_manifest(&packed.animations, &vec![(12, 105)]));
    assert!(json.contains("\"x\\u000ay\""));
    assert!(json.contains("\"width\":12,\"height\":105}}}"));
}

#[test]
fn invisible_changes_lengthen_the_last_step() {
    let ghost = Pixel { r: 9, g: 9, b: 9, a: 0 };
    let inputs = vec![
        image_with(2, 1, &[(0, 0, ghost), (1, 0, RED)]),
        image_with(2, 1, &[(1, 0, RED)]),
        image_with(2, 1, &[(0, 0, BLUE), (1, 0, RED)]),
    ];
    let frames = compile_animation(&inputs);
    assert_eq!(frames.len(), 2);
    assert_eq!(frames[0].frame_time, 2);
    assert_eq!(frames[1].frame_time, 1);
    assert_eq!((frames[1].tile.width, frames[1].tile.height), (1, 1));
    assert_reconstructs(&inputs, &frames);
}

#[test]
fn layout_fails_cleanly_on_a_tile_wider_than_any_side() {
    // A 32-bit-wide tile never fits next to a skyline; the packer is not asked.
    assert_eq!(layout(&vec![(5, 5), (u32::MAX, 1)]), Err(PackError::PackFailed));
}
