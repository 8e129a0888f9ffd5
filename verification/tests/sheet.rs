use constructor_assets::extractor::spr::indexes::men::get_index;
use constructor_assets::extractor::spr::sheet::{make_sprite_sheet, sheet_layout_is_ok};
use constructor_assets::extractor::types::{AssetError, SpriteBuffer, SpriteImage};
use constructor_assets::parser::types::SpriteImage as ParsedSprite;

fn solid(offset_h: i16, width: u16, height: u16, colors: &[[u8; 4]]) -> SpriteImage {
    let data: Vec<u8> = colors.iter().flat_map(|c| c.iter().copied()).collect();
    SpriteImage {
        offset_h,
        offset_v: 0,
        width,
        height,
        image_buf: SpriteBuffer { width: width as u32, height: height as u32, data },
    }
}

const A: [u8; 4] = [1, 2, 3, 4];
const B: [u8; 4] = [5, 6, 7, 8];
const C: [u8; 4] = [9, 10, 11, 12];
const D: [u8; 4] = [13, 14, 15, 16];
const O: [u8; 4] = [0, 0, 0, 0];

#[test]
fn sheet_places_sprites_in_slots() {
    let first = solid(-1, 2, 1, &[A, B]);
    let second = solid(0, 1, 2, &[C, D]);
    let sprites = vec![first, second];
    assert!(sheet_layout_is_ok(&sprites));
    let sheet = make_sprite_sheet(sprites).unwrap();
    assert_eq!(sheet.width, 4);
    assert_eq!(sheet.height, 2);
    let expected: Vec<u8> = [O, O, O, C, A, B, O, D].iter().flat_map(|c| c.iter().copied()).collect();
    assert_eq!(sheet.data, expected);
}

#[test]
fn sheet_leaves_out_sprites_that_stick_out() {
    let sprites = vec![solid(0, 2, 1, &[A, B])];
    let sheet = make_sprite_sheet(sprites).unwrap();
    assert_eq!(sheet.width, 2);
    assert_eq!(sheet.height, 1);
    assert_eq!(sheet.data, vec![0u8; 8]);
}

#[test]
fn sheet_of_nothing_fails() {
    assert_eq!(make_sprite_sheet(vec![]).err(), Some(AssetError::EmptySpriteList));
}

#[test]
fn layout_refuses_offsets_past_the_left_edge() {
    assert!(!sheet_layout_is_ok(&vec![solid(2, 2, 1, &[A, B])]));
    assert!(!sheet_layout_is_ok(&vec![solid(i16::MIN, 2, 1, &[A, B])]));
    assert!(sheet_layout_is_ok(&vec![solid(1, 2, 1, &[A, B]), solid(-3, 2, 1, &[A, B])]));
}

#[test]
fn layout_refuses_incomplete_images() {
    let mut sprite = solid(0, 2, 1, &[A, B]);
    sprite.image_buf.data.pop();
    assert!(!sheet_layout_is_ok(&vec![sprite]));
}

#[test]
fn placed_sprite_from_parsed_offsets() {
    let parsed = ParsedSprite {
        chunk1: 0xFFFE,
        chunk2: 5,
        width: 1,
        height: 1,
        image_buf: SpriteBuffer { width: 1, height: 1, data: A.to_vec() },
    };
    let placed = SpriteImage::from_parsed(parsed);
    assert_eq!(placed.offset_h, -2);
    assert_eq!(placed.offset_v, 5);
    assert_eq!(placed.image_buf.data, A.to_vec());
}

#[test]
fn men_index_worker_animations() {
    let index = get_index();
    assert_eq!(index.len(), 1);
    assert_eq!(index[0].name, "worker");
    let walk = &index[0].animations[0];
    assert_eq!(walk.name, "walk");
    assert_eq!(walk.variations[0].name, "right");
    assert_eq!(walk.variations[0].frames, vec![0, 2, 4, 6]);
    assert_eq!(walk.variations[1].name, "up");
    assert_eq!(walk.variations[1].frames, vec![1, 3, 5, 7]);
    let idle = &index[0].animations[1];
    assert_eq!(idle.name, "idle");
    assert_eq!(idle.variations[0].name, "right");
    assert_eq!(idle.variations[0].frames, vec![8, 9, 10, 9, 8]);
    assert_eq!(idle.variations[1].name, "down");
    assert_eq!(idle.variations[1].frames, vec![11, 12, 13, 14, 15, 16, 17, 16, 15]);
    let largest = index
        .iter()
        .flat_map(|c| c.animations.iter())
        .flat_map(|a| a.variations.iter())
        .flat_map(|v| v.frames.iter())
        .max()
        .copied();
    assert_eq!(largest, Some(17));
}

#[test]
fn sheet_copies_images_at_their_own_size() {
    // Two frames declared 1 by 1, each carrying a 2 by 1 image.
    let frame = |colors: &[[u8; 4]]| {
        let mut sprite = solid(0, 1, 1, colors);
        sprite.image_buf.width = 2;
        sprite
    };
    let sprites = vec![frame(&[A, B]), frame(&[C, D])];
    assert!(sheet_layout_is_ok(&sprites));
    let sheet = make_sprite_sheet(sprites).unwrap();
    // Slots are one pixel wide: the sheet is 2 by 1. The first image fits at
    // x = 0; the second, at x = 1, would stick out and is left out.
    assert_eq!(sheet.width, 2);
    assert_eq!(sheet.height, 1);
    let expected: Vec<u8> = [A, B].iter().flat_map(|c| c.iter().copied()).collect();
    assert_eq!(sheet.data, expected);
}

#[test]
fn sheet_ignores_vertical_offset_and_sign() {
    let mut first = solid(-1, 2, 1, &[A, B]);
    first.offset_v = 7;
    let second = solid(0, 1, 2, &[C, D]);
    let flipped = vec![solid(1, 2, 1, &[A, B]), solid(0, 1, 2, &[C, D])];
    assert_eq!(make_sprite_sheet(vec![first, second]), make_sprite_sheet(flipped));
}
