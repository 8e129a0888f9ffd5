use constructor_assets::parser::spr::{
    flatten_pixel_vector, group_sprites, parse_sprite, parse_sprite_file, sprite_file_is_drawable,
    sprite_is_drawable, SpriteGroup,
};
use constructor_assets::parser::types::{AssetError, Rgba, SpriteBuffer, SpriteImage};

fn palette() -> Vec<Rgba> {
    (0..=255u8).map(|i| Rgba { r: i, g: 255 - i, b: i / 2, a: 255 }).collect()
}

fn record(chunk1: u16, chunk2: u16, width: u16, height: u16, body: &[u8]) -> Vec<u8> {
    let mut out = Vec::new();
    for w in [chunk1, chunk2, width, height] {
        out.extend(w.to_le_bytes());
    }
    out.extend(body);
    out
}

fn pixel(p: &[Rgba], code: u8) -> Vec<u8> {
    let c = p[code as usize];
    vec![c.r, c.g, c.b, c.a]
}

#[test]
fn flatten_concatenates_runs() {
    assert_eq!(flatten_pixel_vector(vec![vec![1, 2], vec![], vec![3], vec![0, 0]]), vec![1, 2, 3, 0, 0]);
    assert!(flatten_pixel_vector(vec![]).is_empty());
}

#[test]
fn parse_sprite_expands_zero_runs() {
    let p = palette();
    let buffer = record(0x1234, 0xFFFE, 2, 3, &[7, 0, 3, 9, 0, 0, 5]);
    let sprite = parse_sprite(&buffer, &p).unwrap();
    assert_eq!(sprite.chunk1, 0x1234);
    assert_eq!(sprite.chunk2, 0xFFFE);
    assert_eq!(sprite.width, 2);
    assert_eq!(sprite.height, 3);
    assert_eq!(sprite.image_buf.width, 2);
    assert_eq!(sprite.image_buf.height, 3);
    let mut expected = Vec::new();
    for code in [7u8, 0, 0, 0, 9, 5] {
        expected.extend(pixel(&p, code));
    }
    assert_eq!(sprite.image_buf.data, expected);
}

#[test]
fn parse_sprite_leaves_missing_pixels_blank_and_ignores_extra() {
    let p = palette();
    let short = parse_sprite(&record(0, 0, 2, 2, &[4]), &p).unwrap();
    let mut expected = pixel(&p, 4);
    expected.extend([0u8; 12]);
    assert_eq!(short.image_buf.data, expected);
    let long = parse_sprite(&record(0, 0, 1, 1, &[4, 200, 201]), &p).unwrap();
    assert_eq!(long.image_buf.data, pixel(&p, 4));
}

#[test]
fn parse_sprite_cut_short() {
    let p = palette();
    assert!(parse_sprite(&[1, 0, 2, 0, 3, 0, 4], &p).is_none());
    assert!(parse_sprite(&record(0, 0, 1, 1, &[3, 0]), &p).is_none());
}

#[test]
fn parse_sprite_empty_image() {
    let sprite = parse_sprite(&record(1, 2, 0, 5, &[]), &palette()).unwrap();
    assert!(sprite.image_buf.data.is_empty());
}

#[test]
fn drawable_checks_palette_range() {
    let small: Vec<Rgba> = palette().into_iter().take(8).collect();
    assert!(sprite_is_drawable(&record(0, 0, 2, 1, &[7, 0, 1]), 8));
    assert!(!sprite_is_drawable(&record(0, 0, 2, 1, &[7, 8]), 8));
    // An index past the last pixel is never drawn.
    assert!(sprite_is_drawable(&record(0, 0, 1, 1, &[7, 8]), 8));
    // A record that is cut short counts as drawable: it is skipped.
    assert!(sprite_is_drawable(&record(0, 0, 1, 1, &[0]), 0));
    assert!(parse_sprite(&record(0, 0, 1, 1, &[7, 8]), &small).is_some());
}

fn sprite_file(offsets: &[u32], records: &[(u32, Vec<u8>)], len: usize) -> Vec<u8> {
    let mut data = vec![0u8; len];
    data[..4].copy_from_slice(&(offsets.len() as u32).to_le_bytes());
    for (i, o) in offsets.iter().enumerate() {
        data[4 + 4 * i..8 + 4 * i].copy_from_slice(&o.to_le_bytes());
    }
    for (at, bytes) in records {
        data[*at as usize..*at as usize + bytes.len()].copy_from_slice(bytes);
    }
    data
}

#[test]
fn parse_sprite_file_reads_records_between_offsets() {
    let p = palette();
    let a = record(1, 2, 1, 1, &[10]);
    let b = record(3, 4, 2, 1, &[11, 12]);
    // Three entries, one without a sprite; the header takes 16 bytes.
    let data = sprite_file(&[40, 0, 61], &[(40, a), (61, b.clone())], 61 + b.len());
    assert!(sprite_file_is_drawable(&data, p.len()));
    let sprites = parse_sprite_file(&data, &p).unwrap();
    // Places read: 0, 0, 0, 0, 40, 61. The zeros before the last read
    // nothing; the last 0 reads bytes 0..40, whose body ends after a lone 0
    // and is skipped; then 40..61 (record a and even padding) and 61..end.
    assert_eq!(sprites.len(), 2);
    assert_eq!(sprites[0].chunk1, 1);
    assert_eq!(sprites[0].chunk2, 2);
    assert_eq!(sprites[0].image_buf.data, pixel(&p, 10));
    assert_eq!(sprites[1].chunk1, 3);
    let mut expected = pixel(&p, 11);
    expected.extend(pixel(&p, 12));
    assert_eq!(sprites[1].image_buf.data, expected);
}

#[test]
fn parse_sprite_file_needs_complete_header() {
    let p = palette();
    assert_eq!(parse_sprite_file(&[1, 0], &p).err(), Some(AssetError::UnexpectedEof));
    assert_eq!(parse_sprite_file(&[2, 0, 0, 0, 9, 0, 0, 0], &p).err(), Some(AssetError::UnexpectedEof));
}

#[test]
fn parse_sprite_file_without_entries_reads_whole_file() {
    let p = palette();
    // Zero entries: the one place read is 0, as far as the file reaches, so the
    // count word itself starts the record.
    let mut data = vec![0u8, 0, 0, 0];
    data.extend([1u8, 0, 1, 0, 9]);
    let sprites = parse_sprite_file(&data, &p).unwrap();
    assert_eq!(sprites.len(), 1);
    assert_eq!(sprites[0].chunk1, 0);
    assert_eq!(sprites[0].width, 1);
    assert_eq!(sprites[0].height, 1);
    assert_eq!(sprites[0].image_buf.data, pixel(&p, 9));
}

#[test]
fn sprite_file_with_unordered_offsets_is_refused() {
    let data = sprite_file(&[60, 40], &[], 80);
    assert!(!sprite_file_is_drawable(&data, 256));
}

fn bare(chunk1: u16, chunk2: u16) -> SpriteImage {
    SpriteImage {
        chunk1,
        chunk2,
        width: 0,
        height: 0,
        image_buf: SpriteBuffer { width: 0, height: 0, data: vec![] },
    }
}

#[test]
fn grouping_by_chunk_numbers() {
    let sprites = vec![bare(1, 2), bare(3, 4), bare(1, 2), bare(1, 3), bare(3, 4), bare(1, 2)];
    let groups = group_sprites(&sprites);
    assert_eq!(
        groups,
        vec![
            SpriteGroup { chunk1: 1, chunk2: 2, frames: vec![0, 2, 5] },
            SpriteGroup { chunk1: 3, chunk2: 4, frames: vec![1, 4] },
            SpriteGroup { chunk1: 1, chunk2: 3, frames: vec![3] },
        ]
    );
    assert_eq!(groups.iter().map(|g| g.frames.len()).sum::<usize>(), sprites.len());
}

#[test]
fn grouping_nothing() {
    assert!(group_sprites(&[]).is_empty());
}
