use constructor_assets::parser::lev::{extract_color_palette, find_cmap_chunk, palette_from_cmap};
use constructor_assets::parser::types::{AssetError, Rgba};

fn chunk(name: &[u8; 4], body: &[u8]) -> Vec<u8> {
    let mut out = name.to_vec();
    out.extend((body.len() as u32).to_be_bytes());
    out.extend(body);
    out
}

fn level(chunks: &[Vec<u8>]) -> Vec<u8> {
    let mut data = b"FORM\0\0\0\0LEV1".to_vec();
    for c in chunks {
        data.extend(c);
    }
    data
}

fn rgba(r: u8, g: u8, b: u8, a: u8) -> Rgba {
    Rgba { r, g, b, a }
}

#[test]
fn palette_black_is_transparent() {
    let palette = palette_from_cmap(&[0, 0, 0, 1, 2, 3, 0, 0, 9]);
    assert_eq!(palette, vec![rgba(0, 0, 0, 0), rgba(1, 2, 3, 255), rgba(0, 0, 9, 255)]);
}

#[test]
fn palette_from_empty_body() {
    assert!(palette_from_cmap(&[]).is_empty());
}

#[test]
fn finds_cmap_after_other_chunks() {
    let data = level(&[chunk(b"INFO", &[1, 2, 3, 4, 5]), chunk(b"CMAP", &[10, 20, 30, 0, 0, 0])]);
    assert_eq!(find_cmap_chunk(&data).unwrap(), vec![10, 20, 30, 0, 0, 0]);
    assert_eq!(
        extract_color_palette(&data).unwrap(),
        vec![rgba(10, 20, 30, 255), rgba(0, 0, 0, 0)]
    );
}

#[test]
fn chunk_size_is_big_endian() {
    // A body of 0x0103 bytes: read as little-endian it would be 0x0301.
    let body: Vec<u8> = (0..0x0103u32).map(|i| (i % 7) as u8).collect();
    let data = level(&[chunk(b"JUNK", &body), chunk(b"CMAP", &[1, 1, 1])]);
    assert_eq!(extract_color_palette(&data).unwrap(), vec![rgba(1, 1, 1, 255)]);
}

#[test]
fn cmap_body_cut_short_by_end_of_data() {
    let mut data = level(&[chunk(b"CMAP", &[5, 6, 7, 8, 9, 10])]);
    data.truncate(data.len() - 3);
    assert_eq!(find_cmap_chunk(&data).unwrap(), vec![5, 6, 7]);
}

#[test]
fn missing_cmap_after_six_chunks() {
    let chunks: Vec<Vec<u8>> = (0..6).map(|_| chunk(b"DATA", &[1])).collect();
    let mut with_seventh = chunks.clone();
    with_seventh.push(chunk(b"CMAP", &[1, 2, 3]));
    assert_eq!(
        extract_color_palette(&level(&with_seventh)).err(),
        Some(AssetError::CmapChunkMissing)
    );
}

#[test]
fn end_of_data_before_cmap() {
    let data = level(&[chunk(b"DATA", &[1])]);
    assert_eq!(extract_color_palette(&data).err(), Some(AssetError::UnexpectedEof));
    assert_eq!(extract_color_palette(&[0; 5]).err(), Some(AssetError::UnexpectedEof));
    let mut cut = level(&[]);
    cut.extend(b"CMAP\0\0");
    assert_eq!(extract_color_palette(&cut).err(), Some(AssetError::UnexpectedEof));
}

#[test]
fn chunk_name_must_be_utf8() {
    let data = level(&[chunk(&[0xFF, b'M', b'A', b'P'], &[1, 2, 3])]);
    assert_eq!(extract_color_palette(&data).err(), Some(AssetError::Utf8));
}

#[test]
fn palette_ignores_the_file_header() {
    let data = level(&[chunk(b"CMAP", &[4, 5, 6])]);
    let mut other = data.clone();
    for b in other.iter_mut().take(12) {
        *b = 0xAB;
    }
    assert_eq!(extract_color_palette(&data), extract_color_palette(&other));
    assert_eq!(extract_color_palette(&other).unwrap(), vec![rgba(4, 5, 6, 255)]);
}
