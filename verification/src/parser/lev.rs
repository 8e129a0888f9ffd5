//! The colour palette of a level file.
//!
//! From byte 12 on, a level file is a series of chunks: a four-byte name,
//! a big-endian 32-bit body size, then the body. The palette is the body of
//! the `CMAP` chunk, three bytes (red, green, blue) per colour; only the
//! first six chunks are looked at.

use vstd::prelude::*;
use vstd::utf8::valid_utf8;
use crate::parser::codec::{be_u32_value, read_u32_be, string_from_utf8};
use crate::parser::fil::min_int;
use crate::parser::types::{AssetError, Rgba};

verus! {

/// Where the first chunk of a level file starts.
pub const FIRST_CHUNK_POS: usize = 12;

/// How many chunks are searched for the palette.
pub const CHUNKS_SEARCHED: usize = 6;

/// The name of the palette chunk, `CMAP`.
pub open spec fn cmap_name() -> Seq<u8> {
    seq![67u8, 77u8, 65u8, 80u8]
}

/// Looks for the palette chunk among the `left` chunks from `pos` on. A
/// chunk's name and size must be there in full; its body is what there is
/// of the announced size before the data ends. A name that is not UTF-8
/// ends the search with an error.
pub open spec fn cmap_search(data: Seq<u8>, pos: int, left: int) -> Result<Seq<u8>, AssetError>
    decreases left,
{
    if left <= 0 {
        Err(AssetError::CmapChunkMissing)
    } else if pos + 4 > data.len() {
        Err(AssetError::UnexpectedEof)
    } else if !valid_utf8(data.subrange(pos, pos + 4)) {
        Err(AssetError::Utf8)
    } else if pos + 8 > data.len() {
        Err(AssetError::UnexpectedEof)
    } else {
        let size = be_u32_value(data.subrange(pos + 4, pos + 8));
        let body_end = min_int(pos + 8 + size, data.len() as int);
        if data.subrange(pos, pos + 4) == cmap_name() {
            Ok(data.subrange(pos + 8, body_end))
        } else {
            cmap_search(data, body_end, left - 1)
        }
    }
}

/// The palette chunk of a level file, or why it cannot be had.
pub open spec fn level_cmap(data: Seq<u8>) -> Result<Seq<u8>, AssetError> {
    cmap_search(data, FIRST_CHUNK_POS as int, CHUNKS_SEARCHED as int)
}

/// The colour that three palette bytes give: black is transparent, every
/// other colour opaque.
pub open spec fn cmap_color(r: u8, g: u8, b: u8) -> Rgba {
    Rgba { r, g, b, a: if r == 0 && g == 0 && b == 0 { 0 } else { 255 } }
}

/// The colours of a palette chunk body, one per three bytes.
pub open spec fn cmap_palette(body: Seq<u8>) -> Seq<Rgba> {
    Seq::new(
        (body.len() / 3) as nat,
        |i: int| cmap_color(body[3 * i], body[3 * i + 1], body[3 * i + 2]),
    )
}

/// Finds the body of the palette chunk in the contents of a level file.
pub fn find_cmap_chunk(data: &[u8]) -> (r: Result<Vec<u8>, AssetError>)
    ensures
        match (r, level_cmap(data@)) {
            (Ok(body), Ok(spec_body)) => body@ == spec_body,
            (Err(e), Err(spec_e)) => e == spec_e,
            _ => false,
        },
{
    let mut pos: usize = FIRST_CHUNK_POS;
    let mut chunk_idx: usize = 0;
    while chunk_idx < CHUNKS_SEARCHED
        invariant
            chunk_idx <= CHUNKS_SEARCHED,
            level_cmap(data@) == cmap_search(
                data@,
                pos as int,
                (CHUNKS_SEARCHED - chunk_idx) as int,
            ),
            pos <= data@.len() || chunk_idx == 0,
        decreases CHUNKS_SEARCHED - chunk_idx,
    {
        if pos > data.len() || data.len() - pos < 4 {
            return Err(AssetError::UnexpectedEof);
        }
        let mut id: Vec<u8> = Vec::new();
        let mut j: usize = 0;
        while j < 4
            invariant
                j <= 4,
                pos + 4 <= data.len(),
                id@ == data@.subrange(pos as int, pos + j),
            decreases 4 - j,
        {
            id.push(data[pos + j]);
            j += 1;
            assert(id@ =~= data@.subrange(pos as int, pos + j));
        }
        let is_cmap = id[0] == 67u8 && id[1] == 77u8 && id[2] == 65u8 && id[3] == 80u8;
        assert(is_cmap == (id@ == cmap_name())) by {
            if is_cmap {
                assert(id@ =~= cmap_name());
            }
        }
        if string_from_utf8(id).is_none() {
            return Err(AssetError::Utf8);
        }
        if data.len() - pos < 8 {
            return Err(AssetError::UnexpectedEof);
        }
        let size_bytes = vstd::slice::slice_subrange(data, pos + 4, pos + 8);
        let chunk_size = read_u32_be(size_bytes);
        let available: usize = data.len() - (pos + 8);
        let body_len: usize = if (chunk_size as u64) < (available as u64) {
            chunk_size as usize
        } else {
            available
        };
        let body_end: usize = pos + 8 + body_len;
        assert(body_end == min_int(
            pos + 8 + be_u32_value(data@.subrange(pos + 4, pos + 8)),
            data@.len() as int,
        ));
        if is_cmap {
            let mut body: Vec<u8> = Vec::new();
            let mut k: usize = pos + 8;
            while k < body_end
                invariant
                    pos + 8 <= k <= body_end <= data@.len(),
                    body@ == data@.subrange(pos + 8, k as int),
                decreases body_end - k,
            {
                body.push(data[k]);
                k += 1;
                assert(body@ =~= data@.subrange(pos + 8, k as int));
            }
            return Ok(body);
        }
        pos = body_end;
        chunk_idx += 1;
    }
    Err(AssetError::CmapChunkMissing)
}

/// The colours of a palette chunk body, three bytes per colour; black is
/// made transparent, every other colour opaque.
pub fn palette_from_cmap(body: &[u8]) -> (palette: Vec<Rgba>)
    requires
        body@.len() % 3 == 0,
    ensures
        palette@ == cmap_palette(body@),
{
    let mut palette: Vec<Rgba> = Vec::new();
    let mut i: usize = 0;
    while i < body.len() / 3
        invariant
            body@.len() % 3 == 0,
            i <= body@.len() / 3,
            palette@.len() == i,
            forall|k: int| 0 <= k < i ==> #[trigger] palette@[k] == cmap_palette(body@)[k],
        decreases body@.len() / 3 - i,
    {
        let r = body[3 * i];
        let g = body[3 * i + 1];
        let b = body[3 * i + 2];
        let alpha: u8 = if r == 0u8 && g == 0u8 && b == 0u8 {
            0
        } else {
            255
        };
        palette.push(Rgba { r, g, b, a: alpha });
        i += 1;
    }
    assert(palette@ =~= cmap_palette(body@));
    palette
}

/// Reads the colour palette out of the contents of a level file: the body
/// of its `CMAP` chunk, turned into colours by [`palette_from_cmap`]. The
/// palette body must hold whole colours.
pub fn extract_color_palette(data: &[u8]) -> (r: Result<Vec<Rgba>, AssetError>)
    requires
        level_cmap(data@) matches Ok(body) ==> body.len() % 3 == 0,
    ensures
        match (r, level_cmap(data@)) {
            (Ok(palette), Ok(body)) => palette@ == cmap_palette(body),
            (Err(e), Err(spec_e)) => e == spec_e,
            _ => false,
        },
{
    match find_cmap_chunk(data) {
        Ok(body) => Ok(palette_from_cmap(body.as_slice())),
        Err(e) => Err(e),
    }
}

proof fn lemma_cmap_search_from(d1: Seq<u8>, d2: Seq<u8>, pos: int, left: int)
    requires
        d1.len() == d2.len(),
        forall|i: int| FIRST_CHUNK_POS <= i < d1.len() ==> d1[i] == d2[i],
        pos >= FIRST_CHUNK_POS,
    ensures
        cmap_search(d1, pos, left) == cmap_search(d2, pos, left),
    decreases left,
{
    if left > 0 && pos + 8 <= d1.len() {
        assert(d1.subrange(pos, pos + 4) =~= d2.subrange(pos, pos + 4));
        assert(d1.subrange(pos + 4, pos + 8) =~= d2.subrange(pos + 4, pos + 8));
        let size = be_u32_value(d1.subrange(pos + 4, pos + 8));
        let body_end = min_int(pos + 8 + size, d1.len() as int);
        assert(d1.subrange(pos + 8, body_end) =~= d2.subrange(pos + 8, body_end));
        lemma_cmap_search_from(d1, d2, body_end, left - 1);
    } else if left > 0 && pos + 4 <= d1.len() {
        assert(d1.subrange(pos, pos + 4) =~= d2.subrange(pos, pos + 4));
    }
}

/// The palette does not depend on the first 12 bytes of a level file: files
/// that differ only there give the same palette, or the same error.
pub proof fn lemma_palette_ignores_file_header(d1: Seq<u8>, d2: Seq<u8>)
    requires
        d1.len() == d2.len(),
        forall|i: int| FIRST_CHUNK_POS <= i < d1.len() ==> d1[i] == d2[i],
    ensures
        level_cmap(d1) == level_cmap(d2),
{
    lemma_cmap_search_from(d1, d2, FIRST_CHUNK_POS as int, CHUNKS_SEARCHED as int);
}

/// What a palette chunk body gives, in terms of its bytes: one colour per
/// three bytes, red, green and blue taken in that order; a colour is
/// transparent (alpha 0) exactly when its three bytes are all 0, and fully
/// opaque (alpha 255) otherwise.
pub proof fn lemma_palette_colours(body: Seq<u8>)
    ensures
        cmap_palette(body).len() == body.len() / 3,
        forall|i: int|
            0 <= i < body.len() / 3 ==> {
                &&& (#[trigger] cmap_palette(body)[i]).r == body[3 * i]
                &&& cmap_palette(body)[i].g == body[3 * i + 1]
                &&& cmap_palette(body)[i].b == body[3 * i + 2]
                &&& (cmap_palette(body)[i].a == 0 <==> body[3 * i] == 0 && body[3 * i + 1] == 0
                    && body[3 * i + 2] == 0)
                &&& (cmap_palette(body)[i].a == 0 || cmap_palette(body)[i].a == 255)
            },
{
}

/// A level file whose first chunk, at byte 12, is named `CMAP` gives that
/// chunk's body as its palette chunk: as many bytes from byte 20 on as the
/// big-endian size in bytes 16 to 19 says, or what there is of them.
pub proof fn lemma_first_chunk_cmap(data: Seq<u8>)
    requires
        data.len() >= 20,
        data[12] == 67 && data[13] == 77 && data[14] == 65 && data[15] == 80,
    ensures
        ({
            let size = 16777216 * data[16] + 65536 * data[17] + 256 * data[18] + data[19];
            let end = if 20 + size <= data.len() {
                20 + size
            } else {
                data.len() as int
            };
            level_cmap(data) == Ok::<Seq<u8>, AssetError>(data.subrange(20, end))
        }),
{
    let name = data.subrange(12, 16);
    assert(name =~= cmap_name());
    reveal_with_fuel(vstd::utf8::valid_utf8, 5);
    assert(valid_utf8(name));
}

/// A chunk with another name that is valid UTF-8 is passed over: the
/// search goes on right after its body (as far as the data reaches), with
/// one chunk fewer left to look at.
pub proof fn lemma_other_chunk_passed_over(data: Seq<u8>, pos: int, left: int)
    requires
        0 <= pos,
        pos + 8 <= data.len(),
        left > 0,
        valid_utf8(data.subrange(pos, pos + 4)),
        !(data[pos] == 67 && data[pos + 1] == 77 && data[pos + 2] == 65 && data[pos + 3] == 80),
    ensures
        ({
            let size = 16777216 * data[pos + 4] + 65536 * data[pos + 5] + 256 * data[pos + 6]
                + data[pos + 7];
            let next = if pos + 8 + size <= data.len() {
                pos + 8 + size
            } else {
                data.len() as int
            };
            cmap_search(data, pos, left) == cmap_search(data, next, left - 1)
        }),
{
    if data.subrange(pos, pos + 4) == cmap_name() {
        assert(data.subrange(pos, pos + 4)[0] == data[pos]);
        assert(data.subrange(pos, pos + 4)[1] == data[pos + 1]);
        assert(data.subrange(pos, pos + 4)[2] == data[pos + 2]);
        assert(data.subrange(pos, pos + 4)[3] == data[pos + 3]);
    }
}

/// The search ends with an error where the data ends before a chunk's name
/// and size are complete, and once six chunks have been passed over.
pub proof fn lemma_cmap_search_limits(data: Seq<u8>, pos: int)
    ensures
        data.len() < 16 ==> level_cmap(data) == Err::<Seq<u8>, AssetError>(
            AssetError::UnexpectedEof,
        ),
        cmap_search(data, pos, 0) == Err::<Seq<u8>, AssetError>(AssetError::CmapChunkMissing),
        level_cmap(data) == cmap_search(data, 12, 6),
{
}

} // verus!
