//! The `.SPR` sprite file format.
//!
//! A sprite record is four little-endian 16-bit words (two numbers whose
//! meaning is not known for certain, then width and height) followed by
//! run-length encoded palette indices: a 0 byte and a count stand for that
//! many 0 indices, any other byte for itself. The indices fill the image
//! row by row; pixels left over stay transparent black.

use vstd::prelude::*;
use crate::parser::codec::{le_u16_value, le_u32_value, read_u16_le, read_u32_le};
use crate::parser::fil::min_int;
use crate::parser::types::{AssetError, Rgba, SpriteBuffer, SpriteImage, channel};

verus! {

/// The pixel runs that a sprite body encodes: a 0 byte followed by a count
/// gives that many 0 indices, any other byte gives itself. `None` when the
/// body ends right after a 0 byte, where a count is missing.
pub open spec fn pixel_runs(s: Seq<u8>) -> Option<Seq<Seq<u8>>>
    decreases s.len(),
{
    if s.len() == 0 {
        Some(Seq::empty())
    } else if s[0] == 0 {
        if s.len() < 2 {
            None
        } else {
            match pixel_runs(s.subrange(2, s.len() as int)) {
                Some(rest) => Some(seq![Seq::new(s[1] as nat, |i: int| 0u8)] + rest),
                None => None,
            }
        }
    } else {
        match pixel_runs(s.subrange(1, s.len() as int)) {
            Some(rest) => Some(seq![seq![s[0]]] + rest),
            None => None,
        }
    }
}

/// The runs one after another.
pub open spec fn concat_runs(runs: Seq<Seq<u8>>) -> Seq<u8>
    decreases runs.len(),
{
    if runs.len() == 0 {
        Seq::empty()
    } else {
        concat_runs(runs.drop_last()) + runs.last()
    }
}

/// The contents of each vector.
pub open spec fn runs_view(runs: Seq<Vec<u8>>) -> Seq<Seq<u8>> {
    runs.map_values(|v: Vec<u8>| v@)
}

/// Puts the pixel runs one after another.
pub fn flatten_pixel_vector(raw_pixels: Vec<Vec<u8>>) -> (flat: Vec<u8>)
    ensures
        flat@ == concat_runs(runs_view(raw_pixels@)),
{
    let ghost runs = runs_view(raw_pixels@);
    let mut acc: Vec<u8> = Vec::new();
    let mut i: usize = 0;
    while i < raw_pixels.len()
        invariant
            runs == runs_view(raw_pixels@),
            i <= raw_pixels@.len(),
            acc@ == concat_runs(runs.take(i as int)),
        decreases raw_pixels@.len() - i,
    {
        let bytes = &raw_pixels[i];
        let ghost before = acc@;
        let mut j: usize = 0;
        while j < bytes.len()
            invariant
                j <= bytes@.len(),
                acc@ == before + bytes@.take(j as int),
            decreases bytes@.len() - j,
        {
            acc.push(bytes[j]);
            j += 1;
            assert(acc@ =~= before + bytes@.take(j as int));
        }
        assert(bytes@.take(j as int) =~= bytes@);
        assert(runs.take(i + 1).drop_last() =~= runs.take(i as int));
        assert(runs[i as int] == bytes@);
        i += 1;
    }
    assert(runs.take(i as int) =~= runs);
    acc
}

/// Splits a sprite body into its pixel runs.
fn decode_pixel_runs(body: &[u8]) -> (r: Option<Vec<Vec<u8>>>)
    ensures
        match (r, pixel_runs(body@)) {
            (Some(runs), Some(spec_runs)) => runs_view(runs@) == spec_runs,
            (None, None) => true,
            _ => false,
        },
{
    let mut runs: Vec<Vec<u8>> = Vec::new();
    let mut pos: usize = 0;
    assert(body@.subrange(0, body@.len() as int) =~= body@);
    assert(runs_view(runs@) =~= Seq::<Seq<u8>>::empty());
    assert forall|rest: Seq<Seq<u8>>| Seq::<Seq<u8>>::empty() + rest =~= rest by {}
    while pos < body.len()
        invariant
            pos <= body@.len(),
            match pixel_runs(body@.subrange(pos as int, body@.len() as int)) {
                Some(rest) => pixel_runs(body@) == Some(runs_view(runs@) + rest),
                None => pixel_runs(body@) is None,
            },
        decreases body@.len() - pos,
    {
        let ghost s = body@.subrange(pos as int, body@.len() as int);
        let ghost old_runs = runs_view(runs@);
        let byte = body[pos];
        if byte == 0 {
            if body.len() - pos < 2 {
                return None;
            }
            let count = body[pos + 1];
            let mut zeros: Vec<u8> = Vec::new();
            while zeros.len() < count as usize
                invariant
                    zeros@.len() <= count,
                    forall|k: int| 0 <= k < zeros@.len() ==> zeros@[k] == 0u8,
                decreases count - zeros@.len(),
            {
                zeros.push(0u8);
            }
            assert(zeros@ =~= Seq::new(count as nat, |i: int| 0u8));
            assert(s.subrange(2, s.len() as int) =~= body@.subrange(pos + 2, body@.len() as int));
            runs.push(zeros);
            assert(runs_view(runs@) =~= old_runs.push(Seq::new(count as nat, |i: int| 0u8)));
            pos = pos + 2;
            assert forall|rest: Seq<Seq<u8>>|
                old_runs + (seq![Seq::new(count as nat, |i: int| 0u8)] + rest) =~= runs_view(runs@)
                    + rest by {}
        } else {
            let mut single: Vec<u8> = Vec::new();
            single.push(byte);
            assert(s.subrange(1, s.len() as int) =~= body@.subrange(pos + 1, body@.len() as int));
            runs.push(single);
            assert(runs_view(runs@) =~= old_runs.push(seq![byte]));
            pos = pos + 1;
            assert forall|rest: Seq<Seq<u8>>|
                old_runs + (seq![seq![byte]] + rest) =~= runs_view(runs@) + rest by {}
        }
    }
    assert(body@.subrange(pos as int, body@.len() as int) =~= Seq::<u8>::empty());
    assert(runs_view(runs@) + Seq::<Seq<u8>>::empty() =~= runs_view(runs@));
    Some(runs)
}

/// Header word `k` of a sprite record: 0 and 1 are the two grouping
/// numbers, 2 the width, 3 the height.
pub open spec fn sprite_word(buffer: Seq<u8>, k: int) -> u16 {
    le_u16_value(buffer.subrange(2 * k, 2 * k + 2)) as u16
}

/// The palette indices that a sprite record encodes, or `None` when the
/// record is cut short (in its header, or right after a 0 byte).
pub open spec fn sprite_codes(buffer: Seq<u8>) -> Option<Seq<u8>> {
    if buffer.len() < 8 {
        None
    } else {
        match pixel_runs(buffer.subrange(8, buffer.len() as int)) {
            Some(runs) => Some(concat_runs(runs)),
            None => None,
        }
    }
}

/// The bytes of a `w` by `h` image drawn from palette indices: pixel `p`
/// gets the colour that index `p` names; pixels without an index stay 0.
pub open spec fn sprite_pixels(codes: Seq<u8>, w: int, h: int, palette: Seq<Rgba>) -> Seq<u8> {
    Seq::new(
        (4 * (w * h)) as nat,
        |i: int|
            if i / 4 < codes.len() {
                channel(palette[codes[i / 4] as int], i % 4)
            } else {
                0u8
            },
    )
}

/// Every index that lands on one of `npix` pixels names one of `palette_len`
/// colours.
pub open spec fn codes_in_palette(codes: Seq<u8>, npix: int, palette_len: int) -> bool {
    forall|p: int| 0 <= p < npix && p < codes.len() ==> #[trigger] codes[p] < palette_len
}

/// Drawing the sprite a record encodes cannot fail: every index that lands
/// on a pixel names a colour of the palette, and the image fits in memory.
pub open spec fn sprite_drawable(buffer: Seq<u8>, palette_len: int) -> bool {
    match sprite_codes(buffer) {
        Some(codes) => {
            let w = sprite_word(buffer, 2) as int;
            let h = sprite_word(buffer, 3) as int;
            &&& 4 * (w * h) <= usize::MAX
            &&& codes_in_palette(codes, w * h, palette_len)
        },
        None => true,
    }
}

/// The sprite a record encodes: its header numbers, and its image drawn
/// with the given palette.
pub open spec fn sprite_parse(buffer: Seq<u8>, palette: Seq<Rgba>) -> Option<
    (u16, u16, u16, u16, u32, u32, Seq<u8>),
> {
    match sprite_codes(buffer) {
        Some(codes) => {
            let w = sprite_word(buffer, 2);
            let h = sprite_word(buffer, 3);
            Some(
                (
                    sprite_word(buffer, 0),
                    sprite_word(buffer, 1),
                    w,
                    h,
                    w as u32,
                    h as u32,
                    sprite_pixels(codes, w as int, h as int, palette),
                ),
            )
        },
        None => None,
    }
}

fn read_word(buffer: &[u8], k: usize) -> (v: u16)
    requires
        k < 4,
        buffer@.len() >= 8,
    ensures
        v == sprite_word(buffer@, k as int),
{
    let bytes = vstd::slice::slice_subrange(buffer, 2 * k, 2 * k + 2);
    read_u16_le(bytes)
}

fn draw_pixels(codes: &Vec<u8>, width: u16, height: u16, palette: &[Rgba]) -> (data: Vec<u8>)
    requires
        4 * (width * height) <= usize::MAX,
        forall|p: int|
            0 <= p < width * height && p < codes@.len() ==> #[trigger] codes@[p] < palette@.len(),
    ensures
        data@ == sprite_pixels(codes@, width as int, height as int, palette@),
{
    assert(width * height <= 4 * (width * height));
    let npix: usize = width as usize * height as usize;
    let ghost target = sprite_pixels(codes@, width as int, height as int, palette@);
    let mut data: Vec<u8> = Vec::new();
    let mut p: usize = 0;
    while p < npix
        invariant
            npix == width * height,
            4 * npix <= usize::MAX,
            target == sprite_pixels(codes@, width as int, height as int, palette@),
            p <= npix,
            data@.len() == 4 * p,
            forall|p2: int|
                0 <= p2 < npix && p2 < codes@.len() ==> #[trigger] codes@[p2] < palette@.len(),
            forall|i: int| 0 <= i < 4 * p ==> data@[i] == target[i],
        decreases npix - p,
    {
        let ghost base = 4 * p as int;
        assert(base / 4 == p && (base + 1) / 4 == p && (base + 2) / 4 == p && (base + 3) / 4 == p);
        assert(base % 4 == 0 && (base + 1) % 4 == 1 && (base + 2) % 4 == 2 && (base + 3) % 4 == 3);
        if p < codes.len() {
            let color = palette[codes[p] as usize];
            data.push(color.r);
            data.push(color.g);
            data.push(color.b);
            data.push(color.a);
        } else {
            data.push(0u8);
            data.push(0u8);
            data.push(0u8);
            data.push(0u8);
        }
        p += 1;
    }
    assert(data@ =~= target);
    data
}

/// Parses one sprite record and draws its image with `palette`. `None` when
/// the record is cut short: in its header, or right after a 0 byte that
/// should start a run of zeros.
pub fn parse_sprite(buffer: &[u8], palette: &[Rgba]) -> (r: Option<SpriteImage>)
    requires
        sprite_drawable(buffer@, palette@.len() as int),
    ensures
        match (r, sprite_parse(buffer@, palette@)) {
            (Some(sprite), Some(v)) => sprite@ == v && sprite.image_buf.wf(),
            (None, None) => true,
            _ => false,
        },
{
    if buffer.len() < 8 {
        return None;
    }
    let chunk1 = read_word(buffer, 0);
    let chunk2 = read_word(buffer, 1);
    let width = read_word(buffer, 2);
    let height = read_word(buffer, 3);
    let body = vstd::slice::slice_subrange(buffer, 8, buffer.len());
    let raw_pixels = match decode_pixel_runs(body) {
        Some(runs) => runs,
        None => return None,
    };
    let codes = flatten_pixel_vector(raw_pixels);
    let data = draw_pixels(&codes, width, height, palette);
    Some(
        SpriteImage {
            chunk1,
            chunk2,
            width,
            height,
            image_buf: SpriteBuffer { width: width as u32, height: height as u32, data },
        },
    )
}

/// The number of entries that the first word of a sprite file announces.
pub open spec fn sprite_entry_count(data: Seq<u8>) -> int {
    le_u32_value(data.subrange(0, 4))
}

/// The first word and the entry positions that it announces are all there.
pub open spec fn sprite_header_complete(data: Seq<u8>) -> bool {
    data.len() >= 4 && data.len() >= 4 + 4 * sprite_entry_count(data)
}

/// The position given for entry `j`.
pub open spec fn raw_sprite_offset(data: Seq<u8>, j: int) -> u32 {
    le_u32_value(data.subrange(4 + 4 * j, 8 + 4 * j)) as u32
}

/// The positions of the first `m` entries that are not 0 (a 0 position
/// means the entry has no sprite), in order.
pub open spec fn nonzero_offsets(data: Seq<u8>, m: int) -> Seq<u32>
    decreases m,
{
    if m <= 0 {
        Seq::empty()
    } else if raw_sprite_offset(data, m - 1) > 0 {
        nonzero_offsets(data, m - 1).push(raw_sprite_offset(data, m - 1))
    } else {
        nonzero_offsets(data, m - 1)
    }
}

/// The positions that the sprite file is read from: one 0 more than there
/// are entries, then the non-zero entry positions.
pub open spec fn sprite_offsets(data: Seq<u8>) -> Seq<u32> {
    Seq::new((sprite_entry_count(data) + 1) as nat, |i: int| 0u32) + nonzero_offsets(
        data,
        sprite_entry_count(data),
    )
}

/// How many bytes are read for position `idx`: up to the next position, or
/// the size of the whole file for the last one.
pub open spec fn entry_length(offsets: Seq<u32>, idx: int, file_len: int) -> int {
    if idx < offsets.len() - 1 {
        offsets[idx + 1] - offsets[idx]
    } else {
        file_len
    }
}

/// The bytes a read of `length` bytes at `offset` delivers: fewer, or none,
/// where the file ends.
pub open spec fn entry_bytes(data: Seq<u8>, offset: int, length: int) -> Seq<u8> {
    let start = min_int(offset, data.len() as int);
    data.subrange(start, min_int(offset + length, data.len() as int))
}

/// No position comes before the one in front of it.
pub open spec fn offsets_ordered(offsets: Seq<u32>) -> bool {
    forall|idx: int| 0 <= idx < offsets.len() - 1 ==> #[trigger] offsets[idx] <= offsets[idx + 1]
}

/// The sprites read from the first `k` positions: a position is skipped
/// when nothing is to be read there or its record is cut short.
pub open spec fn sprite_file_images(
    data: Seq<u8>,
    offsets: Seq<u32>,
    palette: Seq<Rgba>,
    k: int,
) -> Seq<(u16, u16, u16, u16, u32, u32, Seq<u8>)>
    decreases k,
{
    if k <= 0 {
        Seq::empty()
    } else {
        let prev = sprite_file_images(data, offsets, palette, k - 1);
        let length = entry_length(offsets, k - 1, data.len() as int);
        if length < 1 {
            prev
        } else {
            match sprite_parse(entry_bytes(data, offsets[k - 1] as int, length), palette) {
                Some(v) => prev.push(v),
                None => prev,
            }
        }
    }
}

/// Reading the sprite file cannot fail: its positions are in order and
/// every record that is read can be drawn with a palette of `palette_len`
/// colours.
pub open spec fn sprite_file_drawable(data: Seq<u8>, palette_len: int) -> bool {
    sprite_header_complete(data) ==> {
        let offsets = sprite_offsets(data);
        &&& offsets_ordered(offsets)
        &&& forall|idx: int|
            0 <= idx < offsets.len() && #[trigger] entry_length(offsets, idx, data.len() as int)
                >= 1 ==> sprite_drawable(
                entry_bytes(data, offsets[idx] as int, entry_length(offsets, idx, data.len() as int)),
                palette_len,
            )
    }
}

/// The sprites as their views.
pub open spec fn sprites_view(sprites: Seq<SpriteImage>) -> Seq<(u16, u16, u16, u16, u32, u32, Seq<u8>)> {
    sprites.map_values(|s: SpriteImage| s@)
}

fn read_sprite_offsets(data: &[u8]) -> (r: Option<Vec<u32>>)
    ensures
        r is Some <==> sprite_header_complete(data@),
        r matches Some(offsets) ==> offsets@ == sprite_offsets(data@),
{
    if data.len() < 4 {
        return None;
    }
    let num_entries = read_u32_le(data);
    assert(num_entries == sprite_entry_count(data@));
    let mut offsets: Vec<u32> = Vec::new();
    let mut z: u64 = 0;
    while z <= num_entries as u64
        invariant
            z <= num_entries + 1,
            offsets@ =~= Seq::new(z as nat, |i: int| 0u32),
        decreases num_entries + 1 - z,
    {
        offsets.push(0u32);
        z += 1;
    }
    let ghost zeros = offsets@;
    let mut j: u32 = 0;
    let mut pos: usize = 4;
    while j < num_entries
        invariant
            num_entries == sprite_entry_count(data@),
            j <= num_entries,
            pos == 4 + 4 * j,
            pos <= data.len(),
            zeros == Seq::new((num_entries + 1) as nat, |i: int| 0u32),
            offsets@ == zeros + nonzero_offsets(data@, j as int),
        decreases num_entries - j,
    {
        if data.len() - pos < 4 {
            return None;
        }
        let word = vstd::slice::slice_subrange(data, pos, pos + 4);
        let offset = read_u32_le(word);
        assert(word@ =~= data@.subrange(4 + 4 * j, 8 + 4 * j));
        assert(offset == raw_sprite_offset(data@, j as int));
        if offset > 0 {
            offsets.push(offset);
        }
        assert(offsets@ =~= zeros + nonzero_offsets(data@, j + 1));
        pos = pos + 4;
        j += 1;
    }
    Some(offsets)
}

fn entry_slice<'a>(data: &'a [u8], offset: u32, length: u64) -> (bytes: &'a [u8])
    ensures
        bytes@ == entry_bytes(data@, offset as int, length as int),
{
    let start: usize = if (offset as u64) < (data.len() as u64) {
        offset as usize
    } else {
        data.len()
    };
    let available: usize = data.len() - start;
    let end: usize = if length < available as u64 {
        start + length as usize
    } else {
        data.len()
    };
    vstd::slice::slice_subrange(data, start, end)
}

/// Reads all sprites of a sprite file, drawing them with `palette`. The
/// file starts with the number of entries and a position per entry; one
/// more 0 than there are entries, followed by the non-zero positions, are
/// the places a sprite record is read from, each up to the next place (the
/// last one as far as the whole file's size reaches). Places with nothing
/// to read and records that are cut short are skipped. Fails only when the
/// header is incomplete.
pub fn parse_sprite_file(data: &[u8], palette: &[Rgba]) -> (r: Result<Vec<SpriteImage>, AssetError>)
    requires
        sprite_file_drawable(data@, palette@.len() as int),
    ensures
        match r {
            Ok(sprites) => {
                &&& sprite_header_complete(data@)
                &&& sprites_view(sprites@) == sprite_file_images(
                    data@,
                    sprite_offsets(data@),
                    palette@,
                    sprite_offsets(data@).len() as int,
                )
            },
            Err(e) => !sprite_header_complete(data@) && e == AssetError::UnexpectedEof,
        },
{
    let offsets = match read_sprite_offsets(data) {
        Some(o) => o,
        None => return Err(AssetError::UnexpectedEof),
    };
    let ghost offs = offsets@;
    let mut sprites: Vec<SpriteImage> = Vec::new();
    let mut idx: usize = 0;
    while idx < offsets.len()
        invariant
            offs == offsets@,
            offs == sprite_offsets(data@),
            sprite_header_complete(data@),
            sprite_file_drawable(data@, palette@.len() as int),
            idx <= offs.len(),
            sprites_view(sprites@) == sprite_file_images(data@, offs, palette@, idx as int),
        decreases offs.len() - idx,
    {
        let offset = offsets[idx];
        let length: u64 = if idx < offsets.len() - 1 {
            assert(offs[idx as int] <= offs[idx + 1]);
            (offsets[idx + 1] - offset) as u64
        } else {
            data.len() as u64
        };
        assert(length == entry_length(offs, idx as int, data@.len() as int));
        if length >= 1 {
            let bytes = entry_slice(data, offset, length);
            match parse_sprite(bytes, palette) {
                Some(sprite) => {
                    sprites.push(sprite);
                    assert(sprites_view(sprites@) =~= sprite_file_images(
                        data@,
                        offs,
                        palette@,
                        idx as int,
                    ).push(sprite@));
                },
                None => {},
            }
        }
        idx += 1;
    }
    Ok(sprites)
}

/// Tells whether the sprite a record encodes can be drawn with a palette
/// of `palette_len` colours (see [`sprite_drawable`]); a record that is cut
/// short counts as drawable, as it is skipped.
pub fn sprite_is_drawable(buffer: &[u8], palette_len: usize) -> (ok: bool)
    ensures
        ok == sprite_drawable(buffer@, palette_len as int),
{
    if buffer.len() < 8 {
        return true;
    }
    let body = vstd::slice::slice_subrange(buffer, 8, buffer.len());
    let runs = match decode_pixel_runs(body) {
        Some(runs) => runs,
        None => return true,
    };
    let codes = flatten_pixel_vector(runs);
    assert(sprite_codes(buffer@) == Some(codes@));
    let width = read_word(buffer, 2) as u64;
    let height = read_word(buffer, 3) as u64;
    assert(width * height <= 65535 * 65535) by (nonlinear_arith)
        requires
            width <= 65535,
            height <= 65535,
    ;
    let npix: u64 = width * height;
    if 4 * npix > usize::MAX as u64 {
        assert(sprite_word(buffer@, 2) as int * sprite_word(buffer@, 3) as int == npix);
        return false;
    }
    let mut p: u64 = 0;
    while p < npix && p < codes.len() as u64
        invariant
            npix == width * height,
            sprite_codes(buffer@) == Some(codes@),
            width == sprite_word(buffer@, 2),
            height == sprite_word(buffer@, 3),
            4 * npix <= usize::MAX,
            p <= npix,
            forall|q: int| 0 <= q < p && q < codes@.len() ==> #[trigger] codes@[q] < palette_len,
        decreases npix - p,
    {
        if codes[p as usize] as usize >= palette_len {
            assert(sprite_word(buffer@, 2) as int * sprite_word(buffer@, 3) as int == npix);
            assert(codes@[p as int] >= palette_len);
            let ghost w = sprite_word(buffer@, 2) as int;
            let ghost h = sprite_word(buffer@, 3) as int;
            assert(0 <= p < w * h && p < codes@.len());
            assert(!codes_in_palette(codes@, w * h, palette_len as int));
            return false;
        }
        p += 1;
    }
    true
}

/// Tells whether a sprite file can be read with a palette of `palette_len`
/// colours (see [`sprite_file_drawable`]).
pub fn sprite_file_is_drawable(data: &[u8], palette_len: usize) -> (ok: bool)
    ensures
        ok == sprite_file_drawable(data@, palette_len as int),
{
    let offsets = match read_sprite_offsets(data) {
        Some(o) => o,
        None => return true,
    };
    let ghost offs = offsets@;
    let mut i: usize = 0;
    while i < offsets.len()
        invariant
            offs == offsets@,
            offs == sprite_offsets(data@),
            sprite_header_complete(data@),
            i <= offs.len(),
            forall|k: int| 0 <= k < i && k < offs.len() - 1 ==> #[trigger] offs[k] <= offs[k + 1],
        decreases offs.len() - i,
    {
        if i + 1 < offsets.len() && offsets[i] > offsets[i + 1] {
            assert(!offsets_ordered(offs));
            return false;
        }
        i += 1;
    }
    assert(offsets_ordered(offs));
    let mut idx: usize = 0;
    while idx < offsets.len()
        invariant
            offs == offsets@,
            offs == sprite_offsets(data@),
            sprite_header_complete(data@),
            offsets_ordered(offs),
            idx <= offs.len(),
            forall|k: int|
                0 <= k < idx && #[trigger] entry_length(offs, k, data@.len() as int) >= 1
                    ==> sprite_drawable(
                    entry_bytes(data@, offs[k] as int, entry_length(offs, k, data@.len() as int)),
                    palette_len as int,
                ),
        decreases offs.len() - idx,
    {
        let offset = offsets[idx];
        let length: u64 = if idx < offsets.len() - 1 {
            assert(offs[idx as int] <= offs[idx + 1]);
            (offsets[idx + 1] - offset) as u64
        } else {
            data.len() as u64
        };
        assert(length == entry_length(offs, idx as int, data@.len() as int));
        if length >= 1 {
            let bytes = entry_slice(data, offset, length);
            if !sprite_is_drawable(bytes, palette_len) {
                return false;
            }
        }
        idx += 1;
    }
    true
}

/// The sprites of a file that share the same two grouping numbers, by
/// their indices in the file.
#[derive(Debug, PartialEq, Eq)]
pub struct SpriteGroup {
    pub chunk1: u16,
    pub chunk2: u16,
    pub frames: Vec<usize>,
}

/// The grouping numbers of each sprite.
pub open spec fn sprite_keys(sprites: Seq<SpriteImage>) -> Seq<(u16, u16)> {
    sprites.map_values(|s: SpriteImage| (s.chunk1, s.chunk2))
}

/// The indices below `m` whose grouping numbers are `key`, in order.
pub open spec fn indices_with_key(keys: Seq<(u16, u16)>, key: (u16, u16), m: int) -> Seq<usize>
    decreases m,
{
    if m <= 0 {
        Seq::empty()
    } else if keys[m - 1] == key {
        indices_with_key(keys, key, m - 1).push((m - 1) as usize)
    } else {
        indices_with_key(keys, key, m - 1)
    }
}

/// The grouping numbers of each group.
pub open spec fn group_keys(groups: Seq<SpriteGroup>) -> Seq<(u16, u16)> {
    groups.map_values(|g: SpriteGroup| (g.chunk1, g.chunk2))
}

proof fn lemma_no_indices_with_absent_key(keys: Seq<(u16, u16)>, key: (u16, u16), m: int)
    requires
        forall|j: int| 0 <= j < m ==> keys[j] != key,
    ensures
        indices_with_key(keys, key, m) == Seq::<usize>::empty(),
    decreases m,
{
    if m > 0 {
        lemma_no_indices_with_absent_key(keys, key, m - 1);
    }
}

/// `groups` sorts the sprites with grouping numbers `keys` by those
/// numbers: no two groups have the same numbers, each group holds exactly
/// the indices of the sprites with its numbers, in ascending order, every
/// sprite's numbers have a group, and every group's numbers occur.
pub open spec fn is_grouping(keys: Seq<(u16, u16)>, groups: Seq<SpriteGroup>) -> bool {
    &&& forall|a: int, b: int|
        0 <= a < b < groups.len() ==> #[trigger] group_keys(groups)[a]
            != #[trigger] group_keys(groups)[b]
    &&& forall|g: int|
        0 <= g < groups.len() ==> #[trigger] groups[g].frames@ == indices_with_key(
            keys,
            group_keys(groups)[g],
            keys.len() as int,
        )
    &&& forall|i: int| 0 <= i < keys.len() ==> group_keys(groups).contains(#[trigger] keys[i])
    &&& forall|g: int| 0 <= g < groups.len() ==> keys.contains(#[trigger] group_keys(groups)[g])
}

/// Sorts the sprites of a file into groups by their two grouping numbers:
/// one group per pair of numbers that occurs, in the order of first
/// occurrence, each with the indices of its sprites in ascending order.
pub fn group_sprites(sprites: &[SpriteImage]) -> (groups: Vec<SpriteGroup>)
    ensures
        is_grouping(sprite_keys(sprites@), groups@),
        forall|g: int| 0 <= g < groups@.len() ==> (#[trigger] groups@[g]).frames@.len() > 0,
        forall|a: int, b: int|
            0 <= a < b < groups@.len() ==> (#[trigger] groups@[a]).frames@[0] < (
            #[trigger] groups@[b]).frames@[0],
{
    let ghost keys = sprite_keys(sprites@);
    let mut groups: Vec<SpriteGroup> = Vec::new();
    let mut i: usize = 0;
    while i < sprites.len()
        invariant
            keys == sprite_keys(sprites@),
            i <= sprites@.len(),
            forall|a: int, b: int|
                0 <= a < b < groups@.len() ==> #[trigger] group_keys(groups@)[a]
                    != #[trigger] group_keys(groups@)[b],
            forall|g: int|
                0 <= g < groups@.len() ==> #[trigger] groups@[g].frames@ == indices_with_key(
                    keys,
                    group_keys(groups@)[g],
                    i as int,
                ),
            forall|j: int| 0 <= j < i ==> group_keys(groups@).contains(#[trigger] keys[j]),
            forall|g: int|
                0 <= g < groups@.len() ==> keys.take(i as int).contains(
                    #[trigger] group_keys(groups@)[g],
                ),
            forall|g: int|
                0 <= g < groups@.len() ==> (#[trigger] groups@[g]).frames@.len() > 0
                    && groups@[g].frames@[0] < i,
            forall|a: int, b: int|
                0 <= a < b < groups@.len() ==> (#[trigger] groups@[a]).frames@[0] < (
                #[trigger] groups@[b]).frames@[0],
        decreases sprites@.len() - i,
    {
        let chunk1 = sprites[i].chunk1;
        let chunk2 = sprites[i].chunk2;
        let ghost key = (chunk1, chunk2);
        assert(keys[i as int] == key);
        let ghost old_groups = groups@;
        let mut found: usize = groups.len();
        let mut g: usize = 0;
        while g < groups.len()
            invariant
                key == (chunk1, chunk2),
                g <= groups@.len(),
                found <= groups@.len(),
                found < groups@.len() ==> group_keys(groups@)[found as int] == key,
                found == groups@.len() ==> forall|h: int|
                    0 <= h < g ==> #[trigger] group_keys(groups@)[h] != key,
            decreases groups@.len() - g,
        {
            assert(group_keys(groups@)[g as int] == (groups@[g as int].chunk1, groups@[g as int].chunk2));
            if found == groups.len() && groups[g].chunk1 == chunk1 && groups[g].chunk2 == chunk2 {
                found = g;
            }
            g += 1;
        }
        assert(found == groups@.len() ==> !group_keys(groups@).contains(key));
        if found < groups.len() {
            groups[found].frames.push(i);
        } else {
            let mut frames: Vec<usize> = Vec::new();
            frames.push(i);
            groups.push(SpriteGroup { chunk1, chunk2, frames });
        }
        proof {
            assert forall|g2: int| 0 <= g2 < groups@.len() implies (#[trigger] groups@[g2]).frames@.len()
                > 0 && groups@[g2].frames@[0] < i + 1 by {
                if g2 < old_groups.len() {
                    assert(old_groups[g2].frames@.len() > 0);
                    assert(groups@[g2].frames@[0] == old_groups[g2].frames@[0]);
                }
            }
            assert forall|a: int, b: int| 0 <= a < b < groups@.len() implies (
            #[trigger] groups@[a]).frames@[0] < (#[trigger] groups@[b]).frames@[0] by {
                assert(old_groups[a].frames@.len() > 0);
                assert(groups@[a].frames@[0] == old_groups[a].frames@[0]);
                if b < old_groups.len() {
                    assert(old_groups[b].frames@.len() > 0);
                    assert(groups@[b].frames@[0] == old_groups[b].frames@[0]);
                }
            }
            if found < old_groups.len() {
                assert(group_keys(groups@) =~= group_keys(old_groups));
            } else {
                assert(group_keys(groups@) =~= group_keys(old_groups).push(key));
            }
            assert(keys.take(i + 1) =~= keys.take(i as int).push(key));
            assert forall|g2: int| 0 <= g2 < groups@.len() implies #[trigger] groups@[g2].frames@
                == indices_with_key(keys, group_keys(groups@)[g2], i + 1) by {
                assert(group_keys(groups@)[g2] == (groups@[g2].chunk1, groups@[g2].chunk2));
                if g2 < old_groups.len() {
                    assert(group_keys(old_groups)[g2] == (old_groups[g2].chunk1, old_groups[g2].chunk2));
                    assert(group_keys(groups@)[g2] == group_keys(old_groups)[g2]);
                    assert(old_groups[g2].frames@ == indices_with_key(keys, group_keys(old_groups)[g2], i as int));
                    if g2 == found {
                        assert(groups@[g2].frames@ =~= old_groups[g2].frames@.push(i));
                    } else {
                        if found < old_groups.len() {
                            assert(group_keys(old_groups)[found as int] == key);
                        }
                        assert(group_keys(old_groups)[g2] != key);
                        assert(groups@[g2] == old_groups[g2]);
                    }
                } else {
                    assert forall|j: int| 0 <= j < i implies keys[j] != key by {
                        if keys[j] == key {
                            assert(group_keys(old_groups).contains(keys[j]));
                        }
                    }
                    lemma_no_indices_with_absent_key(keys, key, i as int);
                    assert(groups@[g2].frames@ =~= seq![i]);
                }
            }
            assert forall|j: int| 0 <= j < i + 1 implies group_keys(groups@).contains(
                #[trigger] keys[j],
            ) by {
                if j < i {
                    let w = choose|w: int|
                        0 <= w < group_keys(old_groups).len() && group_keys(old_groups)[w]
                            == keys[j];
                    assert(group_keys(groups@)[w] == keys[j]);
                } else {
                    if found < old_groups.len() {
                        assert(group_keys(groups@)[found as int] == key);
                    } else {
                        assert(group_keys(groups@)[old_groups.len() as int] == key);
                    }
                }
            }
            assert forall|g2: int| 0 <= g2 < groups@.len() implies keys.take(i + 1).contains(
                #[trigger] group_keys(groups@)[g2],
            ) by {
                if g2 < old_groups.len() {
                    assert(group_keys(groups@)[g2] == group_keys(old_groups)[g2]);
                    let w = choose|w: int|
                        0 <= w < i && keys.take(i as int)[w] == group_keys(old_groups)[g2];
                    assert(keys.take(i + 1)[w] == group_keys(groups@)[g2]);
                } else {
                    assert(keys.take(i + 1)[i as int] == key);
                }
            }
        }
        i += 1;
    }
    proof {
        assert(keys.take(i as int) =~= keys);
    }
    groups
}

/// How many frames the groups hold together.
pub open spec fn total_frames(groups: Seq<SpriteGroup>) -> int
    decreases groups.len(),
{
    if groups.len() == 0 {
        0
    } else {
        total_frames(groups.drop_last()) + groups.last().frames@.len()
    }
}

/// How many of the first `m` indices have one of the grouping numbers in
/// `gkeys`, counted once per occurrence in `gkeys`.
spec fn key_total(keys: Seq<(u16, u16)>, gkeys: Seq<(u16, u16)>, m: int) -> int
    decreases gkeys.len(),
{
    if gkeys.len() == 0 {
        0
    } else {
        key_total(keys, gkeys.drop_last(), m) + indices_with_key(keys, gkeys.last(), m).len()
    }
}

/// How often `key` occurs in `gkeys`.
spec fn key_count(gkeys: Seq<(u16, u16)>, key: (u16, u16)) -> int
    decreases gkeys.len(),
{
    if gkeys.len() == 0 {
        0
    } else {
        key_count(gkeys.drop_last(), key) + if gkeys.last() == key {
            1int
        } else {
            0
        }
    }
}

proof fn lemma_key_total_step(keys: Seq<(u16, u16)>, gkeys: Seq<(u16, u16)>, m: int)
    requires
        0 <= m,
    ensures
        key_total(keys, gkeys, m + 1) == key_total(keys, gkeys, m) + key_count(gkeys, keys[m]),
        key_total(keys, gkeys, 0) == 0,
    decreases gkeys.len(),
{
    if gkeys.len() > 0 {
        lemma_key_total_step(keys, gkeys.drop_last(), m);
    }
}

proof fn lemma_key_count_absent(gkeys: Seq<(u16, u16)>, key: (u16, u16))
    requires
        !gkeys.contains(key),
    ensures
        key_count(gkeys, key) == 0,
    decreases gkeys.len(),
{
    if gkeys.len() > 0 {
        assert(gkeys.last() == gkeys[gkeys.len() - 1]);
        assert forall|w: int| 0 <= w < gkeys.drop_last().len() implies gkeys.drop_last()[w] != key by {
            assert(gkeys.drop_last()[w] == gkeys[w]);
        }
        lemma_key_count_absent(gkeys.drop_last(), key);
    }
}

proof fn lemma_key_count_once(gkeys: Seq<(u16, u16)>, key: (u16, u16))
    requires
        gkeys.contains(key),
        forall|a: int, b: int| 0 <= a < b < gkeys.len() ==> #[trigger] gkeys[a] != #[trigger] gkeys[b],
    ensures
        key_count(gkeys, key) == 1,
    decreases gkeys.len(),
{
    let rest = gkeys.drop_last();
    let last = gkeys.len() - 1;
    assert forall|a: int, b: int| 0 <= a < b < rest.len() implies #[trigger] rest[a]
        != #[trigger] rest[b] by {
        assert(rest[a] == gkeys[a] && rest[b] == gkeys[b]);
    }
    if gkeys[last] == key {
        assert forall|w: int| 0 <= w < rest.len() implies rest[w] != key by {
            assert(rest[w] == gkeys[w]);
        }
        lemma_key_count_absent(rest, key);
    } else {
        let w = choose|w: int| 0 <= w < gkeys.len() && gkeys[w] == key;
        assert(rest[w] == key);
        lemma_key_count_once(rest, key);
    }
}

proof fn lemma_key_total_all(keys: Seq<(u16, u16)>, gkeys: Seq<(u16, u16)>, m: int)
    requires
        0 <= m <= keys.len(),
        forall|a: int, b: int| 0 <= a < b < gkeys.len() ==> #[trigger] gkeys[a] != #[trigger] gkeys[b],
        forall|i: int| 0 <= i < keys.len() ==> gkeys.contains(#[trigger] keys[i]),
    ensures
        key_total(keys, gkeys, m) == m,
    decreases m,
{
    lemma_key_total_step(keys, gkeys, 0);
    if m > 0 {
        lemma_key_total_all(keys, gkeys, m - 1);
        lemma_key_total_step(keys, gkeys, m - 1);
        assert(gkeys.contains(keys[m - 1]));
        lemma_key_count_once(gkeys, keys[m - 1]);
    }
}

proof fn lemma_total_frames_as_key_total(keys: Seq<(u16, u16)>, groups: Seq<SpriteGroup>)
    requires
        forall|g: int|
            0 <= g < groups.len() ==> #[trigger] groups[g].frames@ == indices_with_key(
                keys,
                group_keys(groups)[g],
                keys.len() as int,
            ),
    ensures
        total_frames(groups) == key_total(keys, group_keys(groups), keys.len() as int),
    decreases groups.len(),
{
    if groups.len() > 0 {
        let rest = groups.drop_last();
        assert(group_keys(rest) =~= group_keys(groups).drop_last());
        assert forall|g: int| 0 <= g < rest.len() implies #[trigger] rest[g].frames@
            == indices_with_key(keys, group_keys(rest)[g], keys.len() as int) by {
            assert(rest[g] == groups[g]);
        }
        lemma_total_frames_as_key_total(keys, rest);
        assert(groups.last() == groups[groups.len() - 1]);
        assert(group_keys(groups).last() == group_keys(groups)[groups.len() - 1]);
    }
}

/// Grouping sprites loses none and counts none twice: the groups hold as
/// many frames together as there are sprites.
pub proof fn lemma_grouping_counts_every_sprite_once(
    keys: Seq<(u16, u16)>,
    groups: Seq<SpriteGroup>,
)
    requires
        is_grouping(keys, groups),
    ensures
        total_frames(groups) == keys.len(),
{
    lemma_total_frames_as_key_total(keys, groups);
    lemma_key_total_all(keys, group_keys(groups), keys.len() as int);
}

/// What drawing a sprite record gives, in terms of its bytes: the header
/// numbers are the little-endian words at bytes 0, 2, 4 and 6, the image is
/// `width` by `height` with 4 bytes per pixel, every pixel that has an index
/// takes all four channels of the colour the index names (a transparent
/// colour stays transparent), and every other pixel is 0.
pub proof fn lemma_sprite_pixels_take_palette_colours(buffer: Seq<u8>, palette: Seq<Rgba>)
    requires
        sprite_codes(buffer) is Some,
    ensures
        sprite_parse(buffer, palette) is Some,
        ({
            let codes = sprite_codes(buffer)->0;
            let v = sprite_parse(buffer, palette)->0;
            let w = buffer[4] + 256 * buffer[5];
            let h = buffer[6] + 256 * buffer[7];
            &&& v.0 == buffer[0] + 256 * buffer[1]
            &&& v.1 == buffer[2] + 256 * buffer[3]
            &&& v.2 == w && v.4 == w
            &&& v.3 == h && v.5 == h
            &&& v.6.len() == 4 * (w * h)
            &&& forall|p: int|
                0 <= p < w * h && p < codes.len() ==> {
                    &&& v.6[4 * p] == palette[#[trigger] codes[p] as int].r
                    &&& v.6[4 * p + 1] == palette[codes[p] as int].g
                    &&& v.6[4 * p + 2] == palette[codes[p] as int].b
                    &&& v.6[4 * p + 3] == palette[codes[p] as int].a
                }
            &&& forall|p: int, c: int|
                0 <= p < w * h && codes.len() <= p && 0 <= c < 4 ==> #[trigger] v.6[4 * p + c] == 0
        }),
{
    let codes = sprite_codes(buffer)->0;
    let v = sprite_parse(buffer, palette)->0;
    let w = sprite_word(buffer, 2) as int;
    let h = sprite_word(buffer, 3) as int;
    assert(w == buffer[4] + 256 * buffer[5]);
    assert(h == buffer[6] + 256 * buffer[7]);
    assert forall|p: int| 0 <= p < w * h && p < codes.len() implies {
        &&& v.6[4 * p] == palette[#[trigger] codes[p] as int].r
        &&& v.6[4 * p + 1] == palette[codes[p] as int].g
        &&& v.6[4 * p + 2] == palette[codes[p] as int].b
        &&& v.6[4 * p + 3] == palette[codes[p] as int].a
    } by {
        assert((4 * p) / 4 == p && (4 * p + 1) / 4 == p && (4 * p + 2) / 4 == p && (4 * p + 3) / 4
            == p);
        assert((4 * p) % 4 == 0 && (4 * p + 1) % 4 == 1 && (4 * p + 2) % 4 == 2 && (4 * p + 3) % 4
            == 3);
    }
    assert forall|p: int, c: int|
        0 <= p < w * h && codes.len() <= p && 0 <= c < 4 implies #[trigger] v.6[4 * p + c] == 0 by {
        assert((4 * p + c) / 4 == p);
    }
}

/// The palette indices a sprite body stands for, in terms of its bytes: an
/// empty body gives none, a 0 byte followed by `n` gives `n` zeros before
/// what the rest gives, any other byte gives itself before what the rest
/// gives, and a body that ends right after a 0 byte gives nothing at all.
pub proof fn lemma_pixel_runs_decode(rest: Seq<u8>, n: u8, b: u8)
    requires
        b != 0,
    ensures
        pixel_runs(Seq::<u8>::empty()) == Some(Seq::<Seq<u8>>::empty()),
        concat_runs(Seq::<Seq<u8>>::empty()) == Seq::<u8>::empty(),
        pixel_runs(seq![0u8]) is None,
        pixel_runs(seq![0u8, n] + rest) is Some <==> pixel_runs(rest) is Some,
        pixel_runs(seq![b] + rest) is Some <==> pixel_runs(rest) is Some,
        pixel_runs(rest) is Some ==> concat_runs(pixel_runs(seq![0u8, n] + rest)->0) == Seq::new(
            n as nat,
            |i: int| 0u8,
        ) + concat_runs(pixel_runs(rest)->0),
        pixel_runs(rest) is Some ==> concat_runs(pixel_runs(seq![b] + rest)->0) == seq![b]
            + concat_runs(pixel_runs(rest)->0),
{
    let s0 = seq![0u8, n] + rest;
    let s1 = seq![b] + rest;
    assert(s0.subrange(2, s0.len() as int) =~= rest);
    assert(s1.subrange(1, s1.len() as int) =~= rest);
    if pixel_runs(rest) is Some {
        let runs = pixel_runs(rest)->0;
        lemma_concat_runs_prepend(Seq::new(n as nat, |i: int| 0u8), runs);
        lemma_concat_runs_prepend(seq![b], runs);
    }
}

proof fn lemma_concat_runs_prepend(first: Seq<u8>, runs: Seq<Seq<u8>>)
    ensures
        concat_runs(seq![first] + runs) == first + concat_runs(runs),
    decreases runs.len(),
{
    if runs.len() == 0 {
        assert(seq![first] + runs =~= seq![first]);
        assert((seq![first]).drop_last() =~= Seq::<Seq<u8>>::empty());
        assert(concat_runs(seq![first]) == concat_runs(Seq::<Seq<u8>>::empty()) + first);
        assert(Seq::<u8>::empty() + first =~= first);
        assert(first + Seq::<u8>::empty() =~= first);
    } else {
        lemma_concat_runs_prepend(first, runs.drop_last());
        assert((seq![first] + runs).drop_last() =~= seq![first] + runs.drop_last());
        assert((seq![first] + runs).last() == runs.last());
        assert(concat_runs(seq![first] + runs) == concat_runs((seq![first] + runs).drop_last())
            + (seq![first] + runs).last());
        assert(first + concat_runs(runs.drop_last()) + runs.last() =~= first + (concat_runs(
            runs.drop_last(),
        ) + runs.last()));
    }
}

/// Position `j` of the entry table, from its four little-endian bytes.
pub open spec fn table_word(data: Seq<u8>, j: int) -> int {
    data[4 + 4 * j] + 256 * data[5 + 4 * j] + 65536 * data[6 + 4 * j] + 16777216 * data[7 + 4 * j]
}

proof fn lemma_nonzero_offsets_shape(data: Seq<u8>, m: int)
    requires
        0 <= m,
        data.len() >= 4 + 4 * m,
    ensures
        nonzero_offsets(data, m).len() <= m,
        forall|i: int|
            0 <= i < nonzero_offsets(data, m).len() ==> #[trigger] nonzero_offsets(data, m)[i] != 0,
        (forall|j: int| 0 <= j < m ==> #[trigger] table_word(data, j) != 0) ==> {
            &&& nonzero_offsets(data, m).len() == m
            &&& forall|j: int|
                0 <= j < m ==> #[trigger] nonzero_offsets(data, m)[j] == table_word(data, j)
        },
    decreases m,
{
    if m > 0 {
        lemma_nonzero_offsets_shape(data, m - 1);
        let prev = nonzero_offsets(data, m - 1);
        assert(raw_sprite_offset(data, m - 1) == table_word(data, m - 1));
        if raw_sprite_offset(data, m - 1) > 0 {
            assert forall|i: int| 0 <= i < prev.push(raw_sprite_offset(data, m - 1)).len() implies #[trigger] prev.push(
                raw_sprite_offset(data, m - 1),
            )[i] != 0 by {
                if i < prev.len() {
                    assert(prev.push(raw_sprite_offset(data, m - 1))[i] == prev[i]);
                }
            }
        }
        if forall|j: int| 0 <= j < m ==> #[trigger] table_word(data, j) != 0 {
            assert(table_word(data, m - 1) != 0);
            assert forall|j: int| 0 <= j < m - 1 implies #[trigger] table_word(data, j) != 0 by {
                assert(table_word(data, j) != 0);
            }
            assert forall|j: int| 0 <= j < m implies #[trigger] nonzero_offsets(data, m)[j]
                == table_word(data, j) by {
                if j < m - 1 {
                    assert(nonzero_offsets(data, m)[j] == prev[j]);
                }
            }
        }
    }
}

/// The places a sprite file is read from, in terms of its header: first
/// one 0 more than the number of entries the first word announces, then
/// the entry positions that are not 0, in the table's order; when no
/// position is 0 these are all of them.
pub proof fn lemma_sprite_offsets_shape(data: Seq<u8>)
    requires
        sprite_header_complete(data),
    ensures
        ({
            let n = data[0] + 256 * data[1] + 65536 * data[2] + 16777216 * data[3];
            let offsets = sprite_offsets(data);
            &&& n + 1 <= offsets.len() <= 2 * n + 1
            &&& forall|i: int| 0 <= i <= n ==> #[trigger] offsets[i] == 0
            &&& forall|i: int| n < i < offsets.len() ==> #[trigger] offsets[i] != 0
            &&& (forall|j: int| 0 <= j < n ==> #[trigger] table_word(data, j) != 0) ==> {
                &&& offsets.len() == 2 * n + 1
                &&& forall|j: int| 0 <= j < n ==> #[trigger] offsets[n + 1 + j] == table_word(data, j)
            }
        }),
{
    let n = sprite_entry_count(data);
    assert(n == data[0] + 256 * data[1] + 65536 * data[2] + 16777216 * data[3]);
    lemma_nonzero_offsets_shape(data, n);
    let offsets = sprite_offsets(data);
    let nz = nonzero_offsets(data, n);
    assert forall|i: int| n < i < offsets.len() implies #[trigger] offsets[i] != 0 by {
        assert(offsets[i] == nz[i - n - 1]);
    }
    if forall|j: int| 0 <= j < n ==> #[trigger] table_word(data, j) != 0 {
        assert forall|j: int| 0 <= j < n implies #[trigger] offsets[n + 1 + j] == table_word(data, j) by {
            assert(offsets[n + 1 + j] == nz[j]);
        }
    }
}

/// What is read for each place: the bytes up to the next place, or, for
/// the last place, up to the end of the file.
pub proof fn lemma_sprite_reads(data: Seq<u8>, offsets: Seq<u32>, idx: int)
    requires
        0 <= idx < offsets.len(),
        offsets_ordered(offsets),
    ensures
        idx < offsets.len() - 1 && offsets[idx + 1] <= data.len() ==> entry_bytes(
            data,
            offsets[idx] as int,
            entry_length(offsets, idx, data.len() as int),
        ) == data.subrange(offsets[idx] as int, offsets[idx + 1] as int),
        idx == offsets.len() - 1 && offsets[idx] <= data.len() ==> entry_bytes(
            data,
            offsets[idx] as int,
            entry_length(offsets, idx, data.len() as int),
        ) == data.subrange(offsets[idx] as int, data.len() as int),
        idx < offsets.len() - 1 ==> entry_length(offsets, idx, data.len() as int) >= 0,
{
    if idx < offsets.len() - 1 {
        assert(offsets[idx] <= offsets[idx + 1]);
    }
}

/// Where a sprite's palette indices come from: nothing when the record is
/// shorter than its 8-byte header, else the bytes after the header decoded
/// as runs.
pub proof fn lemma_sprite_codes_after_header(buffer: Seq<u8>)
    ensures
        buffer.len() < 8 ==> sprite_codes(buffer) is None,
        buffer.len() >= 8 ==> (sprite_codes(buffer) is Some <==> pixel_runs(buffer.skip(8)) is Some),
        buffer.len() >= 8 && pixel_runs(buffer.skip(8)) is Some ==> sprite_codes(buffer)->0
            == concat_runs(pixel_runs(buffer.skip(8))->0),
{
    if buffer.len() >= 8 {
        assert(buffer.skip(8) =~= buffer.subrange(8, buffer.len() as int));
    }
}

/// The sprites a file gives, one place after the other: a place adds the
/// sprite its record encodes when it reads at least one byte (it comes
/// before the next place, or, being the last, the file is not empty) and
/// the record is not cut short; otherwise it adds nothing. The record is
/// the bytes up to the next place, or to the end of the file for the last.
pub proof fn lemma_sprites_place_by_place(
    data: Seq<u8>,
    offsets: Seq<u32>,
    palette: Seq<Rgba>,
    k: int,
)
    requires
        0 <= k < offsets.len(),
        offsets_ordered(offsets),
        forall|i: int| 0 <= i < offsets.len() ==> #[trigger] offsets[i] <= data.len(),
    ensures
        sprite_file_images(data, offsets, palette, 0) == Seq::<
            (u16, u16, u16, u16, u32, u32, Seq<u8>),
        >::empty(),
        ({
            let last = k == offsets.len() - 1;
            let reads = if last {
                data.len() >= 1
            } else {
                offsets[k] < offsets[k + 1]
            };
            let record = if last {
                data.subrange(offsets[k] as int, data.len() as int)
            } else {
                data.subrange(offsets[k] as int, offsets[k + 1] as int)
            };
            let prev = sprite_file_images(data, offsets, palette, k);
            sprite_file_images(data, offsets, palette, k + 1) == if reads && sprite_parse(
                record,
                palette,
            ) is Some {
                prev.push(sprite_parse(record, palette)->0)
            } else {
                prev
            }
        }),
{
    lemma_sprite_reads(data, offsets, k);
    assert(offsets[k] <= data.len());
    if k < offsets.len() - 1 {
        assert(offsets[k + 1] <= data.len());
        assert(offsets[k] <= offsets[k + 1]);
    }
}

proof fn lemma_indices_with_key_members(keys: Seq<(u16, u16)>, key: (u16, u16), m: int)
    requires
        0 <= m <= keys.len(),
        keys.len() <= usize::MAX,
    ensures
        forall|i: int|
            0 <= i < m ==> (indices_with_key(keys, key, m).contains(i as usize) <==> keys[i] == key),
        forall|t: int|
            0 <= t < indices_with_key(keys, key, m).len() ==> #[trigger] indices_with_key(
                keys,
                key,
                m,
            )[t] < m,
        forall|a: int, b: int|
            0 <= a < b < indices_with_key(keys, key, m).len() ==> #[trigger] indices_with_key(
                keys,
                key,
                m,
            )[a] < #[trigger] indices_with_key(keys, key, m)[b],
    decreases m,
{
    if m > 0 {
        lemma_indices_with_key_members(keys, key, m - 1);
        let prev = indices_with_key(keys, key, m - 1);
        let cur = indices_with_key(keys, key, m);
        if keys[m - 1] == key {
            assert(cur == prev.push((m - 1) as usize));
            assert forall|a: int, b: int| 0 <= a < b < cur.len() implies #[trigger] cur[a]
                < #[trigger] cur[b] by {
                if b < prev.len() {
                    assert(cur[a] == prev[a] && cur[b] == prev[b]);
                } else {
                    assert(cur[a] == prev[a]);
                }
            }
            assert forall|t: int| 0 <= t < cur.len() implies #[trigger] cur[t] < m by {
                if t < prev.len() {
                    assert(cur[t] == prev[t]);
                }
            }
        }
        assert forall|i: int| 0 <= i < m implies (cur.contains(i as usize) <==> keys[i] == key) by {
            if keys[m - 1] == key {
                assert(cur == prev.push((m - 1) as usize));
                if i < m - 1 {
                    if cur.contains(i as usize) {
                        let w = choose|w: int| 0 <= w < cur.len() && cur[w] == i as usize;
                        if w < prev.len() {
                            assert(prev[w] == cur[w]);
                        }
                    }
                    if prev.contains(i as usize) {
                        let w = choose|w: int| 0 <= w < prev.len() && prev[w] == i as usize;
                        assert(cur[w] == prev[w]);
                    }
                } else {
                    assert(cur[prev.len() as int] == (m - 1) as usize);
                }
            } else {
                if i == m - 1 && cur.contains(i as usize) {
                    let w = choose|w: int| 0 <= w < cur.len() && cur[w] == i as usize;
                    assert(cur[w] < m - 1);
                }
            }
        }
    }
}

/// A group holds index `i` exactly when sprite `i` has the group's two
/// grouping numbers, and its indices ascend: every sprite is listed in the
/// group of its own numbers and in no other.
pub proof fn lemma_group_members(sprites: Seq<SpriteImage>, groups: Seq<SpriteGroup>)
    requires
        is_grouping(sprite_keys(sprites), groups),
        sprites.len() <= usize::MAX,
    ensures
        forall|g: int, i: int|
            0 <= g < groups.len() && 0 <= i < sprites.len() ==> ((#[trigger] groups[g]).frames@.contains(
                i as usize,
            ) <==> (#[trigger] sprites[i]).chunk1 == groups[g].chunk1 && sprites[i].chunk2
                == groups[g].chunk2),
        forall|g: int, a: int, b: int|
            0 <= g < groups.len() && 0 <= a < b < groups[g].frames@.len() ==> #[trigger] groups[g].frames@[a]
                < #[trigger] groups[g].frames@[b],
        forall|g: int, t: int|
            0 <= g < groups.len() && 0 <= t < groups[g].frames@.len() ==> #[trigger] groups[g].frames@[t]
                < sprites.len(),
{
    let keys = sprite_keys(sprites);
    assert forall|g: int, i: int|
        0 <= g < groups.len() && 0 <= i < sprites.len() implies ((#[trigger] groups[g]).frames@.contains(
        i as usize,
    ) <==> (#[trigger] sprites[i]).chunk1 == groups[g].chunk1 && sprites[i].chunk2
        == groups[g].chunk2) by {
        lemma_indices_with_key_members(keys, group_keys(groups)[g], keys.len() as int);
        assert(groups[g].frames@ == indices_with_key(keys, group_keys(groups)[g], keys.len() as int));
        assert(group_keys(groups)[g] == (groups[g].chunk1, groups[g].chunk2));
        assert(keys[i] == (sprites[i].chunk1, sprites[i].chunk2));
    }
    assert forall|g: int, a: int, b: int|
        0 <= g < groups.len() && 0 <= a < b < groups[g].frames@.len() implies #[trigger] groups[g].frames@[a]
            < #[trigger] groups[g].frames@[b] by {
        lemma_indices_with_key_members(keys, group_keys(groups)[g], keys.len() as int);
        let f = indices_with_key(keys, group_keys(groups)[g], keys.len() as int);
        assert(groups[g].frames@ == f);
        assert(f[a] < f[b]);
    }
    assert forall|g: int, t: int|
        0 <= g < groups.len() && 0 <= t < groups[g].frames@.len() implies #[trigger] groups[g].frames@[t]
            < sprites.len() by {
        lemma_indices_with_key_members(keys, group_keys(groups)[g], keys.len() as int);
        let f = indices_with_key(keys, group_keys(groups)[g], keys.len() as int);
        assert(groups[g].frames@ == f);
        assert(f[t] < keys.len());
    }
}

} // verus!
