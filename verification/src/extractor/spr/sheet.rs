//! Laying the frames of an animation out side by side in one sheet.
//!
//! Every frame gets a slot as wide as the widest frame; the sheet is as high
//! as the highest frame. A frame stands on the bottom of its slot, its
//! horizontal offset taken left from the slot's middle. Slots and alignment
//! go by the frames' width and height; what is copied is each frame's image
//! at the image's own size. A frame whose image would stick out of the sheet
//! is left out.

use vstd::prelude::*;
use image::GenericImage;
use crate::extractor::types::{AssetError, SpriteBuffer, SpriteImage};

verus! {

/// The width of the widest sprite (0 for none).
pub open spec fn largest_width(s: Seq<SpriteImage>) -> int
    decreases s.len(),
{
    if s.len() == 0 {
        0
    } else if largest_width(s.drop_last()) < s.last().width {
        s.last().width as int
    } else {
        largest_width(s.drop_last())
    }
}

/// The height of the highest sprite (0 for none).
pub open spec fn largest_height(s: Seq<SpriteImage>) -> int
    decreases s.len(),
{
    if s.len() == 0 {
        0
    } else if largest_height(s.drop_last()) < s.last().height {
        s.last().height as int
    } else {
        largest_height(s.drop_last())
    }
}

proof fn lemma_largest_bounds(s: Seq<SpriteImage>)
    ensures
        forall|k: int|
            0 <= k < s.len() ==> (#[trigger] s[k]).width <= largest_width(s) && s[k].height
                <= largest_height(s),
        0 <= largest_width(s) <= u16::MAX,
        0 <= largest_height(s) <= u16::MAX,
    decreases s.len(),
{
    if s.len() > 0 {
        lemma_largest_bounds(s.drop_last());
        assert forall|k: int| 0 <= k < s.len() implies (#[trigger] s[k]).width <= largest_width(s)
            && s[k].height <= largest_height(s) by {
            if k < s.len() - 1 {
                assert(s[k] == s.drop_last()[k]);
            }
        }
    }
}

/// The size of a horizontal offset.
pub open spec fn abs_offset(o: i16) -> int {
    if o < 0 {
        -o
    } else {
        o as int
    }
}

/// The width of the sheet: one slot per sprite.
pub open spec fn sheet_width(s: Seq<SpriteImage>) -> int {
    largest_width(s) * s.len()
}

/// Where the left edge of sprite `k` goes: the middle of its slot, moved
/// left by its horizontal offset.
pub open spec fn sprite_x(s: Seq<SpriteImage>, k: int) -> int {
    k * largest_width(s) + largest_width(s) / 2 - abs_offset(s[k].offset_h)
}

/// Where the top edge of sprite `k` goes: its bottom on the sheet's bottom.
pub open spec fn sprite_y(s: Seq<SpriteImage>, k: int) -> int {
    largest_height(s) - s[k].height
}

/// The bytes of a `dst_w` wide RGBA image after a `src_w` by `src_h` image
/// is copied over it with its top left corner at (`x`, `y`).
pub open spec fn copy_rect(
    dst: Seq<u8>,
    dst_w: int,
    src: Seq<u8>,
    src_w: int,
    src_h: int,
    x: int,
    y: int,
) -> Seq<u8> {
    Seq::new(
        dst.len(),
        |i: int|
            {
                let px = (i / 4) % dst_w;
                let py = (i / 4) / dst_w;
                if x <= px < x + src_w && y <= py < y + src_h {
                    src[4 * ((py - y) * src_w + (px - x)) + i % 4]
                } else {
                    dst[i]
                }
            },
    )
}

/// The sheet after the first `k` sprites have been placed.
pub open spec fn sheet_after(s: Seq<SpriteImage>, k: int) -> Seq<u8>
    decreases k,
{
    let w = sheet_width(s);
    let h = largest_height(s);
    if k <= 0 {
        Seq::new((4 * (w * h)) as nat, |i: int| 0u8)
    } else {
        let prev = sheet_after(s, k - 1);
        let sprite = s[k - 1];
        let x = sprite_x(s, k - 1);
        let y = sprite_y(s, k - 1);
        let image = sprite.image_buf;
        if x + image.width <= w && y + image.height <= h {
            copy_rect(prev, w, image.data@, image.width as int, image.height as int, x, y)
        } else {
            prev
        }
    }
}

/// The sprites can be laid out: each image buffer holds all its pixels, the sheet's
/// size fits its integer types and memory, and no horizontal offset reaches
/// past the left end of the sheet (nor is the one offset whose size has no
/// 16-bit value).
pub open spec fn sheet_layout_ok(s: Seq<SpriteImage>) -> bool {
    &&& s.len() <= u32::MAX
    &&& sheet_width(s) <= u32::MAX
    &&& 4 * (sheet_width(s) * largest_height(s)) <= usize::MAX
    &&& forall|k: int| 0 <= k < s.len() ==> (#[trigger] s[k]).image_buf.wf()
    &&& forall|k: int|
        0 <= k < s.len() ==> (#[trigger] s[k]).offset_h != i16::MIN && abs_offset(s[k].offset_h)
            <= k * largest_width(s) + largest_width(s) / 2
}

/// `image`'s `GenericImage::copy_from`, with both images given by their RGBA
/// bytes: when the sprite fits in the sheet at (`x`, `y`), its pixels
/// replace the sheet's there and the result is `true`; otherwise the sheet
/// stays as it was and the result is `false`.
#[verifier::external_body]
fn copy_into_sheet(
    sheet: &mut Vec<u8>,
    sheet_width: u32,
    sheet_height: u32,
    sprite: &SpriteBuffer,
    x: u32,
    y: u32,
) -> (copied: bool)
    requires
        old(sheet)@.len() == 4 * (sheet_width * sheet_height),
        sprite.wf(),
    ensures
        copied == (x + sprite.width <= sheet_width && y + sprite.height <= sheet_height),
        final(sheet)@ == if copied {
            copy_rect(
                old(sheet)@,
                sheet_width as int,
                sprite.data@,
                sprite.width as int,
                sprite.height as int,
                x as int,
                y as int,
            )
        } else {
            old(sheet)@
        },
{
    let raw = std::mem::take(sheet);
    let mut target = image::RgbaImage::from_raw(sheet_width, sheet_height, raw).unwrap();
    let source = image::ImageBuffer::<image::Rgba<u8>, &[u8]>::from_raw(
        sprite.width,
        sprite.height,
        sprite.data.as_slice(),
    ).unwrap();
    let copied = target.copy_from(&source, x, y).is_ok();
    *sheet = target.into_raw();
    copied
}

fn largest_dimensions(sprites: &Vec<SpriteImage>) -> (dims: (u32, u32))
    ensures
        dims.0 == largest_width(sprites@),
        dims.1 == largest_height(sprites@),
{
    let ghost s = sprites@;
    let n = sprites.len();
    let mut largest_w: u32 = 0;
    let mut largest_h: u32 = 0;
    let mut k: usize = 0;
    while k < n
        invariant
            s == sprites@,
            n == s.len(),
            k <= n,
            largest_w == largest_width(s.take(k as int)),
            largest_h == largest_height(s.take(k as int)),
        decreases n - k,
    {
        assert(s.take(k + 1).drop_last() =~= s.take(k as int));
        if sprites[k].width as u32 > largest_w {
            largest_w = sprites[k].width as u32;
        }
        if sprites[k].height as u32 > largest_h {
            largest_h = sprites[k].height as u32;
        }
        k += 1;
    }
    assert(s.take(n as int) =~= s);
    (largest_w, largest_h)
}

/// Tells whether the sprites can be laid out in a sheet (see
/// [`sheet_layout_ok`]).
pub fn sheet_layout_is_ok(sprites: &Vec<SpriteImage>) -> (ok: bool)
    ensures
        ok == sheet_layout_ok(sprites@),
{
    let ghost s = sprites@;
    let n = sprites.len();
    if n as u64 > u32::MAX as u64 {
        return false;
    }
    let (largest_w, largest_h) = largest_dimensions(sprites);
    proof {
        lemma_largest_bounds(s);
    }
    assert(largest_w as u64 * n as u64 <= 65535 * 4294967295) by (nonlinear_arith)
        requires
            largest_w <= 65535,
            n <= 4294967295,
    ;
    let sheet_w: u64 = largest_w as u64 * n as u64;
    if sheet_w > u32::MAX as u64 {
        return false;
    }
    assert(sheet_w * largest_h <= 4294967295 * 65535) by (nonlinear_arith)
        requires
            sheet_w <= 4294967295,
            largest_h <= 65535,
    ;
    if 4 * (sheet_w * largest_h as u64) > usize::MAX as u64 {
        return false;
    }
    let mut k: usize = 0;
    while k < n
        invariant
            s == sprites@,
            n == s.len(),
            n <= u32::MAX,
            largest_w == largest_width(s),
            largest_w <= 65535,
            k <= n,
            forall|j: int| 0 <= j < k ==> (#[trigger] s[j]).image_buf.wf(),
            forall|j: int|
                0 <= j < k ==> (#[trigger] s[j]).offset_h != i16::MIN && abs_offset(s[j].offset_h)
                    <= j * largest_width(s) + largest_width(s) / 2,
        decreases n - k,
    {
        let sprite = &sprites[k];
        assert(s[k as int] == *sprite);
        let image_w = sprite.image_buf.width;
        let image_h = sprite.image_buf.height;
        assert(image_w * image_h <= 4294967295 * 4294967295) by (nonlinear_arith)
            requires
                image_w <= 4294967295,
                image_h <= 4294967295,
        ;
        let npix: u128 = image_w as u128 * image_h as u128;
        if sprite.image_buf.data.len() as u128 != 4 * npix {
            return false;
        }
        if sprite.offset_h == i16::MIN {
            return false;
        }
        let offset_size: u64 = if sprite.offset_h < 0 {
            (-(sprite.offset_h as i32)) as u64
        } else {
            sprite.offset_h as u64
        };
        assert(k * largest_w <= 4294967295 * 65535) by (nonlinear_arith)
            requires
                k <= 4294967295,
                largest_w <= 65535,
        ;
        if offset_size > k as u64 * largest_w as u64 + (largest_w / 2) as u64 {
            return false;
        }
        k += 1;
    }
    true
}

/// Lays the frames of an animation out side by side in one sheet (see the
/// module's description). Fails when there are no frames.
pub fn make_sprite_sheet(anim_sprites: Vec<SpriteImage>) -> (r: Result<SpriteBuffer, AssetError>)
    requires
        sheet_layout_ok(anim_sprites@),
    ensures
        match r {
            Ok(sheet) => {
                &&& anim_sprites@.len() > 0
                &&& sheet.width == sheet_width(anim_sprites@)
                &&& sheet.height == largest_height(anim_sprites@)
                &&& sheet.data@ == sheet_after(anim_sprites@, anim_sprites@.len() as int)
            },
            Err(e) => anim_sprites@.len() == 0 && e == AssetError::EmptySpriteList,
        },
{
    let ghost s = anim_sprites@;
    let n = anim_sprites.len();
    if n == 0 {
        return Err(AssetError::EmptySpriteList);
    }
    let (largest_w, largest_h) = largest_dimensions(&anim_sprites);
    let sheet_w: u32 = largest_w * (n as u32);
    let sheet_h: u32 = largest_h;
    let total: usize = 4 * (sheet_w as usize * sheet_h as usize);
    let mut data: Vec<u8> = Vec::new();
    while data.len() < total
        invariant
            data@.len() <= total,
            forall|i: int| 0 <= i < data@.len() ==> data@[i] == 0u8,
        decreases total - data@.len(),
    {
        data.push(0u8);
    }
    assert(data@ =~= sheet_after(s, 0));
    let mut idx: usize = 0;
    while idx < n
        invariant
            s == anim_sprites@,
            n == s.len(),
            sheet_layout_ok(s),
            largest_w == largest_width(s),
            sheet_w == sheet_width(s),
            sheet_h == largest_height(s),
            idx <= n,
            data@.len() == 4 * (sheet_w * sheet_h),
            data@ == sheet_after(s, idx as int),
        decreases n - idx,
    {
        let sprite = &anim_sprites[idx];
        assert(s[idx as int] == *sprite);
        assert(sprite.image_buf.wf());
        assert(sprite.height <= largest_height(s)) by {
            lemma_largest_bounds(s);
        }
        assert(sprite.offset_h != i16::MIN && abs_offset(sprite.offset_h) <= idx * largest_width(s)
            + largest_width(s) / 2);
        proof {
            lemma_largest_bounds(s);
            vstd::arithmetic::mul::lemma_mul_inequality(idx + 1, n as int, largest_w as int);
            vstd::arithmetic::mul::lemma_mul_is_commutative(n as int, largest_w as int);
            assert((idx + 1) * largest_w == idx * largest_w + largest_w) by (nonlinear_arith);
        }
        let base_x: u32 = idx as u32 * largest_w;
        let center_x: u32 = base_x + largest_w / 2;
        let offset_size: u32 = if sprite.offset_h < 0 {
            (-(sprite.offset_h as i32)) as u32
        } else {
            sprite.offset_h as u32
        };
        let x: u32 = center_x - offset_size;
        let y: u32 = sheet_h - sprite.height as u32;
        assert(x == sprite_x(s, idx as int) && y == sprite_y(s, idx as int));
        copy_into_sheet(&mut data, sheet_w, sheet_h, &sprite.image_buf, x, y);
        idx += 1;
    }
    Ok(SpriteBuffer { width: sheet_w, height: sheet_h, data })
}

/// Two frames that are laid out alike: the same width and height, the same
/// image, and horizontal offsets of the same size.
pub open spec fn placed_alike(a: SpriteImage, b: SpriteImage) -> bool {
    &&& a.width == b.width
    &&& a.height == b.height
    &&& a.image_buf.width == b.image_buf.width
    &&& a.image_buf.height == b.image_buf.height
    &&& a.image_buf.data@ == b.image_buf.data@
    &&& abs_offset(a.offset_h) == abs_offset(b.offset_h)
}

proof fn lemma_largest_alike(s1: Seq<SpriteImage>, s2: Seq<SpriteImage>)
    requires
        s1.len() == s2.len(),
        forall|k: int| 0 <= k < s1.len() ==> placed_alike(#[trigger] s1[k], s2[k]),
    ensures
        largest_width(s1) == largest_width(s2),
        largest_height(s1) == largest_height(s2),
    decreases s1.len(),
{
    if s1.len() > 0 {
        let (r1, r2) = (s1.drop_last(), s2.drop_last());
        assert forall|k: int| 0 <= k < r1.len() implies placed_alike(#[trigger] r1[k], r2[k]) by {
            assert(r1[k] == s1[k] && r2[k] == s2[k]);
        }
        lemma_largest_alike(r1, r2);
        assert(placed_alike(s1[s1.len() - 1], s2[s2.len() - 1]));
    }
}

proof fn lemma_sheet_after_alike(s1: Seq<SpriteImage>, s2: Seq<SpriteImage>, k: int)
    requires
        s1.len() == s2.len(),
        forall|j: int| 0 <= j < s1.len() ==> placed_alike(#[trigger] s1[j], s2[j]),
        largest_width(s1) == largest_width(s2),
        largest_height(s1) == largest_height(s2),
        k <= s1.len(),
    ensures
        sheet_after(s1, k) == sheet_after(s2, k),
    decreases k,
{
    if k > 0 {
        lemma_sheet_after_alike(s1, s2, k - 1);
        assert(placed_alike(s1[k - 1], s2[k - 1]));
    }
}

/// The sheet does not depend on the frames' vertical offsets, nor on the
/// sign of their horizontal offsets: frames laid out alike give the same
/// sheet, of the same size.
pub proof fn lemma_sheet_ignores_vertical_offset_and_sign(s1: Seq<SpriteImage>, s2: Seq<SpriteImage>)
    requires
        s1.len() == s2.len(),
        forall|k: int| 0 <= k < s1.len() ==> placed_alike(#[trigger] s1[k], s2[k]),
    ensures
        sheet_width(s1) == sheet_width(s2),
        largest_height(s1) == largest_height(s2),
        sheet_after(s1, s1.len() as int) == sheet_after(s2, s2.len() as int),
{
    lemma_largest_alike(s1, s2);
    lemma_sheet_after_alike(s1, s2, s1.len() as int);
}

/// The slots are as wide as the widest frame and the sheet as high as the
/// highest frame: no frame is wider or higher, some frame is exactly that
/// wide and some exactly that high, and with no frames both are 0.
pub proof fn lemma_slots_fit_the_widest_frame(s: Seq<SpriteImage>)
    ensures
        forall|k: int|
            0 <= k < s.len() ==> (#[trigger] s[k]).width <= largest_width(s) && s[k].height
                <= largest_height(s),
        s.len() == 0 ==> largest_width(s) == 0 && largest_height(s) == 0,
        s.len() > 0 ==> exists|k: int| 0 <= k < s.len() && largest_width(s) == (#[trigger] s[k]).width,
        s.len() > 0 ==> exists|k: int|
            0 <= k < s.len() && largest_height(s) == (#[trigger] s[k]).height,
    decreases s.len(),
{
    lemma_largest_bounds(s);
    if s.len() > 0 {
        let r = s.drop_last();
        let last = s.len() - 1;
        lemma_slots_fit_the_widest_frame(r);
        if largest_width(r) < s[last].width {
            assert(largest_width(s) == s[last].width);
        } else {
            if r.len() == 0 {
                assert(largest_width(s) == 0);
                assert(s[last].width == 0);
            } else {
                let k = choose|k: int| 0 <= k < r.len() && largest_width(r) == (#[trigger] r[k]).width;
                assert(s[k] == r[k]);
                assert(largest_width(s) == s[k].width);
            }
        }
        if largest_height(r) < s[last].height {
            assert(largest_height(s) == s[last].height);
        } else {
            if r.len() == 0 {
                assert(s[last].height == 0);
            } else {
                let k = choose|k: int| 0 <= k < r.len() && largest_height(r) == (#[trigger] r[k]).height;
                assert(s[k] == r[k]);
                assert(largest_height(s) == s[k].height);
            }
        }
    }
}

proof fn lemma_pixel_index(row: int, col: int, c: int, w: int)
    requires
        0 <= row,
        0 <= col < w,
        0 <= c < 4,
    ensures
        (4 * (row * w + col) + c) / 4 == row * w + col,
        (4 * (row * w + col) + c) % 4 == c,
        ((4 * (row * w + col) + c) / 4) % w == col,
        ((4 * (row * w + col) + c) / 4) / w == row,
{
    let q = row * w + col;
    vstd::arithmetic::div_mod::lemma_fundamental_div_mod_converse(4 * q + c, 4, q, c);
    assert(q == row * w + col);
    vstd::arithmetic::div_mod::lemma_fundamental_div_mod_converse(q, w, row, col);
}

proof fn lemma_sheet_after_len(s: Seq<SpriteImage>, k: int)
    ensures
        sheet_after(s, k).len() == 4 * (sheet_width(s) * largest_height(s)),
    decreases k,
{
    if k > 0 {
        lemma_sheet_after_len(s, k - 1);
    }
}

/// Where the last frame lands, in terms of the frames: with `LW` the
/// widest frame's width, the sheet is `n * LW` pixels wide; the last frame's
/// image is copied with its top left corner at column
/// `(n - 1) * LW + LW / 2 - |offset_h|` and row `H - height` (`H` the
/// highest frame's height), pixel by pixel, when it fits in the sheet, and
/// nothing outside that rectangle changes; when it does not fit, the sheet
/// is what the frames before it made. The sheet always holds all its
/// pixels. (The last frame's offset must not reach past the sheet's left
/// end, as laying out requires.)
pub proof fn lemma_last_frame_placement(s: Seq<SpriteImage>)
    requires
        s.len() > 0,
        s.last().image_buf.wf(),
        abs_offset(s.last().offset_h) <= (s.len() - 1) * largest_width(s) + largest_width(s) / 2,
    ensures
        ({
            let n = s.len() as int;
            let lw = largest_width(s);
            let w = n * lw;
            let h = largest_height(s);
            let frame = s[n - 1];
            let img = frame.image_buf;
            let x = (n - 1) * lw + lw / 2 - abs_offset(frame.offset_h);
            let y = h - frame.height;
            let fits = x + img.width <= w && y + img.height <= h;
            &&& 0 <= x
            &&& sheet_after(s, n).len() == 4 * (w * h)
            &&& fits ==> forall|i: int, j: int, c: int|
                0 <= i < img.width && 0 <= j < img.height && 0 <= c < 4 ==> #[trigger] sheet_after(
                    s,
                    n,
                )[4 * ((y + j) * w + x + i) + c] == img.data@[4 * (j * img.width + i) + c]
            &&& fits ==> forall|row: int, col: int, c: int|
                0 <= row < h && 0 <= col < w && 0 <= c < 4 && !(x <= col < x + img.width && y
                    <= row < y + img.height) ==> #[trigger] sheet_after(s, n)[4 * (row * w + col)
                    + c] == sheet_after(s, n - 1)[4 * (row * w + col) + c]
            &&& !fits ==> sheet_after(s, n) == sheet_after(s, n - 1)
        }),
{
    let n = s.len() as int;
    let lw = largest_width(s);
    let w = n * lw;
    let h = largest_height(s);
    let frame = s[n - 1];
    let img = frame.image_buf;
    let x = (n - 1) * lw + lw / 2 - abs_offset(frame.offset_h);
    let y = h - frame.height;
    lemma_sheet_after_len(s, n);
    lemma_sheet_after_len(s, n - 1);
    lemma_largest_bounds(s);
    assert(sheet_width(s) == w) by {
        vstd::arithmetic::mul::lemma_mul_is_commutative(n, lw);
    }
    assert(x == sprite_x(s, n - 1) && y == sprite_y(s, n - 1));
    assert(y >= 0);
    assert(s.last() == frame);
    let fits = x + img.width <= w && y + img.height <= h;
    if fits {
        let prev = sheet_after(s, n - 1);
        assert forall|i: int, j: int, c: int|
            0 <= i < img.width && 0 <= j < img.height && 0 <= c < 4 implies #[trigger] sheet_after(
            s,
            n,
        )[4 * ((y + j) * w + x + i) + c] == img.data@[4 * (j * img.width + i) + c] by {
            lemma_pixel_index(y + j, x + i, c, w);
            let t = 4 * ((y + j) * w + x + i) + c;
            assert(t == 4 * ((y + j) * w + (x + i)) + c);
            assert((y + j) * w + (x + i) < w * h) by (nonlinear_arith)
                requires
                    0 <= y + j < h,
                    0 <= x + i < w,
            ;
            assert(4 * (j * img.width + i) + c < 4 * (img.width * img.height)) by (nonlinear_arith)
                requires
                    0 <= i < img.width,
                    0 <= j < img.height,
                    0 <= c < 4,
            ;
            assert(sheet_after(s, n)[t] == copy_rect(
                prev,
                w,
                img.data@,
                img.width as int,
                img.height as int,
                x,
                y,
            )[t]);
        }
        assert forall|row: int, col: int, c: int|
            0 <= row < h && 0 <= col < w && 0 <= c < 4 && !(x <= col < x + img.width && y <= row < y
                + img.height) implies #[trigger] sheet_after(s, n)[4 * (row * w + col) + c]
            == sheet_after(s, n - 1)[4 * (row * w + col) + c] by {
            lemma_pixel_index(row, col, c, w);
            assert(row * w + col < w * h) by (nonlinear_arith)
                requires
                    0 <= row < h,
                    0 <= col < w,
            ;
        }
    }
}

/// Before any frame is placed the sheet is `n * LW` by `H` pixels of
/// transparent black (every byte 0), `LW` and `H` being the widest frame's
/// width and the highest frame's height.
pub proof fn lemma_sheet_starts_blank(s: Seq<SpriteImage>)
    ensures
        sheet_after(s, 0).len() == 4 * ((s.len() * largest_width(s)) * largest_height(s)),
        forall|t: int| 0 <= t < sheet_after(s, 0).len() ==> #[trigger] sheet_after(s, 0)[t] == 0,
{
    vstd::arithmetic::mul::lemma_mul_is_commutative(s.len() as int, largest_width(s));
}

} // verus!
