use crate::error::DecodeError;
use crate::image::{byte_len, lemma_offset_in_bounds, DecodedImage, ImageView};
use crate::meta::{Sprite, SpriteView};
use vstd::arithmetic::div_mod::{
    lemma_div_pos_is_pos, lemma_fundamental_div_mod, lemma_mod_bound, lemma_multiply_divide_lt,
};
use vstd::prelude::*;

verus! {

/// Whether the rectangle of `sprite` lies inside `atlas`.
pub open spec fn rect_fits(atlas: ImageView, sprite: SpriteView) -> bool {
    sprite.x + sprite.width <= atlas.width && sprite.y + sprite.height <= atlas.height
}

/// Whether `crop` is the rectangle of `sprite` cut out of `atlas`: it has the
/// width and the height of the sprite, and its pixel at `(i, j)` is the pixel
/// of the atlas at `(x + i, y + j)`.
pub open spec fn is_crop_of(crop: ImageView, atlas: ImageView, sprite: SpriteView) -> bool {
    &&& crop.width == sprite.width
    &&& crop.height == sprite.height
    &&& crop.wf()
    &&& forall|i: int, j: int|
        0 <= i < sprite.width && 0 <= j < sprite.height ==> #[trigger] crop.pixel(i, j)
            == atlas.pixel(sprite.x + i, sprite.y + j)
}

/// A rectangle of an atlas has one crop only: its dimensions and its pixels
/// decide every byte of it.
pub proof fn lemma_crop_is_unique(a: ImageView, b: ImageView, atlas: ImageView, sprite: SpriteView)
    requires
        is_crop_of(a, atlas, sprite),
        is_crop_of(b, atlas, sprite),
    ensures
        a == b,
{
    let width = sprite.width;
    let height = sprite.height;
    assert forall|k: int| 0 <= k < a.pixels.len() implies a.pixels[k] == b.pixels[k] by {
        let p = k / 4;
        assert(width > 0 && p < width * height) by (nonlinear_arith)
            requires
                0 <= 4 * p < 4 * (width * height),
                0 <= width,
                0 <= height,
        ;
        let i = p % width;
        let j = p / width;
        lemma_fundamental_div_mod(p, width);
        lemma_mod_bound(p, width);
        lemma_div_pos_is_pos(p, width);
        lemma_multiply_divide_lt(p, width, height);
        assert(j * width + i == p) by (nonlinear_arith)
            requires
                p == width * j + i,
        ;
        assert(a.pixel(i, j) == b.pixel(i, j));
        assert(a.offset(i, j) == 4 * p);
        assert(b.offset(i, j) == 4 * p);
    }
    assert(a.pixels =~= b.pixels);
}

/// Whether the pixel at `(i, j)` of the rows copied so far, which are `width`
/// pixels wide, is the pixel of `atlas` at `(x + i, y + j)`.
spec fn copied(pixels: Seq<u8>, width: int, atlas: ImageView, x: int, y: int, i: int, j: int) -> bool {
    let to = 4 * (j * width + i);
    let from = atlas.offset(x + i, y + j);
    &&& pixels[to] == atlas.pixels[from]
    &&& pixels[to + 1] == atlas.pixels[from + 1]
    &&& pixels[to + 2] == atlas.pixels[from + 2]
    &&& pixels[to + 3] == atlas.pixels[from + 3]
}

/// The pixel at column `i` of row `j` lies behind every pixel of the rows
/// before it and every pixel before it in its own row.
proof fn lemma_row_major(width: int, j: int, i: int, k: int, l: int)
    requires
        0 <= l < width,
        0 <= i <= width,
        0 <= j,
        (0 <= k < j) || (k == j && l < i),
    ensures
        0 <= k * width + l,
        k * width + l < j * width + i,
{
    assert(0 <= k * width && (k < j ==> k * width + width <= j * width)) by (nonlinear_arith)
        requires
            0 <= k <= j,
            0 <= width,
    ;
}

/// Copies the rectangle of a sprite out of its atlas.
///
/// The trim offsets and the untrimmed dimensions of the sprite play no part.
pub fn extract_sprite(atlas: &DecodedImage, sprite: &Sprite) -> (res: Result<
    DecodedImage,
    DecodeError,
>)
    ensures
        match res {
            Ok(crop) => rect_fits(atlas@, sprite@) && is_crop_of(crop@, atlas@, sprite@),
            Err(e) => e == DecodeError::OutOfBounds && !rect_fits(atlas@, sprite@),
        },
{
    let x: u32 = sprite.x as u32;
    let y: u32 = sprite.y as u32;
    let width: u32 = sprite.width as u32;
    let height: u32 = sprite.height as u32;
    let atlas_width: u32 = atlas.width();
    let atlas_height: u32 = atlas.height();
    if x + width > atlas_width || y + height > atlas_height {
        return Err(DecodeError::OutOfBounds);
    }
    let source = atlas.as_raw();
    let ghost from = atlas@;
    let mut pixels: Vec<u8> = Vec::new();
    let mut j: u32 = 0;
    while j < height
        invariant
            j <= height,
            x + width <= atlas_width,
            y + height <= atlas_height,
            from.wf(),
            from.width == atlas_width,
            from.height == atlas_height,
            source@ == from.pixels,
            pixels@.len() == 4 * (j * width),
            forall|k: int, l: int|
                0 <= k < j && 0 <= l < width ==> #[trigger] copied(
                    pixels@,
                    width as int,
                    from,
                    x as int,
                    y as int,
                    l,
                    k,
                ),
        decreases height - j,
    {
        let mut i: u32 = 0;
        while i < width
            invariant
                i <= width,
                j < height,
                x + width <= atlas_width,
                y + height <= atlas_height,
                from.wf(),
                from.width == atlas_width,
                from.height == atlas_height,
                source@ == from.pixels,
                pixels@.len() == 4 * (j * width + i),
                forall|k: int, l: int|
                    0 <= l < width && ((0 <= k < j) || (k == j && l < i)) ==> #[trigger] copied(
                        pixels@,
                        width as int,
                        from,
                        x as int,
                        y as int,
                        l,
                        k,
                    ),
            decreases width - i,
        {
            proof {
                lemma_offset_in_bounds(from.width, from.height, x + i, y + j);
                assert(source@.len() == source.len());
            }
            let at: usize = 4 * ((y + j) as usize * (atlas_width as usize) + (x + i) as usize);
            let ghost before = pixels@;
            pixels.push(source[at]);
            pixels.push(source[at + 1]);
            pixels.push(source[at + 2]);
            pixels.push(source[at + 3]);
            proof {
                assert forall|k: int, l: int|
                    0 <= l < width && ((0 <= k < j) || (k == j && l < i + 1)) implies #[trigger] copied(
                    pixels@,
                    width as int,
                    from,
                    x as int,
                    y as int,
                    l,
                    k,
                ) by {
                    if k == j && l == i {
                        assert(at == from.offset(x + i, y + j));
                    } else {
                        lemma_row_major(width as int, j as int, i as int, k, l);
                        assert(copied(before, width as int, from, x as int, y as int, l, k));
                    }
                }
            }
            i = i + 1;
        }
        proof {
            assert(j * width + width == (j + 1) * width) by (nonlinear_arith);
        }
        j = j + 1;
    }
    proof {
        assert(height * width == width * height) by (nonlinear_arith);
        assert(pixels@.len() == byte_len(width as nat, height as nat));
    }
    let crop = DecodedImage::new(width, height, pixels).unwrap();
    proof {
        assert forall|i: int, j: int| 0 <= i < width && 0 <= j < height implies #[trigger] crop@.pixel(
            i,
            j,
        ) == from.pixel(x + i, y + j) by {
            assert(copied(crop@.pixels, width as int, from, x as int, y as int, i, j));
        }
    }
    Ok(crop)
}

} // verus!
