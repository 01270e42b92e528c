//! Drawing the precomputed spectrogram into the window's RGBA frame.
use vstd::prelude::*;

use crate::mic::pixel_byte;
use crate::rgba::Rgba;

verus! {

broadcast use vstd::slice::group_slice_axioms;

/// Byte `k` of a frame `width` pixels wide showing, on each row `y`, the `width` pixels of
/// row `y` of an image `domain` pixels wide from column `x_offset` on.
pub open spec fn view_byte(img: Seq<Rgba>, domain: int, x_offset: int, width: int, k: int) -> u8 {
    let y = k / (4 * width);
    let i = k % (4 * width);
    pixel_byte(img[x_offset + y * domain + i / 4], i % 4)
}

/// Copies the `width`-pixel-wide window from column `x_offset` of the first `height` rows
/// of an image `domain` pixels wide into an RGBA frame `width` pixels wide.
pub fn draw_view(img: &[Rgba], domain: usize, x_offset: usize, width: usize, height: usize, frame: &mut [u8])
    requires
        height > 0 ==> {
            &&& height * (4 * width) <= old(frame)@.len()
            &&& x_offset + (height - 1) * domain + width <= img@.len()
        },
    ensures
        final(frame)@.len() == old(frame)@.len(),
        forall|k: int|
            0 <= k < old(frame)@.len() ==> #[trigger] final(frame)@[k] == if k < height * (4 * width) {
                view_byte(img@, domain as int, x_offset as int, width as int, k)
            } else {
                old(frame)@[k]
            },
{
    let ghost old_frame = frame@;
    let len = frame.len();
    if height == 0 || width == 0 {
        proof {
            assert(height * (4 * width) == 0) by (nonlinear_arith)
                requires height == 0 || width == 0;
        }
        return;
    }
    proof {
        assert(4 * width <= height * (4 * width)) by (nonlinear_arith)
            requires height >= 1, width >= 1;
    }
    let row_bytes = 4 * width;
    let mut y: usize = 0;
    while y < height
        invariant
            width >= 1,
            row_bytes == 4 * width,
            len == frame@.len(),
            len == old_frame.len(),
            height * row_bytes <= len,
            x_offset + (height - 1) * domain + width <= img@.len(),
            y <= height,
            forall|k: int|
                0 <= k < len ==> #[trigger] frame@[k] == if k < y * row_bytes {
                    view_byte(img@, domain as int, x_offset as int, width as int, k)
                } else {
                    old_frame[k]
                },
        decreases height - y,
    {
        proof {
            assert((y + 1) * row_bytes <= height * row_bytes) by (nonlinear_arith)
                requires y + 1 <= height, row_bytes >= 0;
            assert((y + 1) * row_bytes == y * row_bytes + row_bytes) by (nonlinear_arith);
            assert(y * domain <= (height - 1) * domain) by (nonlinear_arith)
                requires y <= height - 1, domain >= 0;
            assert(vstd::slice::spec_slice_len(img) == img@.len());
        }
        let base = y * row_bytes;
        let src = x_offset + y * domain;
        let mut i: usize = 0;
        while i < row_bytes
            invariant
                width >= 1,
                row_bytes == 4 * width,
                len == frame@.len(),
                len == old_frame.len(),
                y < height,
                base == y * row_bytes,
                base + row_bytes <= height * row_bytes,
                height * row_bytes <= len,
                src == x_offset + y * domain,
                src + width <= img@.len(),
                img@.len() <= usize::MAX,
                i <= row_bytes,
                forall|k: int|
                    0 <= k < len ==> #[trigger] frame@[k] == if k < base + i {
                        view_byte(img@, domain as int, x_offset as int, width as int, k)
                    } else {
                        old_frame[k]
                    },
            decreases row_bytes - i,
        {
            let k0 = base + i;
            proof {
                vstd::arithmetic::div_mod::lemma_fundamental_div_mod_converse(
                    k0 as int,
                    row_bytes as int,
                    y as int,
                    i as int,
                );
            }
            let x = i / 4;
            let c = i % 4;
            assert(x < width);
            let bytes = img[src + x].to_bytes();
            frame[k0] = bytes[c];
            i += 1;
        }
        y += 1;
    }
}

/// Copies a whole image into an RGBA frame of the same size.
pub fn draw_image(img: &[Rgba], frame: &mut [u8])
    requires
        old(frame)@.len() == 4 * img@.len(),
    ensures
        final(frame)@.len() == old(frame)@.len(),
        forall|k: int| 0 <= k < old(frame)@.len() ==> #[trigger] final(frame)@[k] == pixel_byte(img@[k / 4], k % 4),
{
    let len = frame.len();
    let mut k: usize = 0;
    while k < len
        invariant
            len == frame@.len(),
            len == 4 * img@.len(),
            k <= len,
            forall|j: int| 0 <= j < k ==> #[trigger] frame@[j] == pixel_byte(img@[j / 4], j % 4),
        decreases len - k,
    {
        let bytes = img[k / 4].to_bytes();
        frame[k] = bytes[k % 4];
        k += 1;
    }
}

} // verus!
