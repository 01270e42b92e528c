//! Laying spectra out as images.
use vstd::prelude::*;

use crate::fft::{BoxSlice2D, MutSlice2D, Slice2D, SPECTRUM_SIZE};
use crate::rgba::Rgba;

verus! {

broadcast use vstd::slice::group_slice_axioms;

/// Cell `k` of a grid of width `width` lies in column `x` of one of the first `rows` rows.
pub open spec fn in_column(k: int, width: int, x: int, rows: int) -> bool {
    &&& k - x >= 0
    &&& (k - x) % width == 0
    &&& (k - x) / width < rows
}

/// Paints column `x` of every row of `out` white.
pub fn draw_vbar(x: usize, out: MutSlice2D<Rgba>)
    requires
        out.width > 0,
        old(out.data)@.len() as int / out.width as int == 0 || (old(out.data)@.len() as int
            / out.width as int - 1) * out.width + x < old(out.data)@.len(),
    ensures
        final(out.data)@.len() == old(out.data)@.len(),
        forall|k: int|
            0 <= k < old(out.data)@.len() ==> #[trigger] final(out.data)@[k] == if in_column(
                k,
                out.width as int,
                x as int,
                old(out.data)@.len() as int / out.width as int,
            ) {
                Rgba::spec_white()
            } else {
                old(out.data)@[k]
            },
{
    let w = out.width;
    let data = out.data;
    let len = data.len();
    let rows = len / w;
    let ghost old_data = data@;
    let mut y: usize = 0;
    while y < rows
        invariant
            w > 0,
            len == old_data.len(),
            len == data@.len(),
            rows == len / w,
            rows == 0 || (rows - 1) * w + x < len,
            y <= rows,
            forall|k: int|
                0 <= k < len ==> #[trigger] data@[k] == if in_column(k, w as int, x as int, y as int) {
                    Rgba::spec_white()
                } else {
                    old_data[k]
                },
        decreases rows - y,
    {
        proof {
            assert(y * w <= (rows - 1) * w) by (nonlinear_arith)
                requires y < rows, w > 0;
        }
        let k0 = y * w + x;
        data[k0] = Rgba::white();
        proof {
            vstd::arithmetic::div_mod::lemma_fundamental_div_mod_converse(y * w, w as int, y as int, 0);
            assert forall|k: int| 0 <= k < len implies #[trigger] data@[k] == if in_column(
                k,
                w as int,
                x as int,
                y + 1,
            ) {
                Rgba::spec_white()
            } else {
                old_data[k]
            } by {
                if k != k0 && in_column(k, w as int, x as int, y + 1) {
                    vstd::arithmetic::div_mod::lemma_fundamental_div_mod(k - x, w as int);
                    assert(w * y == y * w) by (nonlinear_arith);
                    assert(in_column(k, w as int, x as int, y as int));
                }
            }
        }
        y += 1;
    }
}

} // verus!

verus! {

/// The number of spectra (columns) stored in `len` cells.
pub open spec fn num_spectra(len: int) -> int {
    len / SPECTRUM_SIZE as int
}

/// The number of frequency rows of a spectrogram that fit in `out_len` cells for
/// `n_spectra` columns.
pub open spec fn visible_rows(out_len: int, n_spectra: int) -> int {
    out_len / n_spectra
}

/// Every cell that laying out `spectra_len` spectrum cells (stored `spectra_width` to a
/// spectrum) into `out_len` cells `out_width` to a row reads or writes lies in range.
pub open spec fn spectrogram_fits(spectra_len: int, spectra_width: int, out_len: int, out_width: int) -> bool {
    let n = num_spectra(spectra_len);
    let vis = visible_rows(out_len, n);
    let hidden = SPECTRUM_SIZE - vis;
    &&& n > 0
    &&& vis <= SPECTRUM_SIZE
    &&& forall|y: int, x: int|
        0 <= y < vis && 0 <= x < n ==> #[trigger] grid_index(y, x, out_width) < out_len && grid_index(
            x,
            y + hidden,
            spectra_width,
        ) < spectra_len
}

/// The index of cell `(col, row)` of a row-major grid of the given width.
pub open spec fn grid_index(row: int, col: int, width: int) -> int {
    row * width + col
}

/// The last row, of the first `rows`, whose cells of a grid `w` wide can land on index `k`:
/// row `k / w` if it is among them, else the last of them (every row, for a zero width).
pub open spec fn last_row(k: int, w: int, rows: int) -> int {
    if w > 0 && k / w < rows - 1 {
        k / w
    } else {
        rows - 1
    }
}

/// The cell `(column, row)` that writing columns `0..n` of rows `0..rows`, row by row, at
/// index `row * w + column` writes last at index `k`; `None` when no cell lands there.
pub open spec fn last_write(k: int, w: int, n: int, rows: int) -> Option<(int, int)> {
    let r = last_row(k, w, rows);
    let x = k - r * w;
    if rows > 0 && 0 <= x < n {
        Some((x, r))
    } else {
        None
    }
}

/// Moving on from row `y` to row `y + 1`, for an index `k` that row `y` reaches and for one
/// it does not.
proof fn lemma_last_row_step(k: int, w: int, y: int)
    requires
        k >= 0,
        w >= 0,
        y >= 0,
    ensures
        0 <= k - y * w ==> last_row(k, w, y + 1) == y,
        0 <= k - y * w && y > 0 ==> last_row(k, w, y) == y - 1,
        k - y * w < 0 ==> last_row(k, w, y + 1) == last_row(k, w, y) && y > 0,
{
    if w > 0 {
        vstd::arithmetic::div_mod::lemma_fundamental_div_mod(k, w);
        if 0 <= k - y * w {
            assert(k / w >= y) by (nonlinear_arith)
                requires
                    k == w * (k / w) + k % w,
                    0 <= k % w < w,
                    k >= y * w,
            ;
        } else {
            assert(k / w < y) by (nonlinear_arith)
                requires
                    k == w * (k / w) + k % w,
                    0 <= k % w < w,
                    k < y * w,
                    w > 0,
            ;
            assert(k / w >= 0) by (nonlinear_arith)
                requires
                    k == w * (k / w) + k % w,
                    0 <= k % w < w,
                    k >= 0,
                    w > 0,
            ;
        }
    } else {
        assert(y * w == 0) by (nonlinear_arith)
            requires
                w == 0,
        ;
    }
}

/// Renders the top rows of a set of spectra into an image, one column per spectrum and the
/// highest frequency on the first row: spectrum `x` at bin `y + hidden` is written to cell
/// `y * width + x`, where the `hidden` lowest-indexed bins do not fit in `out`, row by row.
/// Where there are more spectra than the image is wide, a row runs on into the next one
/// and the later write stands.
pub fn spectrogram_into<T: Copy, U, F: Fn(T) -> U>(spectra: Slice2D<T>, render: F, out: MutSlice2D<U>)
    requires
        forall|v: T| #[trigger] render.requires((v,)),
        spectrogram_fits(
            spectra.data@.len() as int,
            spectra.width as int,
            old(out.data)@.len() as int,
            out.width as int,
        ),
    ensures
        ({
            let n = num_spectra(spectra.data@.len() as int);
            let vis = visible_rows(old(out.data)@.len() as int, n);
            let hidden = SPECTRUM_SIZE - vis;
            let w = out.width as int;
            &&& final(out.data)@.len() == old(out.data)@.len()
            &&& forall|k: int|
                0 <= k < old(out.data)@.len() ==> match last_write(k, w, n, vis) {
                    Some((x, y)) => render.ensures(
                        (spectra.data@[x * spectra.width + y + hidden],),
                        #[trigger] final(out.data)@[k],
                    ),
                    None => final(out.data)@[k] == old(out.data)@[k],
                }
        }),
{
    let data = out.data;
    let ow = out.width;
    let sw = spectra.width;
    let ghost old_data = data@;
    let n_spectra = spectra.data.len() / SPECTRUM_SIZE;
    let n_rows_visible = data.len() / n_spectra;
    let n_rows_invisible = SPECTRUM_SIZE - n_rows_visible;
    let ghost n = n_spectra as int;
    let ghost w = ow as int;
    let ghost hidden = n_rows_invisible as int;
    let mut y: usize = 0;
    while y < n_rows_visible
        invariant
            forall|v: T| #[trigger] render.requires((v,)),
            spectrogram_fits(spectra.data@.len() as int, sw as int, old_data.len() as int, ow as int),
            n_spectra == num_spectra(spectra.data@.len() as int),
            n == n_spectra,
            w == ow,
            hidden == n_rows_invisible,
            n_rows_visible == visible_rows(old_data.len() as int, n),
            n_rows_invisible == SPECTRUM_SIZE - n_rows_visible,
            data@.len() == old_data.len(),
            y <= n_rows_visible,
            forall|k: int|
                0 <= k < old_data.len() ==> match last_write(k, w, n, y as int) {
                    Some((x, r)) => render.ensures(
                        (spectra.data@[x * sw + r + hidden],),
                        #[trigger] data@[k],
                    ),
                    None => data@[k] == old_data[k],
                },
        decreases n_rows_visible - y,
    {
        let mut x: usize = 0;
        while x < n_spectra
            invariant
                forall|v: T| #[trigger] render.requires((v,)),
                spectrogram_fits(spectra.data@.len() as int, sw as int, old_data.len() as int, ow as int),
                n_spectra == num_spectra(spectra.data@.len() as int),
                n == n_spectra,
                w == ow,
                hidden == n_rows_invisible,
                n_rows_visible == visible_rows(old_data.len() as int, n),
                n_rows_invisible == SPECTRUM_SIZE - n_rows_visible,
                data@.len() == old_data.len(),
                y < n_rows_visible,
                x <= n_spectra,
                forall|k: int|
                    0 <= k < old_data.len() ==> if 0 <= k - y * w < x {
                        render.ensures(
                            (spectra.data@[(k - y * w) * sw + y + hidden],),
                            #[trigger] data@[k],
                        )
                    } else {
                        match last_write(k, w, n, y as int) {
                            Some((x, r)) => render.ensures(
                                (spectra.data@[x * sw + r + hidden],),
                                data@[k],
                            ),
                            None => data@[k] == old_data[k],
                        }
                    },
            decreases n_spectra - x,
        {
            proof {
                assert(grid_index(y as int, x as int, ow as int) < old_data.len());
                assert(grid_index(x as int, y + hidden, sw as int) < spectra.data@.len());
                assert(vstd::slice::spec_slice_len(spectra.data) == spectra.data@.len());
                assert(vstd::slice::spec_slice_len(data) == data@.len());
                assert(0 <= y as int * ow <= (y as int * ow) + x) by (nonlinear_arith)
                    requires y >= 0, ow >= 0, x >= 0;
                assert(0 <= x as int * sw) by (nonlinear_arith)
                    requires x >= 0, sw >= 0;
            }
            let src = x * sw + y + n_rows_invisible;
            let k0 = y * ow + x;
            let value = render(spectra.data[src]);
            data[k0] = value;
            x += 1;
        }
        proof {
            assert forall|k: int| 0 <= k < old_data.len() implies match last_write(k, w, n, y + 1) {
                Some((x, r)) => render.ensures(
                    (spectra.data@[x * sw + r + hidden],),
                    #[trigger] data@[k],
                ),
                None => data@[k] == old_data[k],
            } by {
                lemma_last_row_step(k, w, y as int);
                if 0 <= k - y * w && k - y * w >= n && y > 0 {
                    assert(k - (y - 1) * w == (k - y * w) + w) by (nonlinear_arith);
                }
                if k - y * w < 0 {
                    assert(last_write(k, w, n, y + 1) == last_write(k, w, n, y as int));
                }
            }
        }
        y += 1;
    }
}

} // verus!

verus! {

/// Renders a set of spectra into a new image with one column per spectrum and one row per
/// bin (see [`spectrogram_into`]); cells that it does not render all hold one `U::default()` value.
pub fn spectrogram<T: Copy, U: Default + Copy, F: Fn(T) -> U>(spectra: Slice2D<T>, render: F) -> (img:
    BoxSlice2D<U>)
    requires
        forall|v: T| #[trigger] render.requires((v,)),
        spectra.width > 0,
        spectrogram_fits(
            spectra.data@.len() as int,
            spectra.width as int,
            (spectra.data@.len() as int / spectra.width as int) * spectra.width,
            spectra.data@.len() as int / spectra.width as int,
        ),
    ensures
        ({
            let w = spectra.data@.len() as int / spectra.width as int;
            let n = num_spectra(spectra.data@.len() as int);
            let vis = visible_rows(w * spectra.width, n);
            let hidden = SPECTRUM_SIZE - vis;
            &&& img.width == w
            &&& img.data@.len() == w * spectra.width
            &&& forall|k: int|
                0 <= k < img.data@.len() ==> match last_write(k, w, n, vis) {
                    Some((x, y)) => render.ensures(
                        (spectra.data@[x * spectra.width + y + hidden],),
                        #[trigger] img.data@[k],
                    ),
                    None => call_ensures(U::default, (), img.data@[k]),
                }
            &&& forall|k: int, j: int|
                0 <= k < img.data@.len() && 0 <= j < img.data@.len() && last_write(k, w, n, vis) is None
                    && last_write(j, w, n, vis) is None ==> #[trigger] img.data@[k] == #[trigger] img.data@[j]
        }),
{
    let img_height = spectra.width;
    let img_width = spectra.data.len() / img_height;
    proof {
        vstd::arithmetic::div_mod::lemma_fundamental_div_mod(spectra.data@.len() as int, img_height as int);
        assert(img_width * img_height <= spectra.data@.len()) by (nonlinear_arith)
            requires
                spectra.data@.len() == img_height * (spectra.data@.len() as int / img_height as int)
                    + spectra.data@.len() as int % img_height as int,
                img_width == spectra.data@.len() as int / img_height as int,
                spectra.data@.len() as int % img_height as int >= 0;
        assert(vstd::slice::spec_slice_len(spectra.data) == spectra.data@.len());
    }
    let mut img = BoxSlice2D::<U>::new(img_width, img_height);
    let ghost fresh = img.data@;
    spectrogram_into(spectra, render, img.unbox_mut());
    proof {
        assert forall|k: int| 0 <= k < fresh.len() implies call_ensures(U::default, (), #[trigger] fresh[k])
            && fresh[k] == fresh[0] by {}
    }
    img
}

/// Renders every value of a spectrum.
pub fn render_spectrum<T: Copy, U, F: Fn(T) -> U>(spectrum: &[T], render: F) -> (pixels: Vec<U>)
    requires
        forall|v: T| #[trigger] render.requires((v,)),
    ensures
        pixels@.len() == spectrum@.len(),
        forall|i: int| 0 <= i < spectrum@.len() ==> render.ensures((spectrum@[i],), #[trigger] pixels@[i]),
{
    let mut pixels: Vec<U> = Vec::with_capacity(spectrum.len());
    let mut i: usize = 0;
    while i < spectrum.len()
        invariant
            forall|v: T| #[trigger] render.requires((v,)),
            i <= spectrum@.len(),
            pixels@.len() == i,
            forall|j: int| 0 <= j < i ==> render.ensures((spectrum@[j],), #[trigger] pixels@[j]),
        decreases spectrum@.len() - i,
    {
        let p = render(spectrum[i]);
        pixels.push(p);
        i += 1;
    }
    pixels
}

} // verus!
