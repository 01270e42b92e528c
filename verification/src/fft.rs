use vstd::prelude::*;

verus! {

broadcast use vstd::slice::group_slice_axioms;

/// Samples in one analysis window.
pub const WINDOW_SIZE: usize = 4096;

/// Frequency bins kept from one window (the Nyquist half).
pub const SPECTRUM_SIZE: usize = 2048;

/// Samples between the starts of two consecutive windows.
pub const STEP_SIZE: usize = 256;

/// A row-major 2D view over a borrowed slice.
pub struct Slice2D<'a, T> {
    pub data: &'a [T],
    pub width: usize,
}

/// A row-major 2D view over a mutably borrowed slice.
pub struct MutSlice2D<'a, T> {
    pub data: &'a mut [T],
    pub width: usize,
}

/// The cells of row `row` of a row-major grid of the given width.
pub open spec fn row_of<T>(data: Seq<T>, width: int, row: int) -> Seq<T> {
    data.subrange(row * width, (row + 1) * width)
}

/// Row `row` starts at `row * width` and ends `width` cells later.
pub proof fn lemma_row_bounds(row: int, width: int)
    requires
        0 <= row,
        0 <= width,
    ensures
        0 <= row * width <= (row + 1) * width,
        (row + 1) * width == row * width + width,
{
    assert(0 <= row * width) by (nonlinear_arith)
        requires 0 <= row, 0 <= width;
    assert((row + 1) * width == row * width + width) by (nonlinear_arith);
}

impl<'a, T> Slice2D<'a, T> {
    /// The cells of row `row`.
    pub fn row(&self, row: usize) -> (r: &[T])
        requires
            row < usize::MAX,
            (row + 1) * self.width <= self.data@.len(),
        ensures
            r@ == row_of(self.data@, self.width as int, row as int),
    {
        proof {
            lemma_row_bounds(row as int, self.width as int);
            assert(vstd::slice::spec_slice_len(self.data) == self.data@.len());
        }
        &self.data[row * self.width..(row + 1) * self.width]
    }
}

impl<'a, T> MutSlice2D<'a, T> {
    /// The cells of row `row`.
    pub fn row(&self, row: usize) -> (r: &[T])
        requires
            row < usize::MAX,
            (row + 1) * self.width <= old(self.data)@.len(),
        ensures
            r@ == row_of(old(self.data)@, self.width as int, row as int),
    {
        proof {
            lemma_row_bounds(row as int, self.width as int);
            assert(vstd::slice::spec_slice_len(self.data) == self.data@.len());
        }
        &self.data[row * self.width..(row + 1) * self.width]
    }

    /// The cells of row `row`, for writing.
    pub fn row_mut(&mut self, row: usize) -> (r: &mut [T])
        requires
            row < usize::MAX,
            (row + 1) * old(self).width <= old(self).data@.len(),
        ensures
            r@ == row_of(old(self).data@, old(self).width as int, row as int),
            final(self).width == old(self).width,
            final(self).data@ == old(self).data@.subrange(0, row * old(self).width)
                + final(r)@ + old(self).data@.subrange((row + 1) * old(self).width, old(self).data@.len() as int),
    {
        proof {
            lemma_row_bounds(row as int, self.width as int);
            assert(vstd::slice::spec_slice_len(self.data) == self.data@.len());
        }
        let start = row * self.width;
        let w = self.width;
        let (_, rest) = self.data.split_at_mut(start);
        let (r, _) = rest.split_at_mut(w);
        r
    }
}

} // verus!

verus! {

/// A row-major 2D grid that owns its cells.
pub struct BoxSlice2D<T> {
    pub data: Box<[T]>,
    pub width: usize,
}

/// `std`'s `Vec::into_boxed_slice`: the boxed slice holds the vector's elements.
#[verifier::external_body]
pub(crate) fn vec_into_boxed_slice<T>(v: Vec<T>) -> (b: Box<[T]>)
    ensures
        b@ == v@,
{
    v.into_boxed_slice()
}

impl<T: Default + Copy> BoxSlice2D<T> {
    /// A `width` by `height` grid with every cell set to one value of `T::default()`.
    pub fn new(width: usize, height: usize) -> (s: Self)
        requires
            width * height <= usize::MAX,
        ensures
            s.width == width,
            s.data@.len() == width * height,
            forall|i: int| 0 <= i < s.data@.len() ==> call_ensures(T::default, (), #[trigger] s.data@[i]),
            forall|i: int| 0 <= i < s.data@.len() ==> #[trigger] s.data@[i] == s.data@[0],
    {
        let n = width * height;
        let d = T::default();
        let mut v: Vec<T> = Vec::with_capacity(n);
        let mut k: usize = 0;
        while k < n
            invariant
                k <= n,
                v@.len() == k,
                call_ensures(T::default, (), d),
                forall|i: int| 0 <= i < k ==> v@[i] == d,
            decreases n - k,
        {
            v.push(d);
            k += 1;
        }
        BoxSlice2D { data: vec_into_boxed_slice(v), width }
    }

    /// The cells of row `row`.
    pub fn row(&self, row: usize) -> (r: &[T])
        requires
            row < usize::MAX,
            (row + 1) * self.width <= self.data@.len(),
        ensures
            r@ == row_of(self.data@, self.width as int, row as int),
    {
        proof {
            lemma_row_bounds(row as int, self.width as int);
            assert(vstd::slice::spec_slice_len(&*self.data) == self.data@.len());
        }
        &self.data[row * self.width..(row + 1) * self.width]
    }

    /// The cells of row `row`, for writing.
    pub fn row_mut(&mut self, row: usize) -> (r: &mut [T])
        requires
            row < usize::MAX,
            (row + 1) * old(self).width <= old(self).data@.len(),
        ensures
            r@ == row_of(old(self).data@, old(self).width as int, row as int),
            final(self).width == old(self).width,
            final(self).data@ == old(self).data@.subrange(0, row * old(self).width)
                + final(r)@ + old(self).data@.subrange((row + 1) * old(self).width, old(self).data@.len() as int),
    {
        proof {
            lemma_row_bounds(row as int, self.width as int);
            assert(vstd::slice::spec_slice_len(&*self.data) == self.data@.len());
        }
        let start = row * self.width;
        let w = self.width;
        let (_, rest) = self.data.split_at_mut(start);
        let (r, _) = rest.split_at_mut(w);
        r
    }

    /// A borrowed view of the grid.
    pub fn unbox(&self) -> (v: Slice2D<'_, T>)
        ensures
            v.data@ == self.data@,
            v.width == self.width,
    {
        Slice2D { data: &*self.data, width: self.width }
    }

    /// A mutably borrowed view of the grid.
    pub fn unbox_mut(&mut self) -> (v: MutSlice2D<'_, T>)
        ensures
            v.data@ == old(self).data@,
            v.width == old(self).width,
            final(self).width == old(self).width,
            final(self).data@ == final(v.data)@,
    {
        MutSlice2D { data: &mut *self.data, width: self.width }
    }
}

} // verus!

verus! {

/// The 12-bit index `x` with its bits in reverse order.
pub open spec fn reverse12(x: u32) -> u32 {
    ((x >> 11u32) & 1) | (((x >> 10u32) & 1) << 1u32) | (((x >> 9u32) & 1) << 2u32) | (((x >> 8u32) & 1)
        << 3u32) | (((x >> 7u32) & 1) << 4u32) | (((x >> 6u32) & 1) << 5u32) | (((x >> 5u32) & 1)
        << 6u32) | (((x >> 4u32) & 1) << 7u32) | (((x >> 3u32) & 1) << 8u32) | (((x >> 2u32) & 1)
        << 9u32) | (((x >> 1u32) & 1) << 10u32) | ((x & 1) << 11u32)
}

/// Reversing the 12 bits of an index twice gives the index back, and a reversed index is
/// again an index of a window.
pub proof fn lemma_reverse12(x: u32)
    requires
        x < 4096,
    ensures
        reverse12(x) < 4096,
        reverse12(reverse12(x)) == x,
{
    assert(reverse12(x) < 4096) by (bit_vector)
        requires x < 4096u32;
    assert(reverse12(reverse12(x)) == x) by (bit_vector)
        requires x < 4096u32;
}

fn reverse_index(m: usize) -> (r: usize)
    requires
        m < WINDOW_SIZE,
    ensures
        r == reverse12(m as u32),
        r < WINDOW_SIZE,
{
    let x = m as u32;
    let r = ((x >> 11u32) & 1) | (((x >> 10u32) & 1) << 1u32) | (((x >> 9u32) & 1) << 2u32) | (((x
        >> 8u32) & 1) << 3u32) | (((x >> 7u32) & 1) << 4u32) | (((x >> 6u32) & 1) << 5u32) | (((x
        >> 5u32) & 1) << 6u32) | (((x >> 4u32) & 1) << 7u32) | (((x >> 3u32) & 1) << 8u32) | (((x
        >> 2u32) & 1) << 9u32) | (((x >> 1u32) & 1) << 10u32) | ((x & 1) << 11u32);
    proof {
        lemma_reverse12(x);
    }
    r as usize
}

/// The first step of the in-place radix-2 FFT over a window: puts the element at each index
/// at the index with its 12 bits reversed, in both the real and the imaginary part.
pub fn bit_reverse_permute<T: Copy>(fr: &mut [T], fi: &mut [T])
    requires
        old(fr)@.len() == WINDOW_SIZE,
        old(fi)@.len() == WINDOW_SIZE,
    ensures
        final(fr)@ == bit_reversed(old(fr)@),
        final(fi)@ == bit_reversed(old(fi)@),
{
    let ghost fr0 = fr@;
    let ghost fi0 = fi@;
    proof {
        lemma_reverse12(0);
        lemma_reverse12(4095);
        assert(reverse12(0) == 0) by (bit_vector);
        assert(reverse12(4095) == 4095) by (bit_vector);
        assert forall|k: int| 0 <= k < WINDOW_SIZE && #[trigger] reverse12(k as u32) < 1 implies k == 0 by {
            lemma_reverse12(k as u32);
        }
    }
    let mut m: usize = 1;
    while m < WINDOW_SIZE - 1
        invariant
            1 <= m <= WINDOW_SIZE - 1,
            fr@.len() == WINDOW_SIZE,
            fi@.len() == WINDOW_SIZE,
            reverse12(0) == 0,
            reverse12(4095) == 4095,
            forall|k: int|
                #![trigger fr@[k]]
                #![trigger fi@[k]]
                0 <= k < WINDOW_SIZE ==> {
                    let r = reverse12(k as u32) as int;
                    if (k < m || r < m) && k != r {
                        fr@[k] == fr0[r] && fi@[k] == fi0[r]
                    } else {
                        fr@[k] == fr0[k] && fi@[k] == fi0[k]
                    }
                },
        decreases WINDOW_SIZE - 1 - m,
    {
        let mr = reverse_index(m);
        proof {
            lemma_reverse12(m as u32);
        }
        if mr > m {
            let a = fr[m];
            let b = fr[mr];
            fr[m] = b;
            fr[mr] = a;
            let c = fi[m];
            let d = fi[mr];
            fi[m] = d;
            fi[mr] = c;
        }
        proof {
            assert forall|k: int| #![trigger fr@[k]] #![trigger fi@[k]] 0 <= k < WINDOW_SIZE implies {
                let r = reverse12(k as u32) as int;
                if (k < m + 1 || r < m + 1) && k != r {
                    fr@[k] == fr0[r] && fi@[k] == fi0[r]
                } else {
                    fr@[k] == fr0[k] && fi@[k] == fi0[k]
                }
            } by {
                lemma_reverse12(k as u32);
                if k == mr as int {
                    assert(reverse12(mr as u32) == m as u32);
                }
            }
        }
        m += 1;
    }
    proof {
        assert forall|k: int| 0 <= k < WINDOW_SIZE implies #[trigger] fr@[k] == fr0[reverse12(k as u32) as int]
            && fi@[k] == fi0[reverse12(k as u32) as int] by {
            lemma_reverse12(k as u32);
        }
        assert(fr@ =~= bit_reversed(fr0));
        assert(fi@ =~= bit_reversed(fi0));
    }
}

/// A window with each element moved to the index with its 12 bits reversed.
pub open spec fn bit_reversed<T>(s: Seq<T>) -> Seq<T> {
    Seq::new(WINDOW_SIZE as nat, |k: int| s[reverse12(k as u32) as int])
}

/// Bit-reversing a window twice gives the window back.
pub proof fn lemma_bit_reversed_twice<T>(s: Seq<T>)
    requires
        s.len() == WINDOW_SIZE,
    ensures
        bit_reversed(bit_reversed(s)) == s,
{
    assert forall|k: int| 0 <= k < WINDOW_SIZE implies #[trigger] bit_reversed(bit_reversed(s))[k] == s[k] by {
        lemma_reverse12(k as u32);
    }
    assert(bit_reversed(bit_reversed(s)) =~= s);
}

} // verus!
