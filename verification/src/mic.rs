//! Stream handling of the microphone visualizers: cutting the incoming samples into
//! overlapping windows, and scrolling the picture by one column.
use vstd::prelude::*;

use crate::fft::WINDOW_SIZE;
use crate::rgba::Rgba;

verus! {

broadcast use vstd::slice::group_slice_axioms;

/// Overlapping windows over a stream of samples that arrives in pieces: each window is
/// `window` samples long and starts `step` samples after the previous one. Samples before
/// the next window can be dropped from the buffer.
pub struct SlidingWindows<T> {
    buf: Vec<T>,
    start: usize,
    window: usize,
    step: usize,
    stream: Ghost<Seq<T>>,
    dropped: Ghost<int>,
}

impl<T: Copy> SlidingWindows<T> {
    /// Everything pushed so far.
    pub closed spec fn stream(&self) -> Seq<T> {
        self.stream@
    }

    /// Where in the stream the next window starts.
    pub closed spec fn position(&self) -> int {
        self.dropped@ + self.start
    }

    /// How many samples the buffer holds.
    pub closed spec fn buffered(&self) -> int {
        self.buf@.len() as int
    }

    /// How many buffered samples lie before the next window.
    pub closed spec fn consumed(&self) -> int {
        self.start as int
    }

    pub closed spec fn window_len(&self) -> int {
        self.window as int
    }

    pub closed spec fn step_len(&self) -> int {
        self.step as int
    }

    /// The buffer holds the stream from the first sample not yet dropped on, and the next
    /// window starts within it.
    pub closed spec fn wf(&self) -> bool {
        &&& 0 <= self.dropped@ <= self.stream@.len()
        &&& self.buf@ == self.stream@.subrange(self.dropped@, self.stream@.len() as int)
        &&& self.start <= self.buf@.len()
        &&& 0 < self.step <= self.window
    }

    /// Windows of `window` samples, `step` apart, over an empty stream.
    pub fn new(window: usize, step: usize) -> (s: Self)
        requires
            0 < step <= window,
        ensures
            s.wf(),
            s.stream() == Seq::<T>::empty(),
            s.position() == 0,
            s.buffered() == 0,
            s.window_len() == window,
            s.step_len() == step,
    {
        let s = SlidingWindows {
            buf: Vec::new(),
            start: 0,
            window,
            step,
            stream: Ghost(Seq::empty()),
            dropped: Ghost(0),
        };
        assert(s.buf@ =~= s.stream@.subrange(0, 0));
        s
    }

    /// Appends samples to the stream.
    pub fn push(&mut self, data: &[T])
        requires
            old(self).wf(),
            old(self).buffered() + data@.len() <= usize::MAX,
        ensures
            final(self).wf(),
            final(self).stream() == old(self).stream() + data@,
            final(self).position() == old(self).position(),
            final(self).buffered() == old(self).buffered() + data@.len(),
            final(self).window_len() == old(self).window_len(),
            final(self).step_len() == old(self).step_len(),
    {
        let ghost old_buf = self.buf@;
        let mut i: usize = 0;
        while i < data.len()
            invariant
                old_buf == old(self).buf@,
                self.stream@ == old(self).stream@,
                self.dropped@ == old(self).dropped@,
                self.start == old(self).start,
                self.window == old(self).window,
                self.step == old(self).step,
                self.buf@ == old_buf + data@.subrange(0, i as int),
                i <= data@.len(),
                old_buf.len() + data@.len() <= usize::MAX,
            decreases data@.len() - i,
        {
            self.buf.push(data[i]);
            i += 1;
            assert(self.buf@ =~= old_buf + data@.subrange(0, i as int));
        }
        self.stream = Ghost(self.stream@ + data@);
        assert(data@.subrange(0, data@.len() as int) =~= data@);
        assert(self.buf@ =~= self.stream@.subrange(self.dropped@, self.stream@.len() as int));
    }

    /// The next window, when the stream holds more than a window from its start on; the
    /// start then moves one step on.
    pub fn next_window(&mut self) -> (w: Option<Vec<T>>)
        requires
            old(self).wf(),
        ensures
            final(self).wf(),
            final(self).stream() == old(self).stream(),
            final(self).window_len() == old(self).window_len(),
            final(self).step_len() == old(self).step_len(),
            final(self).buffered() == old(self).buffered(),
            old(self).stream().len() - old(self).position() > old(self).window_len() ==> {
                &&& w matches Some(v) && v@ == old(self).stream().subrange(
                    old(self).position(),
                    old(self).position() + old(self).window_len(),
                )
                &&& final(self).position() == old(self).position() + old(self).step_len()
            },
            old(self).stream().len() - old(self).position() <= old(self).window_len() ==> {
                &&& w is None
                &&& final(self).position() == old(self).position()
            },
    {
        let blen = self.buf.len();
        if blen - self.start > self.window {
            let ghost p = self.dropped@ + self.start;
            let mut v: Vec<T> = Vec::with_capacity(self.window);
            let mut i: usize = 0;
            while i < self.window
                invariant
                    self.wf(),
                    p == self.dropped@ + self.start,
                    blen == self.buf@.len(),
                    self.buf@.len() - self.start > self.window,
                    i <= self.window,
                    v@ == self.buf@.subrange(self.start as int, self.start + i),
                decreases self.window - i,
            {
                v.push(self.buf[self.start + i]);
                i += 1;
                assert(v@ =~= self.buf@.subrange(self.start as int, self.start + i));
            }
            self.start = self.start + self.step;
            assert(v@ =~= self.stream@.subrange(p, p + self.window));
            Some(v)
        } else {
            None
        }
    }

    /// Drops the samples before the next window, which keeps its place in the stream.
    fn drop_consumed(&mut self)
        requires
            old(self).wf(),
        ensures
            final(self).wf(),
            final(self).stream() == old(self).stream(),
            final(self).position() == old(self).position(),
            final(self).buffered() == old(self).buffered() - old(self).consumed(),
            final(self).consumed() == 0,
            final(self).window_len() == old(self).window_len(),
            final(self).step_len() == old(self).step_len(),
    {
        let tail = self.buf.split_off(self.start);
        self.buf = tail;
        self.dropped = Ghost(self.dropped@ + self.start);
        self.start = 0;
        assert(self.buf@ =~= self.stream@.subrange(self.dropped@, self.stream@.len() as int));
    }

    /// Drops the consumed samples once more than a window of them, or more than half the
    /// buffer, has been consumed.
    pub fn compact_for_display(&mut self)
        requires
            old(self).wf(),
        ensures
            final(self).wf(),
            final(self).stream() == old(self).stream(),
            final(self).position() == old(self).position(),
            final(self).window_len() == old(self).window_len(),
            final(self).step_len() == old(self).step_len(),
            final(self).buffered() == (if old(self).consumed() > 0 && (old(self).consumed() > WINDOW_SIZE
                || old(self).consumed() * 2 > old(self).buffered()) {
                old(self).buffered() - old(self).consumed()
            } else {
                old(self).buffered()
            }),
    {
        if self.start > 0 && (self.start > WINDOW_SIZE || self.start > self.buf.len() - self.start) {
            self.drop_consumed();
        }
    }

    /// Drops the consumed samples once more than `limit` of them have been consumed.
    pub fn compact_past(&mut self, limit: usize)
        requires
            old(self).wf(),
        ensures
            final(self).wf(),
            final(self).stream() == old(self).stream(),
            final(self).position() == old(self).position(),
            final(self).window_len() == old(self).window_len(),
            final(self).step_len() == old(self).step_len(),
            final(self).buffered() == (if old(self).consumed() > limit {
                old(self).buffered() - old(self).consumed()
            } else {
                old(self).buffered()
            }),
    {
        if self.start > limit {
            self.drop_consumed();
        }
    }
}

} // verus!

verus! {

/// Byte `c` (0 to 3) of a pixel in memory order.
pub open spec fn pixel_byte(p: Rgba, c: int) -> u8 {
    if c == 0 {
        p.r
    } else if c == 1 {
        p.g
    } else if c == 2 {
        p.b
    } else {
        p.a
    }
}

/// Byte `k` of an RGBA frame `width` pixels wide after its first `height` rows were
/// scrolled one pixel to the left, with `column[y]` entering on the right of row `y`.
pub open spec fn scrolled_byte(frame: Seq<u8>, width: int, height: int, column: Seq<Rgba>, k: int) -> u8 {
    let row_bytes = 4 * width;
    if k < height * row_bytes {
        let y = k / row_bytes;
        let i = k % row_bytes;
        if i < row_bytes - 4 {
            frame[k + 4]
        } else {
            pixel_byte(column[y], i - (row_bytes - 4))
        }
    } else {
        frame[k]
    }
}

/// Scrolls the first `height` rows of an RGBA frame `width` pixels wide one pixel to the
/// left and writes `column[y]` as the new rightmost pixel of row `y`.
pub fn scroll_in_column(frame: &mut [u8], width: usize, height: usize, column: &[Rgba])
    requires
        width >= 1,
        height * (4 * width) <= old(frame)@.len(),
        height <= column@.len(),
    ensures
        final(frame)@.len() == old(frame)@.len(),
        forall|k: int|
            0 <= k < old(frame)@.len() ==> #[trigger] final(frame)@[k] == scrolled_byte(
                old(frame)@,
                width as int,
                height as int,
                column@,
                k,
            ),
{
    let ghost old_frame = frame@;
    let len = frame.len();
    if height == 0 {
        return;
    }
    proof {
        assert(4 * width <= height * (4 * width)) by (nonlinear_arith)
            requires height >= 1, width >= 1;
    }
    let row_bytes = 4 * width;
    let mut y: usize = 0;
    while y < height
        invariant
            width >= 1,
            row_bytes == 4 * width,
            len == frame@.len(),
            len == old_frame.len(),
            height * row_bytes <= len,
            height <= column@.len(),
            y <= height,
            forall|k: int|
                0 <= k < len ==> #[trigger] frame@[k] == if k < y * row_bytes {
                    scrolled_byte(old_frame, width as int, height as int, column@, k)
                } else {
                    old_frame[k]
                },
        decreases height - y,
    {
        proof {
            assert((y + 1) * row_bytes <= height * row_bytes) by (nonlinear_arith)
                requires y + 1 <= height, row_bytes >= 0;
            assert((y + 1) * row_bytes == y * row_bytes + row_bytes) by (nonlinear_arith);
        }
        let base = y * row_bytes;
        let bytes = column[y].to_bytes();
        let mut i: usize = 0;
        while i < row_bytes
            invariant
                width >= 1,
                row_bytes == 4 * width,
                len == frame@.len(),
                len == old_frame.len(),
                height * row_bytes <= len,
                height <= column@.len(),
                y < height,
                base == y * row_bytes,
                base + row_bytes <= height * row_bytes,
                bytes@ == seq![column@[y as int].r, column@[y as int].g, column@[y as int].b, column@[y as int].a],
                i <= row_bytes,
                forall|k: int|
                    0 <= k < len ==> #[trigger] frame@[k] == if k < base + i {
                        scrolled_byte(old_frame, width as int, height as int, column@, k)
                    } else {
                        old_frame[k]
                    },
            decreases row_bytes - i,
        {
            let k0 = base + i;
            proof {
                vstd::arithmetic::div_mod::lemma_fundamental_div_mod_converse(
                    k0 as int,
                    row_bytes as int,
                    y as int,
                    i as int,
                );
                assert(k0 < height * row_bytes);
            }
            if i < row_bytes - 4 {
                let b = frame[k0 + 4];
                frame[k0] = b;
            } else {
                frame[k0] = bytes[i - (row_bytes - 4)];
            }
            i += 1;
        }
        y += 1;
    }
}

} // verus!
